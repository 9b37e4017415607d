use reconciler::cache::{evict_from, find, first_repeat, has_key, positional, reversed};
use reconciler::node::options_eq;
use reconciler::layout::{Anchor, Constraint, Target};
use reconciler::macros::{Component as Element, Custom, Label};
use reconciler::{
    top_to_bottom, Component, ComponentWrapper, Effect, IdSource, MyListView, Primitive, Row,
    VButton, VComponent, VDomDiff, VLabel, VList, VNode, VSelect, VTextInput,
};

struct Plain;

impl Component for Plain {
    type Props = u8;
    type State = u8;
    type Message = ();

    fn render(_props: &u8, _state: &u8) -> Vec<(usize, VNode<Self>)> {
        Vec::new()
    }

    fn render_row(list: usize, index: usize, props: &u8, state: &u8) -> Vec<VNode<Self>> {
        vec![
            VNode::Label(VLabel { text: format!("{} {} {} {}", list, index, props, state) }),
            VNode::Button(VButton { click: Some(1), text: "go".to_string() }),
            VNode::TextInput(VTextInput { change: None, initial_value: String::new() }),
        ]
    }
}

fn label(text: &str) -> VNode<Plain> {
    VNode::Label(VLabel { text: text.to_string() })
}

fn button(text: &str, click: Option<usize>) -> VNode<Plain> {
    VNode::Button(VButton { click, text: text.to_string() })
}

fn input(value: &str, change: Option<usize>) -> VNode<Plain> {
    VNode::TextInput(VTextInput { change, initial_value: value.to_string() })
}

fn select(options: &[&str], select: Option<usize>) -> VNode<Plain> {
    VNode::Select(VSelect { options: options.iter().map(|o| o.to_string()).collect(), select })
}

/// Mounts a node that embeds nothing, and gives its primitive.
fn made(instance: &mut ComponentWrapper<Plain>, node: VNode<Plain>, ids: &mut IdSource) -> Primitive {
    let mut node = node;
    let (primitive, nested) = instance.create_component(0, &mut node, ids).unwrap();
    assert!(nested.is_empty() || matches!(node, VNode::Custom(_)));
    primitive
}

fn diff(a: VNode<Plain>, b: VNode<Plain>) -> Vec<VDomDiff<Plain>> {
    ComponentWrapper::<Plain>::diff_nodes(&a, b)
}

#[test]
fn labels_differ_by_text() {
    assert!(diff(label("a"), label("a")).is_empty());
    let ops = diff(label("a"), label("b"));
    assert_eq!(ops.len(), 1);
    assert!(matches!(&ops[0], VDomDiff::UpdateLabelText(text) if text == "b"));
}

#[test]
fn static_texts_differ_by_content() {
    assert!(diff(VNode::Text("same"), VNode::Text("same")).is_empty());
    let ops = diff(VNode::Text("one"), VNode::Text("two"));
    assert_eq!(ops.len(), 1);
    assert!(matches!(&ops[0], VDomDiff::UpdatePureText("two")));
}

#[test]
fn buttons_differ_by_text_and_handler() {
    assert!(diff(button("a", Some(1)), button("a", Some(1))).is_empty());
    let ops = diff(button("a", Some(1)), button("b", Some(2)));
    assert_eq!(ops.len(), 2);
    assert!(matches!(&ops[0], VDomDiff::UpdateButtonText(text) if text == "b"));
    assert!(matches!(&ops[1], VDomDiff::UpdateButtonClick(Some(2))));
    let ops = diff(button("a", Some(1)), button("a", None));
    assert_eq!(ops.len(), 1);
    assert!(matches!(&ops[0], VDomDiff::UpdateButtonClick(None)));
    let ops = diff(button("a", Some(1)), button("c", Some(1)));
    assert_eq!(ops.len(), 1);
    assert!(matches!(&ops[0], VDomDiff::UpdateButtonText(text) if text == "c"));
}

#[test]
fn text_fields_rebind_or_are_replaced() {
    assert!(diff(input("a", Some(1)), input("a", Some(1))).is_empty());
    let ops = diff(input("a", Some(1)), input("a", Some(2)));
    assert_eq!(ops.len(), 1);
    assert!(matches!(&ops[0], VDomDiff::UpdateInputChange(Some(2))));
    let ops = diff(input("a", Some(1)), input("b", Some(2)));
    assert_eq!(ops.len(), 1);
    assert!(matches!(&ops[0], VDomDiff::ReplaceWith(VNode::TextInput(_))));
}

#[test]
fn selector_with_another_handler_is_rebound() {
    let ops = diff(select(&["a", "b"], Some(1)), select(&["a", "b"], Some(2)));
    assert_eq!(ops.len(), 1);
    assert!(matches!(&ops[0], VDomDiff::UpdateSelectHandler(Some(2))));
    let ops = diff(select(&["a", "b"], Some(1)), select(&["a", "b"], None));
    assert_eq!(ops.len(), 1);
    assert!(matches!(&ops[0], VDomDiff::UpdateSelectHandler(None)));
    let ops = diff(select(&["a", "b"], None), select(&["a", "b"], Some(1)));
    assert_eq!(ops.len(), 1);
    assert!(matches!(&ops[0], VDomDiff::UpdateSelectHandler(Some(1))));
}

#[test]
fn selectors_and_lists_are_replaced_when_they_differ() {
    assert!(diff(select(&["a", "b"], Some(1)), select(&["a", "b"], Some(1))).is_empty());
    for other in [
        select(&["a"], Some(1)),
        select(&["a", "c"], Some(1)),
        select(&["a", "c"], None),
        select(&["a", "b", "c"], Some(1)),
    ] {
        let ops = diff(select(&["a", "b"], Some(1)), other);
        assert_eq!(ops.len(), 1);
        assert!(matches!(&ops[0], VDomDiff::ReplaceWith(VNode::Select(_))));
    }
    let list = |count, render| VNode::<Plain>::List(VList { count, render });
    assert!(diff(list(3, 1), list(3, 1)).is_empty());
    assert!(matches!(&diff(list(3, 1), list(4, 1))[0], VDomDiff::ReplaceWith(VNode::List(_))));
    assert!(matches!(&diff(list(3, 1), list(3, 2))[0], VDomDiff::ReplaceWith(VNode::List(_))));
}

#[test]
fn embedded_components_update_or_are_replaced() {
    let custom = |type_id, props| VNode::<Plain>::Custom(VComponent::new(type_id, props));
    assert!(diff(custom(1, 5), custom(1, 5)).is_empty());
    let ops = diff(custom(1, 5), custom(1, 6));
    assert_eq!(ops.len(), 1);
    assert!(matches!(&ops[0], VDomDiff::UpdatePropsFrom(c) if c.renderable.props == 6));
    let ops = diff(custom(1, 5), custom(2, 5));
    assert_eq!(ops.len(), 1);
    assert!(matches!(&ops[0], VDomDiff::ReplaceWith(VNode::Custom(c)) if c.type_id == 2));
    let ops = ComponentWrapper::<Plain>::diff_nodes_given(&custom(1, 5), custom(1, 5), false);
    assert!(matches!(&ops[0], VDomDiff::UpdatePropsFrom(_)));
    assert!(ComponentWrapper::<Plain>::diff_nodes_given(&custom(1, 5), custom(1, 6), true)
        .is_empty());
    let a = VComponent::<Plain>::new(1, 5);
    assert!(a == VComponent::new(1, 5));
    assert!(a != VComponent::new(1, 6));
    assert!(a != VComponent::new(2, 5));
    assert!(a.same_component_as(&VComponent::new(1, 9)));
    assert!(!a.same_component_as(&VComponent::new(2, 5)));
    assert!(a.renderable.equal_to(&ComponentWrapper::new(5)));
    assert!(!a.renderable.equal_to(&ComponentWrapper::new(4)));
}

#[test]
fn every_other_pair_of_kinds_is_replaced() {
    let nodes = || {
        vec![
            label("a"),
            button("a", None),
            input("a", None),
            select(&["a"], None),
            VNode::List(VList { count: 1, render: 0 }),
            VNode::Text("a"),
            VNode::Custom(VComponent::new(1, 0)),
        ]
    };
    for (i, a) in nodes().into_iter().enumerate() {
        for (j, b) in nodes().into_iter().enumerate() {
            let ops = diff(a_clone(&a), b);
            if i == j {
                assert!(ops.is_empty());
            } else {
                assert_eq!(ops.len(), 1);
                assert!(matches!(&ops[0], VDomDiff::ReplaceWith(_)));
            }
        }
    }
}

fn a_clone(node: &VNode<Plain>) -> VNode<Plain> {
    match node {
        VNode::Label(l) => VNode::Label(l.clone()),
        VNode::Button(b) => VNode::Button(b.clone()),
        VNode::TextInput(i) => VNode::TextInput(i.clone()),
        VNode::List(l) => VNode::List(l.clone()),
        VNode::Select(s) => VNode::Select(s.clone()),
        VNode::Text(t) => VNode::Text(t),
        VNode::Custom(c) => VNode::Custom(VComponent::new(c.type_id, c.renderable.props)),
    }
}

#[test]
fn options_are_compared_in_order() {
    let list = |items: &[&str]| items.iter().map(|i| i.to_string()).collect::<Vec<String>>();
    assert!(options_eq(&list(&[]), &list(&[])));
    assert!(options_eq(&list(&["a", "b"]), &list(&["a", "b"])));
    assert!(!options_eq(&list(&["a", "b"]), &list(&["b", "a"])));
    assert!(!options_eq(&list(&["a"]), &list(&["a", "b"])));
}

#[test]
fn accessors_pick_their_kind() {
    let mut node = label("a");
    assert_eq!(node.as_label().unwrap().text, "a");
    assert!(node.as_button().is_none());
    assert!(node.as_custom().is_none());
    assert!(node.as_text().is_none());
    assert!(node.as_text_input().is_none());
    assert!(node.as_select().is_none());
    node.as_label_mut().unwrap().text = "b".to_string();
    assert_eq!(node.as_label().unwrap().text, "b");
    assert!(node.as_button_mut().is_none());
    assert!(node.as_text_mut().is_none());
    assert!(node.as_text_input_mut().is_none());
    assert!(node.as_select_mut().is_none());

    let mut node = button("a", Some(1));
    node.as_button_mut().unwrap().click = None;
    assert_eq!(node.as_button().unwrap().click, None);
    assert!(node.as_label_mut().is_none());

    let mut node = input("a", None);
    node.as_text_input_mut().unwrap().initial_value = "z".to_string();
    assert_eq!(node.as_text_input().unwrap().initial_value, "z");

    let mut node: VNode<Plain> = VNode::Text("a");
    *node.as_text_mut().unwrap() = "b";
    assert_eq!(node.as_text(), Some(&"b"));

    let mut node = select(&["a"], None);
    node.as_select_mut().unwrap().select = Some(3);
    assert_eq!(node.as_select().unwrap().select, Some(3));

    let node: VNode<Plain> = VNode::Custom(VComponent::new(4, 2));
    assert_eq!(node.as_custom().unwrap().type_id, 4);
    assert_eq!(node.as_custom().unwrap().renderable.state, 0);
}

#[test]
fn create_component_registers_handlers() {
    let mut ids = IdSource { next: 10 };
    let mut instance = ComponentWrapper::<Plain>::with_state(1, 2);
    assert_eq!(made(&mut instance, label("a"), &mut ids), Primitive::Label);
    assert_eq!(made(&mut instance, VNode::Text("a"), &mut ids), Primitive::Label);
    assert_eq!(
        made(&mut instance, button("a", None), &mut ids),
        Primitive::Button { action: None }
    );
    assert_eq!(
        made(&mut instance, select(&["a"], None), &mut ids),
        Primitive::Select { action: None }
    );
    assert_eq!(
        made(&mut instance, VNode::List(VList { count: 2, render: 0 }), &mut ids),
        Primitive::List
    );
    assert_eq!(
        made(&mut instance, VNode::Custom(VComponent::new(1, 0)), &mut ids),
        Primitive::View
    );
    assert_eq!(ids.next, 10);
    assert_eq!(
        made(&mut instance, button("a", Some(5)), &mut ids),
        Primitive::Button { action: Some(10) }
    );
    assert_eq!(
        made(&mut instance, select(&["a"], Some(6)), &mut ids),
        Primitive::Select { action: Some(11) }
    );
    assert_eq!(
        made(&mut instance, input("a", Some(7)), &mut ids),
        Primitive::TextField { id: 12 }
    );
    assert_eq!(
        made(&mut instance, input("a", None), &mut ids),
        Primitive::TextField { id: 13 }
    );
    assert_eq!(ids.next, 14);
    assert_eq!(instance.click_handlers.get(&10), Some(&5));
    assert_eq!(instance.select_handlers.get(&11), Some(&6));
    assert_eq!(instance.change_handlers.get(&12), Some(&7));
    assert_eq!(instance.change_handlers.len(), 1);
    assert!(instance.has_handler_for(&10));
    assert!(instance.has_handler_for(&11));
    assert!(instance.has_handler_for(&12));
    assert!(!instance.has_handler_for(&13));
    assert!(!instance.has_handler_for(&9));
    assert!(instance.vdom.is_empty());
    assert_eq!((instance.props, instance.state), (1, 2));
}

#[test]
fn handler_registered_after_the_counter_wrapped_takes_the_place() {
    let mut ids = IdSource { next: usize::MAX };
    let mut instance = ComponentWrapper::<Plain>::new(0);
    made(&mut instance, button("a", Some(1)), &mut ids);
    made(&mut instance, button("b", Some(2)), &mut ids);
    assert_eq!(instance.click_handlers.get(&usize::MAX), Some(&1));
    assert_eq!(instance.click_handlers.get(&0), Some(&2));
    ids.next = usize::MAX;
    made(&mut instance, button("c", Some(3)), &mut ids);
    assert_eq!(instance.click_handlers.get(&usize::MAX), Some(&3));
    assert_eq!(instance.click_handlers.len(), 2);
}

#[test]
fn keyed_collection_helpers() {
    let entries = vec![(4, 'a'), (2, 'b'), (4, 'c'), (9, 'd')];
    assert_eq!(find(&entries, 4), Some(0));
    assert_eq!(find(&entries, 9), Some(3));
    assert_eq!(find(&entries, 1), None);
    assert_eq!(first_repeat(&entries), Some(4));
    assert_eq!(first_repeat(&vec![(1, ()), (2, ()), (3, ())]), None);
    assert_eq!(first_repeat(&vec![(1, ()), (2, ()), (3, ()), (2, ()), (1, ())]), Some(2));
    assert_eq!(first_repeat::<()>(&vec![]), None);
    assert!(has_key(&vec![1, 2, 3], 2));
    assert!(!has_key(&vec![1, 2, 3], 4));
    assert_eq!(reversed(vec![1, 2, 3]), vec![3, 2, 1]);
    assert_eq!(reversed(Vec::<u8>::new()), vec![]);
    let mut entries = entries;
    let gone = evict_from(&mut entries, &vec![9, 2]);
    assert_eq!(gone, vec![4, 4]);
    assert_eq!(entries, vec![(2, 'b'), (9, 'd')]);
}

#[test]
fn no_views_no_constraints() {
    assert_eq!(top_to_bottom(0), vec![]);
}

#[test]
fn one_view_is_tied_to_its_parent() {
    let tie = |anchor| Constraint::Equal {
        view: 0,
        anchor,
        to: Target::Parent,
        to_anchor: anchor,
        padded: true,
    };
    assert_eq!(
        top_to_bottom(1),
        vec![
            tie(Anchor::Top),
            tie(Anchor::Bottom),
            tie(Anchor::Leading),
            tie(Anchor::Trailing),
            Constraint::AtLeast { view: 0, anchor: Anchor::Width, least: 1 },
            Constraint::AtLeast { view: 0, anchor: Anchor::Height, least: 1 },
        ]
    );
}

#[test]
fn three_views_from_top_to_bottom() {
    let tie = |view, anchor| Constraint::Equal {
        view,
        anchor,
        to: Target::Parent,
        to_anchor: anchor,
        padded: true,
    };
    let next = |view| Constraint::Equal {
        view,
        anchor: Anchor::Bottom,
        to: Target::View(view + 1),
        to_anchor: Anchor::Top,
        padded: false,
    };
    let plan = top_to_bottom(3);
    assert_eq!(plan.len(), 16);
    assert_eq!(
        plan,
        vec![
            tie(0, Anchor::Top),
            tie(2, Anchor::Bottom),
            next(0),
            next(1),
            tie(0, Anchor::Leading),
            tie(0, Anchor::Trailing),
            tie(1, Anchor::Leading),
            tie(1, Anchor::Trailing),
            tie(2, Anchor::Leading),
            tie(2, Anchor::Trailing),
            Constraint::AtLeast { view: 0, anchor: Anchor::Width, least: 1 },
            Constraint::AtLeast { view: 0, anchor: Anchor::Height, least: 1 },
            Constraint::AtLeast { view: 1, anchor: Anchor::Width, least: 1 },
            Constraint::AtLeast { view: 1, anchor: Anchor::Height, least: 1 },
            Constraint::AtLeast { view: 2, anchor: Anchor::Width, least: 1 },
            Constraint::AtLeast { view: 2, anchor: Anchor::Height, least: 1 },
        ]
    );
    assert_eq!(top_to_bottom(10).len(), 51);
}

#[test]
fn list_rows_are_rendered_on_demand() {
    let list = MyListView::new(3, 8);
    assert_eq!(list.number_of_items(), 3);
    let mut ids = IdSource { next: 20 };
    let row: Row<Plain> = list.item_for(2, &4, &5, &mut ids).unwrap();
    assert_eq!(row.nodes.len(), 3);
    assert_eq!(row.nodes[0].as_label().unwrap().text, "8 2 4 5");
    assert_eq!(
        row.sub_views,
        vec![
            Primitive::Label,
            Primitive::Button { action: Some(20) },
            Primitive::TextField { id: 21 },
        ]
    );
    assert_eq!(row.nested, vec![vec![], vec![], vec![]]);
    assert_eq!(ids.next, 22);
    let mut row = row;
    assert_eq!(row.configure_with(8, 0, &1, &1, &mut ids), Ok(()));
    assert_eq!(row.nodes[0].as_label().unwrap().text, "8 0 1 1");
    assert_eq!(row.sub_views[1], Primitive::Button { action: Some(22) });
    assert_eq!(row.fill(vec![], 0, &mut ids), Ok(()));
    assert!(row.nodes.is_empty());
    assert!(row.sub_views.is_empty());
    assert!(row.nested.is_empty());
    assert_eq!(ids.next, 24);
    let empty = Row::<Plain>::new();
    assert!(empty.nodes.is_empty() && empty.sub_views.is_empty() && empty.nested.is_empty());
}

#[test]
fn view_description_defaults() {
    let label = Label::default();
    assert_eq!(label.text, "");
    assert_eq!(label.colour, "white");
    let custom = Custom::new("Panel".to_string());
    assert_eq!(custom.name, "Panel");
    assert_eq!(custom.text, "");
    assert_eq!(custom.colour, "white");
}

#[test]
fn view_description_elements() {
    match Element::element("Label".to_string(), Some("hi".to_string()), None) {
        Element::Label(label) => {
            assert_eq!(label.text, "hi");
            assert_eq!(label.colour, "white");
        }
        Element::Custom(_) => panic!("a label was asked for"),
    }
    match Element::element("Panel".to_string(), None, Some("red".to_string())) {
        Element::Custom(custom) => {
            assert_eq!(custom.name, "Panel");
            assert_eq!(custom.text, "");
            assert_eq!(custom.colour, "red");
        }
        Element::Label(_) => panic!("a component was named"),
    }
}

#[test]
fn effects_compare_by_value() {
    assert_eq!(Effect::Remove { key: 1 }, Effect::Remove { key: 1 });
    assert_ne!(Effect::Remove { key: 1 }, Effect::SetText { key: 1 });
}

#[test]
fn positions_become_keys() {
    assert_eq!(positional(vec!['a', 'b', 'c']), vec![(0, 'a'), (1, 'b'), (2, 'c')]);
    assert_eq!(positional(Vec::<u8>::new()), vec![]);
    let mut ids = IdSource::new();
    let mut instance = ComponentWrapper::<Plain>::new(0);
    let effects = instance
        .reconcile_positional(vec![label("a"), label("b"), button("c", None)], &mut ids)
        .unwrap();
    assert_eq!(
        effects,
        vec![
            Effect::Create { key: 0, primitive: Primitive::Label },
            Effect::Create { key: 1, primitive: Primitive::Label },
            Effect::Create { key: 2, primitive: Primitive::Button { action: None } },
            Effect::Layout { order: vec![0, 1, 2] },
        ]
    );
    // Without keys, the node that moves up is compared with the one that stood there.
    let effects = instance.reconcile_positional(vec![label("b"), button("c", None)], &mut ids).unwrap();
    assert_eq!(
        effects,
        vec![
            Effect::SetText { key: 0 },
            Effect::Replace { key: 1, primitive: Primitive::Button { action: None } },
            Effect::Remove { key: 2 },
            Effect::Layout { order: vec![0, 1] },
        ]
    );
}

#[test]
fn nodes_compare_by_value() {
    assert!(label("a") == label("a"));
    assert!(label("a") != label("b"));
    assert!(label("a") != VNode::Text("a"));
    assert!(VNode::<Plain>::Text("a") == VNode::Text("a"));
    assert!(button("a", Some(1)) == button("a", Some(1)));
    assert!(button("a", Some(1)) != button("a", None));
    assert!(input("a", None) == input("a", None));
    assert!(input("a", None) != input("b", None));
    assert!(select(&["a", "b"], None) == select(&["a", "b"], None));
    assert!(select(&["a", "b"], None) != select(&["a"], None));
    let list = |count| VNode::<Plain>::List(VList { count, render: 0 });
    assert!(list(1) == list(1));
    assert!(list(1) != list(2));
    let custom = |type_id, props| VNode::<Plain>::Custom(VComponent::new(type_id, props));
    assert!(custom(1, 2) == custom(1, 2));
    assert!(custom(1, 2) != custom(1, 3));
    assert!(custom(1, 2) != custom(2, 2));
}

struct Tally;

impl Component for Tally {
    type Props = u8;
    type State = u32;
    type Message = u32;

    fn render(_props: &u8, _state: &u32) -> Vec<(usize, VNode<Self>)> {
        Vec::new()
    }

    fn click(handler: usize, props: &u8, state: &mut u32) {
        *state += handler as u32 + *props as u32;
    }

    fn change(handler: usize, value: &str, _props: &u8, state: &mut u32) -> bool {
        *state += value.len() as u32;
        handler == 1
    }

    fn select(handler: usize, index: usize, _props: &u8, state: &mut u32) -> bool {
        *state += index as u32;
        handler == 1
    }

    fn on_message(msg: &u32, _props: &u8, state: &mut u32) -> bool {
        *state += *msg;
        *msg > 10
    }
}

#[test]
fn handlers_answer_with_the_state_they_leave() {
    assert_eq!(Tally::clicked(2, &3, 10), 15);
    assert_eq!(Tally::changed(1, "abc", &0, 10), (13, true));
    assert_eq!(Tally::changed(0, "", &0, 10), (10, false));
    assert_eq!(Tally::selected(1, 4, &0, 10), (14, true));
    assert_eq!(Tally::selected(2, 4, &0, 10), (14, false));
    assert_eq!(Tally::reduced(&11, &0, 10), (21, true));
    assert_eq!(Tally::reduced(&1, &0, 10), (11, false));
    // A component that provides no handler leaves the state as it is.
    assert_eq!(Plain::clicked(2, &3, 10), 10);
    assert_eq!(Plain::changed(1, "abc", &0, 10), (10, false));
    assert_eq!(Plain::selected(1, 4, &0, 10), (10, false));
    assert_eq!(Plain::reduced(&(), &0, 10), (10, false));
    assert!(Plain::render_row(0, 0, &0, &0).len() == 3);
}

#[test]
fn state_is_back_in_place_after_a_handler() {
    let mut ids = IdSource::new();
    let mut instance = ComponentWrapper::<Tally>::with_state(1, 5);
    instance.click_handlers.insert(7, 2);
    instance.change_handlers.insert(8, 0);
    instance.select_handlers.insert(9, 1);
    instance.on_message(&reconciler::Message::click(7), &mut ids).unwrap();
    assert_eq!(instance.state, 8);
    instance.on_message(&reconciler::Message::change(8, "ab".to_string()), &mut ids).unwrap();
    assert_eq!(instance.state, 10);
    instance.on_message(&reconciler::Message::select(9, 3), &mut ids).unwrap();
    assert_eq!(instance.state, 13);
    let custom = reconciler::Message::custom(&mut ids, 20);
    instance.on_message(&custom, &mut ids).unwrap();
    assert_eq!(instance.state, 33);
    assert_eq!(instance.props, 1);
}
