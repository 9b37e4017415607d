use reconciler::{
    gen_id, Component, ComponentWrapper, Dispatch, Effect, Fault, IdSource, Message, MyListView,
    Payload, Primitive, Row, VButton, VComponent, VDomDiff, VLabel, VList, VNode, VSelect,
    VTextInput,
};

const INCREMENT: usize = 7;
const RENAME: usize = 8;
const PICK: usize = 9;

/// A counter: a button that adds one, and a label with the count.
struct Counter;

impl Component for Counter {
    type Props = ();
    type State = u32;
    type Message = u32;

    fn render(_props: &(), state: &u32) -> Vec<(usize, VNode<Self>)> {
        vec![
            (0, VNode::Button(VButton { click: Some(INCREMENT), text: "Increment".to_string() })),
            (1, VNode::Label(VLabel { text: state.to_string() })),
        ]
    }

    fn click(handler: usize, _props: &(), state: &mut u32) {
        if handler == INCREMENT {
            *state += 1;
        }
    }

    fn on_message(msg: &u32, _props: &(), state: &mut u32) -> bool {
        if *msg == 0 {
            false
        } else {
            *state += *msg;
            true
        }
    }
}

const ROOT: usize = 1;
const LEAF: usize = 2;
const OTHER: usize = 3;

#[derive(Clone, PartialEq, Debug)]
enum Props {
    Root { caption: String, leaf_type: usize, rows: Vec<usize> },
    Leaf { caption: String },
}

#[derive(Clone, PartialEq, Debug, Default)]
struct State {
    count: u32,
    name: String,
    picked: usize,
}

/// A small application: a root that embeds leaves, each with a button, a
/// text field, a selector and a label.
struct Ui;

impl Component for Ui {
    type Props = Props;
    type State = State;
    type Message = String;

    fn render(props: &Props, state: &State) -> Vec<(usize, VNode<Self>)> {
        match props {
            Props::Root { caption, leaf_type, rows } => {
                let mut nodes = vec![(100, VNode::Text("leaves"))];
                for row in rows {
                    nodes.push((
                        *row,
                        VNode::Custom(VComponent::new(
                            *leaf_type,
                            Props::Leaf { caption: caption.clone() },
                        )),
                    ));
                }
                nodes
            }
            Props::Leaf { caption } => vec![
                (0, VNode::Button(VButton { click: Some(INCREMENT), text: caption.clone() })),
                (
                    1,
                    VNode::TextInput(VTextInput {
                        change: Some(RENAME),
                        initial_value: String::new(),
                    }),
                ),
                (
                    2,
                    VNode::Select(VSelect {
                        options: vec!["a".to_string(), "b".to_string()],
                        select: Some(PICK),
                    }),
                ),
                (
                    3,
                    VNode::Label(VLabel {
                        text: format!("{} {} {}", state.count, state.name, state.picked),
                    }),
                ),
            ],
        }
    }

    fn click(handler: usize, _props: &Props, state: &mut State) {
        if handler == INCREMENT {
            state.count += 1;
        }
    }

    fn change(handler: usize, value: &str, _props: &Props, state: &mut State) -> bool {
        if handler == RENAME && value != "quiet" {
            state.name = value.to_string();
            true
        } else {
            false
        }
    }

    fn select(handler: usize, index: usize, _props: &Props, state: &mut State) -> bool {
        if handler == PICK {
            state.picked = index;
            true
        } else {
            false
        }
    }

    fn on_message(msg: &String, props: &Props, state: &mut State) -> bool {
        match props {
            Props::Leaf { .. } => {
                state.name = msg.clone();
                true
            }
            Props::Root { .. } => false,
        }
    }
}

fn root(rows: Vec<usize>) -> ComponentWrapper<Ui> {
    ComponentWrapper::new(Props::Root { caption: "go".to_string(), leaf_type: LEAF, rows })
}

fn leaf_of(instance: &mut ComponentWrapper<Ui>, key: usize) -> &mut ComponentWrapper<Ui> {
    for entry in instance.vdom.iter_mut() {
        if entry.0 == key {
            if let VNode::Custom(component) = &mut entry.1 {
                return &mut component.renderable;
            }
        }
    }
    panic!("no nested instance under the key");
}

fn label_text<T: Component>(instance: &ComponentWrapper<T>, key: usize) -> String {
    instance.node(key).unwrap().as_label().unwrap().text.clone()
}

fn keys<T: Component>(instance: &ComponentWrapper<T>) -> Vec<usize> {
    instance.vdom.iter().map(|entry| entry.0).collect()
}

#[test]
fn mount_inserts_every_node() {
    let mut ids = IdSource::new();
    let mut counter = ComponentWrapper::<Counter>::new(());
    assert_eq!(counter.state, 0);
    let effects = counter.mount(&mut ids).unwrap();
    assert_eq!(
        effects,
        vec![
            Effect::Create { key: 0, primitive: Primitive::Button { action: Some(0) } },
            Effect::Create { key: 1, primitive: Primitive::Label },
            Effect::Layout { order: vec![0, 1] },
        ]
    );
    assert_eq!(keys(&counter), vec![0, 1]);
    assert_eq!(label_text(&counter, 1), "0");
    assert_eq!(counter.click_handlers.get(&0), Some(&INCREMENT));
    assert_eq!(ids.next, 1);
}

#[test]
fn click_updates_the_label_only() {
    let mut ids = IdSource::new();
    let mut counter = ComponentWrapper::<Counter>::new(());
    counter.mount(&mut ids).unwrap();
    let done = counter.on_message(&Message::click(0), &mut ids).unwrap();
    assert_eq!(counter.state, 1);
    assert_eq!(
        done,
        Dispatch {
            rendered: Some(vec![
                Effect::SetText { key: 1 },
                Effect::Layout { order: vec![0, 1] },
            ]),
            forwarded: vec![],
        }
    );
    assert_eq!(label_text(&counter, 1), "1");
    assert!(counter.node(0).unwrap().as_button().is_some());
    assert_eq!(ids.next, 1);
}

#[test]
fn diff_after_a_click_updates_the_label() {
    let mut ids = IdSource::new();
    let mut counter = ComponentWrapper::<Counter>::new(());
    counter.mount(&mut ids).unwrap();
    let changes = counter.diff(Counter::render(&(), &1));
    assert_eq!(changes.len(), 2);
    assert_eq!(changes[0].0, 0);
    assert!(changes[0].1.is_empty());
    assert_eq!(changes[1].0, 1);
    assert_eq!(changes[1].1.len(), 1);
    assert!(matches!(&changes[1].1[0], VDomDiff::UpdateLabelText(text) if text == "1"));
}

#[test]
fn forward_reaches_every_nested_instance_once() {
    let mut ids = IdSource::new();
    let mut ui = mounted_tree(vec![5, 6], &mut ids);
    let forwarded = ui.forward(&Message::click(0), &mut ids).unwrap();
    assert_eq!(forwarded.len(), 2);
    assert_eq!(forwarded[0].0, 5);
    assert!(forwarded[0].1.rendered.is_some());
    assert_eq!(forwarded[1], (6, Dispatch { rendered: None, forwarded: vec![] }));
    assert_eq!(leaf_of(&mut ui, 5).state.count, 1);
}

#[test]
fn second_render_changes_nothing() {
    let mut ids = IdSource::new();
    let mut counter = ComponentWrapper::<Counter>::new(());
    counter.mount(&mut ids).unwrap();
    let again = counter.render(&mut ids).unwrap();
    assert_eq!(again, vec![Effect::Layout { order: vec![0, 1] }]);
    let changes = counter.diff(Counter::render(&(), &counter.state));
    assert_eq!(changes.len(), 2);
    assert!(changes.iter().all(|group| group.1.is_empty()));
}

#[test]
fn keyed_collection_updates_and_removes() {
    let mut ids = IdSource::new();
    let mut counter = ComponentWrapper::<Counter>::new(());
    counter
        .reconcile(
            vec![
                (0, VNode::Label(VLabel { text: "a".to_string() })),
                (1, VNode::Label(VLabel { text: "b".to_string() })),
            ],
            &mut ids,
        )
        .unwrap();
    let changes = counter.diff(vec![(1, VNode::Label(VLabel { text: "b2".to_string() }))]);
    assert_eq!(changes.len(), 1);
    assert_eq!(changes[0].0, 1);
    assert_eq!(changes[0].1.len(), 1);
    assert!(matches!(&changes[0].1[0], VDomDiff::UpdateLabelText(text) if text == "b2"));
    let effects = counter
        .reconcile(vec![(1, VNode::Label(VLabel { text: "b2".to_string() }))], &mut ids)
        .unwrap();
    assert_eq!(
        effects,
        vec![
            Effect::SetText { key: 1 },
            Effect::Remove { key: 0 },
            Effect::Layout { order: vec![1] },
        ]
    );
    assert_eq!(keys(&counter), vec![1]);
    assert_eq!(label_text(&counter, 1), "b2");
}

#[test]
fn empty_output_removes_everything() {
    let mut ids = IdSource::new();
    let mut counter = ComponentWrapper::<Counter>::new(());
    counter.mount(&mut ids).unwrap();
    let effects = counter.reconcile(vec![], &mut ids).unwrap();
    assert_eq!(
        effects,
        vec![
            Effect::Remove { key: 0 },
            Effect::Remove { key: 1 },
            Effect::Layout { order: vec![] },
        ]
    );
    assert!(counter.vdom.is_empty());
    assert_eq!(counter.click_handlers.len(), 1);
}

#[test]
fn kind_change_replaces() {
    let mut ids = IdSource::new();
    let mut counter = ComponentWrapper::<Counter>::new(());
    counter.mount(&mut ids).unwrap();
    let output = vec![
        (0, VNode::Label(VLabel { text: "Increment".to_string() })),
        (1, VNode::Button(VButton { click: None, text: "0".to_string() })),
    ];
    let changes = counter.diff(output);
    assert_eq!(changes[0].1.len(), 1);
    assert!(matches!(&changes[0].1[0], VDomDiff::ReplaceWith(VNode::Label(_))));
    assert_eq!(changes[1].1.len(), 1);
    assert!(matches!(&changes[1].1[0], VDomDiff::ReplaceWith(VNode::Button(_))));
    let effects = counter
        .reconcile(
            vec![
                (0, VNode::Label(VLabel { text: "Increment".to_string() })),
                (1, VNode::Button(VButton { click: Some(INCREMENT), text: "0".to_string() })),
            ],
            &mut ids,
        )
        .unwrap();
    assert_eq!(
        effects,
        vec![
            Effect::Replace { key: 0, primitive: Primitive::Label },
            Effect::Replace { key: 1, primitive: Primitive::Button { action: Some(1) } },
            Effect::Layout { order: vec![0, 1] },
        ]
    );
    assert!(counter.node(0).unwrap().as_label().is_some());
    assert!(counter.node(1).unwrap().as_button().is_some());
}

#[test]
fn cache_keys_follow_the_output() {
    let mut ids = IdSource::new();
    let mut ui = root(vec![5, 6, 7]);
    ui.mount(&mut ids).unwrap();
    assert_eq!(keys(&ui), vec![100, 5, 6, 7]);
    ui.update_props(
        Props::Root { caption: "go".to_string(), leaf_type: LEAF, rows: vec![7, 9] },
        &mut ids,
    )
    .unwrap();
    let mut now = keys(&ui);
    now.sort();
    assert_eq!(now, vec![7, 9, 100]);
}

#[test]
fn nested_instance_is_mounted_with_its_parent() {
    let mut ids = IdSource::new();
    let mut ui = root(vec![5]);
    let effects = ui.mount(&mut ids).unwrap();
    assert_eq!(
        effects,
        vec![
            Effect::Create { key: 100, primitive: Primitive::Label },
            Effect::Mount {
                key: 5,
                effects: vec![
                    Effect::Create { key: 0, primitive: Primitive::Button { action: Some(0) } },
                    Effect::Create { key: 1, primitive: Primitive::TextField { id: 1 } },
                    Effect::Create { key: 2, primitive: Primitive::Select { action: Some(2) } },
                    Effect::Create { key: 3, primitive: Primitive::Label },
                    Effect::Layout { order: vec![0, 1, 2, 3] },
                ],
            },
            Effect::Layout { order: vec![100, 5] },
        ]
    );
    assert_eq!(ui.room, usize::MAX);
    let leaf = leaf_of(&mut ui, 5);
    assert_eq!(leaf.room, usize::MAX - 1);
    assert_eq!(keys(leaf), vec![0, 1, 2, 3]);
    assert_eq!(leaf.click_handlers.get(&0), Some(&INCREMENT));
    assert_eq!(leaf.change_handlers.get(&1), Some(&RENAME));
    assert_eq!(leaf.select_handlers.get(&2), Some(&PICK));
    assert_eq!(ids.next, 3);
}

#[test]
fn instance_without_room_mounts_no_nested_instance() {
    let mut ids = IdSource::new();
    let mut ui = root(vec![5]);
    ui.room = 0;
    assert_eq!(ui.mount(&mut ids), Err(Fault::TooDeep { key: 5 }));
    assert_eq!(keys(&ui), vec![100]);
    let mut flat = root(vec![]);
    flat.room = 0;
    assert!(flat.mount(&mut ids).is_ok());
    let mut shallow = root(vec![5]);
    shallow.room = 1;
    assert!(shallow.mount(&mut ids).is_ok());
    assert_eq!(leaf_of(&mut shallow, 5).room, 0);
    assert_eq!(
        leaf_of(&mut shallow, 5).apply(
            9,
            VDomDiff::InsertNode(VNode::Custom(VComponent::new(
                LEAF,
                Props::Leaf { caption: String::new() },
            ))),
            &mut ids,
        ),
        Err(Fault::TooDeep { key: 9 })
    );
}

fn leaf_effects(first: usize) -> Vec<Effect> {
    vec![
        Effect::Create { key: 0, primitive: Primitive::Button { action: Some(first) } },
        Effect::Create { key: 1, primitive: Primitive::TextField { id: first + 1 } },
        Effect::Create { key: 2, primitive: Primitive::Select { action: Some(first + 2) } },
        Effect::Create { key: 3, primitive: Primitive::Label },
        Effect::Layout { order: vec![0, 1, 2, 3] },
    ]
}

#[test]
fn create_component_mounts_an_embedded_component() {
    let mut ids = IdSource { next: 30 };
    let mut ui = root(vec![]);
    let mut node = VNode::Custom(VComponent::new(LEAF, Props::Leaf { caption: "go".to_string() }));
    let made = ui.create_component(7, &mut node, &mut ids);
    assert_eq!(made, Ok((Primitive::View, leaf_effects(30))));
    assert_eq!(ids.next, 33);
    let leaf = &node.as_custom().unwrap().renderable;
    assert_eq!(leaf.room, usize::MAX - 1);
    assert_eq!(keys(leaf), vec![0, 1, 2, 3]);
    assert_eq!(leaf.click_handlers.get(&30), Some(&INCREMENT));
    assert_eq!(leaf.change_handlers.get(&31), Some(&RENAME));
    assert_eq!(leaf.select_handlers.get(&32), Some(&PICK));
    assert_eq!(leaf.props, Props::Leaf { caption: "go".to_string() });
    assert_eq!(leaf.state, State::default());
    assert!(ui.vdom.is_empty());
    assert!(ui.click_handlers.is_empty() && ui.change_handlers.is_empty());
    assert!(ui.select_handlers.is_empty());
    assert_eq!(ui.room, usize::MAX);
}

#[test]
fn create_component_without_room_refuses_an_embedded_component() {
    let mut ids = IdSource { next: 30 };
    let mut ui = root(vec![]);
    ui.room = 0;
    let mut node = VNode::Custom(VComponent::new(LEAF, Props::Leaf { caption: "go".to_string() }));
    assert_eq!(ui.create_component(7, &mut node, &mut ids), Err(Fault::TooDeep { key: 7 }));
    assert_eq!(ids.next, 30);
    assert!(node.as_custom().unwrap().renderable.vdom.is_empty());
    assert_eq!(node.as_custom().unwrap().renderable.room, usize::MAX);
    let mut button = VNode::Button(VButton { click: Some(INCREMENT), text: "go".to_string() });
    assert_eq!(
        ui.create_component(8, &mut button, &mut ids),
        Ok((Primitive::Button { action: Some(30) }, vec![]))
    );
    assert_eq!(ui.click_handlers.get(&30), Some(&INCREMENT));
}

#[test]
fn create_component_reports_the_fault_of_the_embedded_component() {
    let mut ids = IdSource { next: 30 };
    let mut ui = root(vec![]);
    let mut node = VNode::Custom(VComponent::new(
        ROOT,
        Props::Root { caption: String::new(), leaf_type: LEAF, rows: vec![100] },
    ));
    assert_eq!(
        ui.create_component(7, &mut node, &mut ids),
        Err(Fault::Child { key: 7, fault: Box::new(Fault::Duplicate { key: 100 }) })
    );
    assert_eq!(ids.next, 30);
}

/// A table: a list whose rows hold a label, an embedded counter and a
/// button.
struct Table;

impl Component for Table {
    type Props = u32;
    type State = ();
    type Message = ();

    fn render(props: &u32, _state: &()) -> Vec<(usize, VNode<Self>)> {
        match *props {
            0 => vec![(0, VNode::List(VList { count: 3, render: 1 }))],
            1 => vec![(4, VNode::Button(VButton { click: Some(3), text: "cell".to_string() }))],
            _ => vec![(6, VNode::Text("a")), (6, VNode::Text("b"))],
        }
    }

    fn render_row(_list: usize, index: usize, _props: &u32, _state: &()) -> Vec<VNode<Self>> {
        let cell: u32 = if index < 3 { 1 } else { 2 };
        vec![
            VNode::Label(VLabel { text: index.to_string() }),
            VNode::Custom(VComponent::new(1, cell)),
            VNode::Button(VButton { click: Some(5), text: "pick".to_string() }),
        ]
    }
}

#[test]
fn component_in_a_list_row_is_mounted() {
    let mut ids = IdSource { next: 20 };
    let list = MyListView::new(3, 1);
    let row: Row<Table> = list.item_for(2, &0, &(), &mut ids).unwrap();
    assert_eq!(
        row.sub_views,
        vec![Primitive::Label, Primitive::View, Primitive::Button { action: Some(21) }]
    );
    assert_eq!(
        row.nested,
        vec![
            vec![],
            vec![
                Effect::Create { key: 4, primitive: Primitive::Button { action: Some(20) } },
                Effect::Layout { order: vec![4] },
            ],
            vec![],
        ]
    );
    assert_eq!(ids.next, 22);
    assert_eq!(row.nodes.len(), 3);
    assert_eq!(row.nodes[0].as_label().unwrap().text, "2");
    let cell = &row.nodes[1].as_custom().unwrap().renderable;
    assert_eq!(keys(cell), vec![4]);
    assert_eq!(cell.click_handlers.get(&20), Some(&3));
    assert_eq!(cell.room, usize::MAX - 1);
}

#[test]
fn fault_in_a_list_row_names_the_position() {
    let mut ids = IdSource { next: 20 };
    let list = MyListView::new(3, 1);
    let mut row: Row<Table> = list.item_for(0, &0, &(), &mut ids).unwrap();
    assert_eq!(ids.next, 22);
    let done = row.configure_with(1, 7, &0, &(), &mut ids);
    assert_eq!(done, Err(Fault::Child { key: 1, fault: Box::new(Fault::Duplicate { key: 6 }) }));
    assert_eq!(row.nodes[0].as_label().unwrap().text, "0");
    assert_eq!(row.sub_views.len(), 3);
    assert!(matches!(list.item_for::<Table>(9, &0, &(), &mut ids), Err(Fault::Child { key: 1, .. })));
}

#[test]
fn selector_is_rebound_in_place() {
    let mut ids = IdSource::new();
    let mut ui = ComponentWrapper::<Ui>::new(Props::Leaf { caption: "go".to_string() });
    ui.mount(&mut ids).unwrap();
    assert_eq!(ids.next, 3);
    assert_eq!(
        ui.apply(2, VDomDiff::UpdateSelectHandler(Some(44)), &mut ids),
        Ok(Effect::SetAction { key: 2, action: Some(3) })
    );
    assert_eq!(ui.select_handlers.get(&3), Some(&44));
    assert_eq!(ui.select_handlers.get(&2), Some(&PICK));
    assert_eq!(ui.node(2).unwrap().as_select().unwrap().select, Some(44));
    assert_eq!(ui.node(2).unwrap().as_select().unwrap().options.len(), 2);
    assert_eq!(
        ui.apply(2, VDomDiff::UpdateSelectHandler(None), &mut ids),
        Ok(Effect::SetAction { key: 2, action: None })
    );
    assert_eq!(ui.node(2).unwrap().as_select().unwrap().select, None);
    assert_eq!(ids.next, 4);
    assert_eq!(
        ui.apply(3, VDomDiff::UpdateSelectHandler(None), &mut ids),
        Err(Fault::Mismatch { key: 3 })
    );
    assert_eq!(
        ui.apply(9, VDomDiff::UpdateSelectHandler(None), &mut ids),
        Err(Fault::Missing { key: 9 })
    );
}

/// A selector whose handler is named by the props.
struct Chooser;

impl Component for Chooser {
    type Props = usize;
    type State = ();
    type Message = ();

    fn render(props: &usize, _state: &()) -> Vec<(usize, VNode<Self>)> {
        let select = if *props == 0 { None } else { Some(*props) };
        vec![(0, VNode::Select(VSelect { options: vec!["a".to_string()], select }))]
    }
}

#[test]
fn render_rebinds_a_selector_whose_handler_alone_differs() {
    let mut ids = IdSource::new();
    let mut chooser = ComponentWrapper::<Chooser>::new(4);
    assert_eq!(
        chooser.mount(&mut ids),
        Ok(vec![
            Effect::Create { key: 0, primitive: Primitive::Select { action: Some(0) } },
            Effect::Layout { order: vec![0] },
        ])
    );
    assert_eq!(
        chooser.update_props(6, &mut ids),
        Ok(vec![Effect::SetAction { key: 0, action: Some(1) }, Effect::Layout { order: vec![0] }])
    );
    assert_eq!(chooser.select_handlers.get(&0), Some(&4));
    assert_eq!(chooser.select_handlers.get(&1), Some(&6));
    assert_eq!(chooser.node(0).unwrap().as_select().unwrap().select, Some(6));
    assert_eq!(
        chooser.update_props(0, &mut ids),
        Ok(vec![Effect::SetAction { key: 0, action: None }, Effect::Layout { order: vec![0] }])
    );
    assert_eq!(chooser.update_props(0, &mut ids), Ok(vec![Effect::Layout { order: vec![0] }]));
    assert_eq!(ids.next, 2);
}

fn mounted_tree(rows: Vec<usize>, ids: &mut IdSource) -> ComponentWrapper<Ui> {
    let mut ui = root(rows);
    ui.mount(ids).unwrap();
    ui
}

#[test]
fn click_owned_by_a_leaf_is_forwarded_to_every_leaf() {
    let mut ids = IdSource::new();
    let mut ui = mounted_tree(vec![5, 6], &mut ids);
    // The first leaf drew the identifiers 0, 1, 2 and the second 3, 4, 5.
    let done = ui.on_message(&Message::click(3), &mut ids).unwrap();
    assert!(done.rendered.is_none());
    assert_eq!(done.forwarded.len(), 2);
    assert_eq!(done.forwarded[0].0, 5);
    assert_eq!(
        done.forwarded[0].1,
        Dispatch { rendered: None, forwarded: vec![] }
    );
    assert_eq!(done.forwarded[1].0, 6);
    assert_eq!(
        done.forwarded[1].1,
        Dispatch {
            rendered: Some(vec![
                Effect::SetText { key: 3 },
                Effect::Layout { order: vec![0, 1, 2, 3] },
            ]),
            forwarded: vec![],
        }
    );
    assert_eq!(leaf_of(&mut ui, 5).state.count, 0);
    assert_eq!(leaf_of(&mut ui, 6).state.count, 1);
    assert_eq!(ui.state, State::default());
}

#[test]
fn click_that_nobody_owns_reaches_every_leaf() {
    let mut ids = IdSource::new();
    let mut ui = mounted_tree(vec![5, 6, 7], &mut ids);
    let done = ui.on_message(&Message::click(1000), &mut ids).unwrap();
    assert!(done.rendered.is_none());
    let reached: Vec<usize> = done.forwarded.iter().map(|f| f.0).collect();
    assert_eq!(reached, vec![5, 6, 7]);
    for forwarded in &done.forwarded {
        assert_eq!(forwarded.1, Dispatch { rendered: None, forwarded: vec![] });
    }
}

#[test]
fn owned_click_is_not_forwarded() {
    let mut ids = IdSource::new();
    let mut ui = mounted_tree(vec![5], &mut ids);
    // Register a click handler at the root under the identifier of the leaf's button.
    ui.click_handlers.insert(0, INCREMENT);
    let done = ui.on_message(&Message::click(0), &mut ids).unwrap();
    assert!(done.forwarded.is_empty());
    assert!(done.rendered.is_some());
    assert_eq!(ui.state.count, 1);
    assert_eq!(leaf_of(&mut ui, 5).state.count, 0);
}

#[test]
fn click_owned_through_the_change_registry_renders_without_a_handler() {
    let mut ids = IdSource::new();
    let mut ui = mounted_tree(vec![5], &mut ids);
    ui.change_handlers.insert(40, RENAME);
    let done = ui.on_message(&Message::click(40), &mut ids).unwrap();
    assert!(done.forwarded.is_empty());
    assert_eq!(done.rendered, Some(vec![Effect::Layout { order: vec![100, 5] }]));
    assert_eq!(ui.state, State::default());
}

#[test]
fn click_owned_through_the_select_registry_is_not_forwarded() {
    let mut ids = IdSource::new();
    let mut ui = mounted_tree(vec![5], &mut ids);
    // The identifier of the leaf's button, held by the root's select registry.
    ui.select_handlers.insert(0, PICK);
    let done = ui.on_message(&Message::click(0), &mut ids).unwrap();
    assert!(done.forwarded.is_empty());
    assert_eq!(done.rendered, Some(vec![Effect::Layout { order: vec![100, 5] }]));
    assert_eq!(ui.state, State::default());
    assert_eq!(leaf_of(&mut ui, 5).state.count, 0);
}

#[test]
fn change_renders_when_the_handler_asks_for_it() {
    let mut ids = IdSource::new();
    let mut ui = mounted_tree(vec![5], &mut ids);
    let leaf = leaf_of(&mut ui, 5);
    let done = leaf.on_message(&Message::change(1, "Ada".to_string()), &mut ids).unwrap();
    assert_eq!(leaf.state.name, "Ada");
    assert_eq!(
        done.rendered,
        Some(vec![Effect::SetText { key: 3 }, Effect::Layout { order: vec![0, 1, 2, 3] }])
    );
    let quiet = leaf.on_message(&Message::change(1, "quiet".to_string()), &mut ids).unwrap();
    assert_eq!(leaf.state.name, "Ada");
    assert_eq!(quiet, Dispatch { rendered: None, forwarded: vec![] });
}

#[test]
fn select_renders_when_the_handler_asks_for_it() {
    let mut ids = IdSource::new();
    let mut ui = mounted_tree(vec![5], &mut ids);
    let done = ui.on_message(&Message::select(2, 1), &mut ids).unwrap();
    assert_eq!(done.forwarded.len(), 1);
    assert!(done.forwarded[0].1.rendered.is_some());
    assert_eq!(leaf_of(&mut ui, 5).state.picked, 1);
    let missed = ui.on_message(&Message::select(77, 1), &mut ids).unwrap();
    assert_eq!(missed.forwarded[0].1, Dispatch { rendered: None, forwarded: vec![] });
}

#[test]
fn custom_message_goes_to_the_children_first() {
    let mut ids = IdSource::new();
    let mut ui = mounted_tree(vec![5, 6], &mut ids);
    let message = Message::custom(&mut ids, "all".to_string());
    assert_eq!(message.id, 6);
    let done = ui.on_message(&message, &mut ids).unwrap();
    assert!(done.rendered.is_none());
    assert_eq!(done.forwarded.len(), 2);
    assert!(done.forwarded.iter().all(|f| f.1.rendered.is_some()));
    assert_eq!(leaf_of(&mut ui, 5).state.name, "all");
    assert_eq!(leaf_of(&mut ui, 6).state.name, "all");
    assert_eq!(ui.state.name, "");
}

#[test]
fn custom_message_renders_when_the_reducer_asks_for_it() {
    let mut ids = IdSource::new();
    let mut counter = ComponentWrapper::<Counter>::new(());
    counter.mount(&mut ids).unwrap();
    let done = counter.on_message(&Message::custom(&mut ids, 5), &mut ids).unwrap();
    assert_eq!(counter.state, 5);
    assert_eq!(
        done.rendered,
        Some(vec![Effect::SetText { key: 1 }, Effect::Layout { order: vec![0, 1] }])
    );
    let quiet = counter.on_message(&Message::custom(&mut ids, 0), &mut ids).unwrap();
    assert_eq!(quiet, Dispatch { rendered: None, forwarded: vec![] });
}

#[test]
fn nested_state_survives_new_props() {
    let mut ids = IdSource::new();
    let mut ui = mounted_tree(vec![5], &mut ids);
    ui.on_message(&Message::click(0), &mut ids).unwrap();
    ui.on_message(&Message::click(0), &mut ids).unwrap();
    assert_eq!(leaf_of(&mut ui, 5).state.count, 2);
    let effects = ui
        .update_props(
            Props::Root { caption: "stop".to_string(), leaf_type: LEAF, rows: vec![5] },
            &mut ids,
        )
        .unwrap();
    assert_eq!(
        effects,
        vec![
            Effect::Child {
                key: 5,
                effects: vec![
                    Effect::SetText { key: 0 },
                    Effect::Layout { order: vec![0, 1, 2, 3] },
                ],
            },
            Effect::Layout { order: vec![100, 5] },
        ]
    );
    let leaf = leaf_of(&mut ui, 5);
    assert_eq!(leaf.state.count, 2);
    assert_eq!(leaf.props, Props::Leaf { caption: "stop".to_string() });
    assert_eq!(label_text(leaf, 3), "2  0");
}

#[test]
fn equal_props_leave_the_nested_instance_alone() {
    let mut ids = IdSource::new();
    let mut ui = mounted_tree(vec![5], &mut ids);
    ui.on_message(&Message::click(0), &mut ids).unwrap();
    let effects = ui.render(&mut ids).unwrap();
    assert_eq!(effects, vec![Effect::Layout { order: vec![100, 5] }]);
    assert_eq!(leaf_of(&mut ui, 5).state.count, 1);
}

#[test]
fn another_component_type_replaces_the_instance() {
    let mut ids = IdSource::new();
    let mut ui = mounted_tree(vec![5], &mut ids);
    ui.on_message(&Message::click(0), &mut ids).unwrap();
    let effects = ui
        .update_props(
            Props::Root { caption: "go".to_string(), leaf_type: OTHER, rows: vec![5] },
            &mut ids,
        )
        .unwrap();
    assert_eq!(
        effects,
        vec![
            Effect::Remount {
                key: 5,
                effects: vec![
                    Effect::Create { key: 0, primitive: Primitive::Button { action: Some(3) } },
                    Effect::Create { key: 1, primitive: Primitive::TextField { id: 4 } },
                    Effect::Create { key: 2, primitive: Primitive::Select { action: Some(5) } },
                    Effect::Create { key: 3, primitive: Primitive::Label },
                    Effect::Layout { order: vec![0, 1, 2, 3] },
                ],
            },
            Effect::Layout { order: vec![100, 5] },
        ]
    );
    let leaf = leaf_of(&mut ui, 5);
    assert_eq!(leaf.state.count, 0);
    assert_eq!(label_text(leaf, 3), "0  0");
    assert_eq!(leaf.click_handlers.get(&3), Some(&INCREMENT));
    assert!(leaf.click_handlers.get(&0).is_none());
}

#[test]
fn repeated_key_is_refused() {
    let mut ids = IdSource::new();
    let mut ui = root(vec![5, 6, 5]);
    assert_eq!(ui.mount(&mut ids), Err(Fault::Duplicate { key: 5 }));
    assert!(ui.vdom.is_empty());
    assert_eq!(ids.next, 0);
}

#[test]
fn fault_of_a_nested_instance_names_its_key() {
    struct Twice;
    impl Component for Twice {
        type Props = u32;
        type State = ();
        type Message = ();
        fn render(props: &u32, _state: &()) -> Vec<(usize, VNode<Self>)> {
            match *props {
                0 => vec![(4, VNode::Custom(VComponent::new(LEAF, 1)))],
                1 => vec![],
                2 => vec![(4, VNode::Custom(VComponent::new(LEAF, 3)))],
                _ => vec![
                    (0, VNode::Label(VLabel { text: String::new() })),
                    (0, VNode::Label(VLabel { text: String::new() })),
                ],
            }
        }
    }
    let mut ids = IdSource::new();
    let mut outer = ComponentWrapper::<Twice>::new(0);
    outer.mount(&mut ids).unwrap();
    let done = outer.update_props(2, &mut ids);
    assert_eq!(
        done,
        Err(Fault::Child { key: 4, fault: Box::new(Fault::Duplicate { key: 0 }) })
    );
    let message = Message::click(0);
    assert_eq!(
        outer.on_message(&message, &mut ids),
        Ok(Dispatch {
            rendered: None,
            forwarded: vec![(4, Dispatch { rendered: None, forwarded: vec![] })],
        })
    );
}

#[test]
fn change_without_its_node_is_a_fault() {
    let mut ids = IdSource::new();
    let mut counter = ComponentWrapper::<Counter>::new(());
    counter.mount(&mut ids).unwrap();
    assert_eq!(
        counter.apply(9, VDomDiff::UpdateLabelText("x".to_string()), &mut ids),
        Err(Fault::Missing { key: 9 })
    );
    assert_eq!(
        counter.apply(0, VDomDiff::UpdateLabelText("x".to_string()), &mut ids),
        Err(Fault::Mismatch { key: 0 })
    );
    assert_eq!(
        counter.apply(1, VDomDiff::UpdatePureText("x"), &mut ids),
        Err(Fault::Mismatch { key: 1 })
    );
    assert_eq!(
        counter.apply(1, VDomDiff::UpdateButtonText("x".to_string()), &mut ids),
        Err(Fault::Mismatch { key: 1 })
    );
    assert_eq!(
        counter.apply(1, VDomDiff::UpdateButtonClick(None), &mut ids),
        Err(Fault::Mismatch { key: 1 })
    );
    assert_eq!(
        counter.apply(1, VDomDiff::UpdateInputChange(None), &mut ids),
        Err(Fault::Mismatch { key: 1 })
    );
    assert_eq!(
        counter.apply(9, VDomDiff::ReplaceWith(VNode::Text("x")), &mut ids),
        Err(Fault::Missing { key: 9 })
    );
    assert_eq!(
        counter.apply(1, VDomDiff::UpdatePropsFrom(VComponent::new(LEAF, ())), &mut ids),
        Err(Fault::Mismatch { key: 1 })
    );
    assert_eq!(keys(&counter), vec![0, 1]);
    assert_eq!(label_text(&counter, 1), "0");
    assert_eq!(ids.next, 1);
}

#[test]
fn new_props_for_another_type_are_a_fault() {
    let mut ids = IdSource::new();
    let mut ui = mounted_tree(vec![5], &mut ids);
    let other = VComponent::new(OTHER, Props::Leaf { caption: String::new() });
    assert_eq!(
        ui.apply(5, VDomDiff::UpdatePropsFrom(other), &mut ids),
        Err(Fault::Mismatch { key: 5 })
    );
}

#[test]
fn apply_binds_handlers_under_fresh_identifiers() {
    let mut ids = IdSource::new();
    let mut counter = ComponentWrapper::<Counter>::new(());
    counter.mount(&mut ids).unwrap();
    assert_eq!(
        counter.apply(0, VDomDiff::UpdateButtonClick(Some(42)), &mut ids),
        Ok(Effect::SetAction { key: 0, action: Some(1) })
    );
    assert_eq!(counter.click_handlers.get(&1), Some(&42));
    assert_eq!(counter.click_handlers.get(&0), Some(&INCREMENT));
    assert_eq!(counter.node(0).unwrap().as_button().unwrap().click, Some(42));
    assert_eq!(
        counter.apply(0, VDomDiff::UpdateButtonClick(None), &mut ids),
        Ok(Effect::SetAction { key: 0, action: None })
    );
    assert_eq!(ids.next, 2);
    assert_eq!(
        counter.apply(
            3,
            VDomDiff::InsertNode(VNode::TextInput(VTextInput {
                change: None,
                initial_value: "v".to_string(),
            })),
            &mut ids,
        ),
        Ok(Effect::Create { key: 3, primitive: Primitive::TextField { id: 2 } })
    );
    assert!(counter.change_handlers.is_empty());
    assert_eq!(
        counter.apply(3, VDomDiff::UpdateInputChange(Some(RENAME)), &mut ids),
        Ok(Effect::SetInputId { key: 3, id: 3 })
    );
    assert_eq!(counter.change_handlers.get(&3), Some(&RENAME));
    assert_eq!(
        counter.apply(3, VDomDiff::UpdateInputChange(None), &mut ids),
        Ok(Effect::SetInputId { key: 3, id: 4 })
    );
    assert_eq!(counter.node(3).unwrap().as_text_input().unwrap().change, None);
    assert_eq!(keys(&counter), vec![0, 1, 3]);
    assert_eq!(
        counter.apply(1, VDomDiff::InsertNode(VNode::Text("over")), &mut ids),
        Ok(Effect::Create { key: 1, primitive: Primitive::Label })
    );
    assert_eq!(keys(&counter), vec![0, 1, 3]);
    assert_eq!(counter.node(1).unwrap().as_text(), Some(&"over"));
    assert_eq!(
        counter.apply(1, VDomDiff::UpdatePureText("more"), &mut ids),
        Ok(Effect::SetText { key: 1 })
    );
    assert_eq!(counter.node(1).unwrap().as_text(), Some(&"more"));
}

#[test]
fn identifiers_count_up_and_wrap() {
    let mut ids = IdSource::new();
    assert_eq!(gen_id(&mut ids), 0);
    assert_eq!(gen_id(&mut ids), 1);
    assert_eq!(ids.next, 2);
    let mut last = IdSource { next: usize::MAX };
    assert_eq!(gen_id(&mut last), usize::MAX);
    assert_eq!(last.next, 0);
}

#[test]
fn custom_payloads_are_never_equal() {
    let mut ids = IdSource::new();
    let a = Message::custom(&mut ids, 5u32);
    let b = Message::custom(&mut ids, 5u32);
    assert_eq!(a.id, 0);
    assert_eq!(b.id, 1);
    assert!(a != b);
    assert!(a.payload != b.payload);
    let c: Message<u32> = Message { id: 0, payload: Payload::Custom(5) };
    assert!(a != c);
    assert!(!(a == a));
}

#[test]
fn payload_equality() {
    let click: Message<()> = Message::click(3);
    assert_eq!(click.id, 3);
    assert!(click == Message::click(3));
    assert!(click != Message::click(4));
    let change: Message<()> = Message::change(3, "a".to_string());
    assert!(change == Message::change(3, "a".to_string()));
    assert!(change != Message::change(3, "b".to_string()));
    assert!(change != click);
    let select: Message<()> = Message::select(3, 1);
    assert!(matches!(select.payload, Payload::Select(1)));
    assert!(select == Message::select(3, 1));
    assert!(select != Message::select(3, 2));
    assert!(select != Message::select(4, 1));
    assert!(select != click);
}

#[test]
fn list_node_is_created_as_a_list() {
    let mut ids = IdSource::new();
    let mut counter = ComponentWrapper::<Counter>::new(());
    let effects = counter
        .reconcile(vec![(0, VNode::List(VList { count: 3, render: 1 }))], &mut ids)
        .unwrap();
    assert_eq!(
        effects,
        vec![
            Effect::Create { key: 0, primitive: Primitive::List },
            Effect::Layout { order: vec![0] },
        ]
    );
    let same = counter
        .reconcile(vec![(0, VNode::List(VList { count: 3, render: 1 }))], &mut ids)
        .unwrap();
    assert_eq!(same, vec![Effect::Layout { order: vec![0] }]);
    let longer = counter
        .reconcile(vec![(0, VNode::List(VList { count: 4, render: 1 }))], &mut ids)
        .unwrap();
    assert_eq!(
        longer,
        vec![
            Effect::Replace { key: 0, primitive: Primitive::List },
            Effect::Layout { order: vec![0] },
        ]
    );
}
