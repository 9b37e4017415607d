use crate::component::{Component, ComponentWrapper};
use crate::text::text_eq;
use vstd::prelude::*;
use vstd::std_specs::cmp::PartialEqSpec;

verus! {

/// A text label.
#[derive(Clone, Debug, PartialEq, Eq)]
pub struct VLabel {
    pub text: String,
}

/// A button with its caption and, where it has one, the token of its click handler.
#[derive(Clone, Debug, PartialEq, Eq)]
pub struct VButton {
    pub click: Option<usize>,
    pub text: String,
}

/// A text field with its initial value and, where it has one, the token of
/// its change handler.
#[derive(Clone, Debug, PartialEq, Eq)]
pub struct VTextInput {
    pub change: Option<usize>,
    pub initial_value: String,
}

/// A list of `count` rows. `render` names the function that renders a row.
#[derive(Clone, Copy, Debug, PartialEq, Eq)]
pub struct VList {
    pub count: usize,
    pub render: usize,
}

/// A selector with its options and, where it has one, the token of its select handler.
#[derive(Clone, Debug, PartialEq, Eq)]
pub struct VSelect {
    pub options: Vec<String>,
    pub select: Option<usize>,
}

/// An embedded component: the discriminant of its concrete component type
/// and the nested instance.
pub struct VComponent<T: Component> {
    pub type_id: usize,
    pub renderable: Box<ComponentWrapper<T>>,
}

/// One renderable unit of a component's output.
pub enum VNode<T: Component> {
    Label(VLabel),
    Button(VButton),
    TextInput(VTextInput),
    List(VList),
    Select(VSelect),
    Text(&'static str),
    Custom(VComponent<T>),
}

/// What a node is, with every text as a sequence of characters. An embedded
/// component stands for itself.
pub enum NodeView<T: Component> {
    Label { text: Seq<char> },
    Button { click: Option<usize>, text: Seq<char> },
    TextInput { change: Option<usize>, initial_value: Seq<char> },
    List { count: usize, render: usize },
    Select { options: Seq<Seq<char>>, select: Option<usize> },
    Text { text: Seq<char> },
    Custom { component: VComponent<T> },
}

/// The options of a selector as sequences of characters.
pub open spec fn options_view(options: Seq<String>) -> Seq<Seq<char>> {
    options.map_values(|s: String| s@)
}

impl<T: Component> View for VNode<T> {
    type V = NodeView<T>;

    open spec fn view(&self) -> NodeView<T> {
        match *self {
            VNode::Label(l) => NodeView::Label { text: l.text@ },
            VNode::Button(b) => NodeView::Button { click: b.click, text: b.text@ },
            VNode::TextInput(i) => NodeView::TextInput {
                change: i.change,
                initial_value: i.initial_value@,
            },
            VNode::List(l) => NodeView::List { count: l.count, render: l.render },
            VNode::Select(s) => NodeView::Select {
                options: options_view(s.options@),
                select: s.select,
            },
            VNode::Text(t) => NodeView::Text { text: t@ },
            VNode::Custom(c) => NodeView::Custom { component: c },
        }
    }
}

/// Whether two embedded components count as equal: they are of one
/// concrete component type, and their props are equal as the props' own
/// `==` has it.
pub open spec fn component_eq<T: Component>(a: VComponent<T>, b: VComponent<T>) -> bool {
    a.type_id == b.type_id && a.renderable.props.eq_spec(&b.renderable.props)
}

impl<T: Component> VComponent<T> {
    /// An embedded component of the concrete type `type_id` with a fresh
    /// instance for `props`.
    pub fn new(type_id: usize, props: T::Props) -> (component: Self)
        ensures
            component.type_id == type_id,
            component.renderable.wf(),
            component.renderable.room == usize::MAX,
            component.renderable.props == props,
            call_ensures(T::State::default, (), component.renderable.state),
            component.renderable.vdom@ == Seq::<(usize, VNode<T>)>::empty(),
            component.renderable.click_handlers@ == Map::<usize, usize>::empty(),
            component.renderable.change_handlers@ == Map::<usize, usize>::empty(),
            component.renderable.select_handlers@ == Map::<usize, usize>::empty(),
    {
        VComponent { type_id, renderable: Box::new(ComponentWrapper::new(props)) }
    }

    /// Whether this embedded component and `other` are of one concrete
    /// component type.
    pub fn same_component_as(&self, other: &Self) -> (same: bool)
        ensures
            same == (self.type_id == other.type_id),
    {
        self.type_id == other.type_id
    }
}

impl<T: Component> PartialEq for VComponent<T> {
    fn eq(&self, other: &Self) -> (same: bool) {
        self.type_id == other.type_id && self.renderable.equal_to(&other.renderable)
    }
}

impl<T: Component> vstd::std_specs::cmp::PartialEqSpecImpl for VComponent<T> {
    open spec fn obeys_eq_spec() -> bool {
        T::Props::obeys_eq_spec()
    }

    open spec fn eq_spec(&self, other: &Self) -> bool {
        component_eq(*self, *other)
    }
}

/// Whether two nodes count as equal: they are of one kind and say the
/// same, where two embedded components say the same when they count as
/// equal.
pub open spec fn node_eq<T: Component>(a: NodeView<T>, b: NodeView<T>) -> bool {
    match (a, b) {
        (NodeView::Custom { component: first }, NodeView::Custom { component: second }) => component_eq(
            first,
            second,
        ),
        _ => a == b,
    }
}

/// Whether two lists of options hold the same texts in the same order.
pub fn options_eq(a: &Vec<String>, b: &Vec<String>) -> (same: bool)
    ensures
        same == (options_view(a@) == options_view(b@)),
{
    if a.len() != b.len() {
        assert(options_view(a@).len() != options_view(b@).len());
        return false;
    }
    let mut i: usize = 0;
    while i < a.len()
        invariant
            a.len() == b.len(),
            i <= a.len(),
            forall|j: int| 0 <= j < i ==> a@[j]@ == b@[j]@,
        decreases a.len() - i,
    {
        if a[i] != b[i] {
            assert(options_view(a@)[i as int] != options_view(b@)[i as int]);
            return false;
        }
        i += 1;
    }
    assert(options_view(a@) =~= options_view(b@));
    true
}

impl<T: Component> PartialEq for VNode<T> {
    fn eq(&self, other: &Self) -> (same: bool) {
        match (self, other) {
            (VNode::Label(a), VNode::Label(b)) => {
                let same = a.text == b.text;
                assert(same == (self@ == other@)) by {
                    if same {
                        assert(a.text@ =~= b.text@);
                    }
                }
                same
            },
            (VNode::Button(a), VNode::Button(b)) => {
                let same = a.click == b.click && a.text == b.text;
                assert(same == (self@ == other@)) by {
                    if same {
                        assert(a.text@ =~= b.text@);
                    }
                }
                same
            },
            (VNode::TextInput(a), VNode::TextInput(b)) => {
                let same = a.change == b.change && a.initial_value == b.initial_value;
                assert(same == (self@ == other@)) by {
                    if same {
                        assert(a.initial_value@ =~= b.initial_value@);
                    }
                }
                same
            },
            (VNode::List(a), VNode::List(b)) => a.count == b.count && a.render == b.render,
            (VNode::Select(a), VNode::Select(b)) => {
                options_eq(&a.options, &b.options) && a.select == b.select
            },
            (VNode::Text(a), VNode::Text(b)) => {
                let same = text_eq(a, b);
                assert(same == (self@ == other@)) by {
                    if same {
                        assert(a@ =~= b@);
                    }
                }
                same
            },
            (VNode::Custom(a), VNode::Custom(b)) => *a == *b,
            _ => false,
        }
    }
}

impl<T: Component> vstd::std_specs::cmp::PartialEqSpecImpl for VNode<T> {
    open spec fn obeys_eq_spec() -> bool {
        T::Props::obeys_eq_spec()
    }

    open spec fn eq_spec(&self, other: &Self) -> bool {
        node_eq(self@, other@)
    }
}

impl<T: Component> VNode<T> {
    /// The button, if this node is one.
    pub fn as_button(&self) -> (found: Option<&VButton>)
        ensures
            found == (match *self {
                VNode::Button(button) => Some(&button),
                _ => None,
            }),
    {
        match self {
            VNode::Button(button) => Some(button),
            _ => None,
        }
    }

    /// The button, if this node is one, to change it in place.
    pub fn as_button_mut(&mut self) -> (found: Option<&mut VButton>)
        ensures
            (match found {
                Some(button) => *old(self) == VNode::<T>::Button(*button) && *final(self)
                    == VNode::<T>::Button(*final(button)),
                None => !(*old(self) is Button) && *final(self) == *old(self),
            }),
    {
        match self {
            VNode::Button(button) => Some(button),
            _ => None,
        }
    }

    /// The label, if this node is one.
    pub fn as_label(&self) -> (found: Option<&VLabel>)
        ensures
            found == (match *self {
                VNode::Label(label) => Some(&label),
                _ => None,
            }),
    {
        match self {
            VNode::Label(label) => Some(label),
            _ => None,
        }
    }

    /// The label, if this node is one, to change it in place.
    pub fn as_label_mut(&mut self) -> (found: Option<&mut VLabel>)
        ensures
            (match found {
                Some(label) => *old(self) == VNode::<T>::Label(*label) && *final(self)
                    == VNode::<T>::Label(*final(label)),
                None => !(*old(self) is Label) && *final(self) == *old(self),
            }),
    {
        match self {
            VNode::Label(label) => Some(label),
            _ => None,
        }
    }

    /// The embedded component, if this node is one.
    pub fn as_custom(&self) -> (found: Option<&VComponent<T>>)
        ensures
            found == (match *self {
                VNode::Custom(component) => Some(&component),
                _ => None,
            }),
    {
        match self {
            VNode::Custom(component) => Some(component),
            _ => None,
        }
    }

    /// The text field, if this node is one.
    pub fn as_text_input(&self) -> (found: Option<&VTextInput>)
        ensures
            found == (match *self {
                VNode::TextInput(input) => Some(&input),
                _ => None,
            }),
    {
        match self {
            VNode::TextInput(input) => Some(input),
            _ => None,
        }
    }

    /// The text field, if this node is one, to change it in place.
    pub fn as_text_input_mut(&mut self) -> (found: Option<&mut VTextInput>)
        ensures
            (match found {
                Some(input) => *old(self) == VNode::<T>::TextInput(*input) && *final(self)
                    == VNode::<T>::TextInput(*final(input)),
                None => !(*old(self) is TextInput) && *final(self) == *old(self),
            }),
    {
        match self {
            VNode::TextInput(input) => Some(input),
            _ => None,
        }
    }

    /// The static text, if this node is one.
    pub fn as_text(&self) -> (found: Option<&&'static str>)
        ensures
            found == (match *self {
                VNode::Text(text) => Some(&text),
                _ => None,
            }),
    {
        match self {
            VNode::Text(text) => Some(text),
            _ => None,
        }
    }

    /// The static text, if this node is one, to change it in place.
    pub fn as_text_mut(&mut self) -> (found: Option<&mut &'static str>)
        ensures
            (match found {
                Some(text) => *old(self) == VNode::<T>::Text(*text) && *final(self)
                    == VNode::<T>::Text(*final(text)),
                None => !(*old(self) is Text) && *final(self) == *old(self),
            }),
    {
        match self {
            VNode::Text(text) => Some(text),
            _ => None,
        }
    }

    /// The selector, if this node is one.
    pub fn as_select(&self) -> (found: Option<&VSelect>)
        ensures
            found == (match *self {
                VNode::Select(select) => Some(&select),
                _ => None,
            }),
    {
        match self {
            VNode::Select(select) => Some(select),
            _ => None,
        }
    }

    /// The selector, if this node is one, to change it in place.
    pub fn as_select_mut(&mut self) -> (found: Option<&mut VSelect>)
        ensures
            (match found {
                Some(select) => *old(self) == VNode::<T>::Select(*select) && *final(self)
                    == VNode::<T>::Select(*final(select)),
                None => !(*old(self) is Select) && *final(self) == *old(self),
            }),
    {
        match self {
            VNode::Select(select) => Some(select),
            _ => None,
        }
    }
}

} // verus!
