use crate::cache::{contains_key, distinct_keys, find, index_of};
use crate::node::VNode;
use std::collections::HashMap;
use vstd::prelude::*;
use vstd::std_specs::cmp::PartialEqSpec;

verus! {

/// A component type. `render` describes the output for given props and state
/// as a collection of keyed nodes. Handlers are named by tokens: a node
/// carries the token, and the engine hands it back to `click`, `change` or
/// `select` when a message for it arrives. Two handlers are the same handler
/// exactly when their tokens are equal.
pub trait Component: Sized {
    type Props: Clone + PartialEq;

    type State: Clone + PartialEq + Default;

    type Message: Clone + PartialEq;

    /// The nodes for these props and this state, each with its key.
    fn render(props: &Self::Props, state: &Self::State) -> Vec<(usize, VNode<Self>)>;

    /// The reducer for application-defined messages. Returns whether the
    /// instance has to render again. Unless a component provides its own,
    /// the reducer takes no message: it leaves the state as it is and asks
    /// for no render.
    fn on_message(_msg: &Self::Message, _props: &Self::Props, _state: &mut Self::State) -> (again:
        bool)
        default_ensures
            !again,
            *final(_state) == *old(_state),
    {
        false
    }

    /// Runs the click handler named by `handler`.
    fn click(_handler: usize, _props: &Self::Props, _state: &mut Self::State) {
    }

    /// Runs the change handler named by `handler` on the new text. Returns
    /// whether the instance has to render again. Unless a component
    /// provides its own, no token names a change handler: the state stays
    /// as it is, and no render is asked for.
    fn change(_handler: usize, _value: &str, _props: &Self::Props, _state: &mut Self::State) -> (again:
        bool)
        default_ensures
            !again,
            *final(_state) == *old(_state),
    {
        false
    }

    /// Runs the select handler named by `handler` on the selected index.
    /// Returns whether the instance has to render again. Unless a component
    /// provides its own, no token names a select handler: the state stays
    /// as it is, and no render is asked for.
    fn select(_handler: usize, _index: usize, _props: &Self::Props, _state: &mut Self::State) -> (again:
        bool)
        default_ensures
            !again,
            *final(_state) == *old(_state),
    {
        false
    }

    /// The state that the click handler named by `handler` makes of
    /// `state`. Unless a component provides its own, it is what `click`
    /// leaves of `state`.
    fn clicked(handler: usize, props: &Self::Props, state: Self::State) -> (after: Self::State)
        default_ensures
            exists|cell: &mut Self::State|
                (*cell == state && *final(cell) == after && #[trigger] call_ensures(
                    Self::click,
                    (handler, props, cell),
                    (),
                )),
    {
        let mut state = state;
        Self::click(handler, props, &mut state);
        state
    }

    /// The state that the change handler named by `handler` makes of
    /// `state` for the new text `value`, and whether it asks for a render.
    /// Unless a component provides its own, they are what `change` leaves
    /// of `state` and what it returns.
    fn changed(handler: usize, value: &str, props: &Self::Props, state: Self::State) -> (after: (
        Self::State,
        bool,
    ))
        default_ensures
            exists|cell: &mut Self::State, again: bool|
                (*cell == state && *final(cell) == after.0 && again == after.1
                    && #[trigger] call_ensures(Self::change, (handler, value, props, cell), again)),
    {
        let ghost before = state;
        let mut state = state;
        let again = Self::change(handler, value, props, &mut state);
        assert(exists|cell: &mut Self::State|
            (*cell == before && *final(cell) == state && #[trigger] call_ensures(
                Self::change,
                (handler, value, props, cell),
                again,
            )));
        (state, again)
    }

    /// The state that the select handler named by `handler` makes of
    /// `state` for the selected index `index`, and whether it asks for a
    /// render. Unless a component provides its own, they are what `select`
    /// leaves of `state` and what it returns.
    fn selected(handler: usize, index: usize, props: &Self::Props, state: Self::State) -> (after: (
        Self::State,
        bool,
    ))
        default_ensures
            exists|cell: &mut Self::State, again: bool|
                (*cell == state && *final(cell) == after.0 && again == after.1
                    && #[trigger] call_ensures(Self::select, (handler, index, props, cell), again)),
    {
        let ghost before = state;
        let mut state = state;
        let again = Self::select(handler, index, props, &mut state);
        assert(exists|cell: &mut Self::State|
            (*cell == before && *final(cell) == state && #[trigger] call_ensures(
                Self::select,
                (handler, index, props, cell),
                again,
            )));
        (state, again)
    }

    /// The state that the reducer makes of `state` for the message `msg`,
    /// and whether it asks for a render. Unless a component provides its
    /// own, they are what `on_message` leaves of `state` and what it
    /// returns.
    fn reduced(msg: &Self::Message, props: &Self::Props, state: Self::State) -> (after: (
        Self::State,
        bool,
    ))
        default_ensures
            exists|cell: &mut Self::State, again: bool|
                (*cell == state && *final(cell) == after.0 && again == after.1
                    && #[trigger] call_ensures(Self::on_message, (msg, props, cell), again)),
    {
        let ghost before = state;
        let mut state = state;
        let again = Self::on_message(msg, props, &mut state);
        assert(exists|cell: &mut Self::State|
            (*cell == before && *final(cell) == state && #[trigger] call_ensures(
                Self::on_message,
                (msg, props, cell),
                again,
            )));
        (state, again)
    }

    /// The nodes of row `index` of the list whose render function is named
    /// by `list`. Unless a component provides its own, no token names a
    /// render function, and every row is empty.
    fn render_row(_list: usize, _index: usize, _props: &Self::Props, _state: &Self::State) -> (nodes:
        Vec<VNode<Self>>)
        default_ensures
            nodes@ == Seq::<VNode<Self>>::empty(),
    {
        Vec::new()
    }
}

/// A live instance of a component: its props and state, the three handler
/// registries (identifier to handler token), the cache of the nodes it
/// rendered last, each under its key, and the room that is left for
/// nesting below it. A new instance has room for as many levels as the
/// machine can count.
pub struct ComponentWrapper<T: Component> {
    pub props: T::Props,
    pub state: T::State,
    pub click_handlers: HashMap<usize, usize>,
    pub change_handlers: HashMap<usize, usize>,
    pub select_handlers: HashMap<usize, usize>,
    pub vdom: Vec<(usize, VNode<T>)>,
    /// How many levels of nested instances can still be mounted below this
    /// one. An instance that mounts a nested instance gives it one level
    /// less than it has itself.
    pub room: usize,
}

/// What an instance is: its props and state, its three registries as maps
/// from identifier to handler token, and its cache as a sequence of keyed
/// nodes.
pub struct InstanceView<T: Component> {
    pub props: T::Props,
    pub state: T::State,
    pub click_handlers: Map<usize, usize>,
    pub change_handlers: Map<usize, usize>,
    pub select_handlers: Map<usize, usize>,
    pub cache: Seq<(usize, VNode<T>)>,
    pub room: usize,
}

impl<T: Component> View for ComponentWrapper<T> {
    type V = InstanceView<T>;

    open spec fn view(&self) -> InstanceView<T> {
        InstanceView {
            props: self.props,
            state: self.state,
            click_handlers: self.click_handlers@,
            change_handlers: self.change_handlers@,
            select_handlers: self.select_handlers@,
            cache: self.vdom@,
            room: self.room,
        }
    }
}

/// The number of instances nested one in another below a node, itself included.
pub open spec fn node_height<T: Component>(node: VNode<T>) -> nat
    decreases node,
{
    match node {
        VNode::Custom(component) => component.renderable.height(),
        _ => 0,
    }
}

/// The largest height among the nodes of a cache.
pub open spec fn cache_height<T: Component>(entries: Seq<(usize, VNode<T>)>) -> nat
    decreases entries, entries.len(),
{
    if entries.len() == 0 {
        0
    } else {
        let rest = cache_height(entries.drop_last());
        let last = node_height(entries.last().1);
        if rest >= last {
            rest
        } else {
            last
        }
    }
}

impl<T: Component> ComponentWrapper<T> {
    /// The number of instances nested one in another, from this one down.
    pub open spec fn height(&self) -> nat
        decreases self,
    {
        cache_height(self.vdom@) + 1
    }

    /// An instance is valid when no key occurs twice in its cache. Every
    /// constructor gives a valid instance, and every operation leaves a
    /// valid instance valid.
    pub open spec fn wf(&self) -> bool {
        distinct_keys(self.vdom@)
    }

    /// An instance with the given props and state that has rendered
    /// nothing and registered no handler.
    pub fn with_state(props: T::Props, state: T::State) -> (instance: Self)
        ensures
            instance.wf(),
            instance.room == usize::MAX,
            instance.props == props,
            instance.state == state,
            instance.vdom@ == Seq::<(usize, VNode<T>)>::empty(),
            instance.click_handlers@ == Map::<usize, usize>::empty(),
            instance.change_handlers@ == Map::<usize, usize>::empty(),
            instance.select_handlers@ == Map::<usize, usize>::empty(),
    {
        ComponentWrapper {
            props,
            state,
            click_handlers: HashMap::new(),
            change_handlers: HashMap::new(),
            select_handlers: HashMap::new(),
            vdom: Vec::new(),
            room: usize::MAX,
        }
    }

    /// An instance with the given props and the state type's default state
    /// that has rendered nothing and registered no handler.
    pub fn new(props: T::Props) -> (instance: Self)
        ensures
            instance.wf(),
            instance.room == usize::MAX,
            instance.props == props,
            call_ensures(T::State::default, (), instance.state),
            instance.vdom@ == Seq::<(usize, VNode<T>)>::empty(),
            instance.click_handlers@ == Map::<usize, usize>::empty(),
            instance.change_handlers@ == Map::<usize, usize>::empty(),
            instance.select_handlers@ == Map::<usize, usize>::empty(),
    {
        Self::with_state(props, T::State::default())
    }

    /// Whether the props of this instance equal those of `other`, as the
    /// props' own `==` has it.
    pub fn equal_to(&self, other: &Self) -> (same: bool)
        ensures
            call_ensures(T::Props::eq, (&self.props, &other.props), same),
            T::Props::obeys_eq_spec() ==> same == self.props.eq_spec(&other.props),
    {
        self.props == other.props
    }

    /// The node that the cache holds under `key`, if it holds one.
    pub fn node(&self, key: usize) -> (found: Option<&VNode<T>>)
        ensures
            found is Some <==> contains_key(self.vdom@, key),
            found matches Some(node) ==> *node == self.vdom@[index_of(self.vdom@, key)].1,
    {
        match find(&self.vdom, key) {
            Some(at) => Some(&self.vdom[at].1),
            None => None,
        }
    }
}

} // verus!
