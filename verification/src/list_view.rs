use crate::cache::reversed;
use crate::component::{Component, ComponentWrapper};
use crate::effect::{Effect, Fault, Primitive};
use crate::ids::IdSource;
use crate::node::VNode;
use crate::render::{created, drawn};
use vstd::prelude::*;

verus! {

/// A list whose rows are rendered one by one, when the backend asks for
/// them: `count` rows, rendered by the function that `render` names.
#[derive(Clone, Copy, Debug, PartialEq, Eq)]
pub struct MyListView {
    pub count: usize,
    pub render: usize,
}

/// The content of one row of a list: its nodes as they are mounted, the
/// primitive that was made for each of them, and for each the effects on
/// the primitives of the instance that it embeds (none, where it embeds no
/// component).
pub struct Row<T: Component> {
    pub nodes: Vec<VNode<T>>,
    pub sub_views: Vec<Primitive>,
    pub nested: Vec<Vec<Effect>>,
}

/// A row as contracts see it.
pub struct RowView<T: Component> {
    pub nodes: Seq<VNode<T>>,
    pub sub_views: Seq<Primitive>,
    pub nested: Seq<Vec<Effect>>,
}

impl<T: Component> View for Row<T> {
    type V = RowView<T>;

    open spec fn view(&self) -> RowView<T> {
        RowView { nodes: self.nodes@, sub_views: self.sub_views@, nested: self.nested@ }
    }
}

/// What holds when the first `upto` of the nodes `given` were mounted one
/// after the other, each under its position, in an instance with all the
/// room there is: `nexts[j]` was the next identifier when the turn of the
/// node at `j` came; of the row, `nodes[j]` is that node as it is mounted,
/// `sub_views[j]` its primitive and `nested[j]` the effects on the
/// primitives of the instance that it embeds.
pub open spec fn mounted_upto<T: Component>(
    given: Seq<VNode<T>>,
    upto: int,
    nexts: Seq<usize>,
    row: RowView<T>,
) -> bool {
    &&& 0 <= upto <= given.len()
    &&& nexts.len() == upto + 1
    &&& row.nodes.len() == upto
    &&& row.sub_views.len() == upto
    &&& row.nested.len() == upto
    &&& forall|j: int|
        0 <= j < upto ==> created(
            usize::MAX,
            j as usize,
            given[j],
            #[trigger] nexts[j],
            Ok::<(Primitive, Vec<Effect>), Fault>((row.sub_views[j], row.nested[j])),
            row.nodes[j],
            nexts[j + 1],
        )
}

/// Names the place of the node at which the filling of a row met a fault,
/// the identifiers before each node up to there, the row of the nodes
/// before it, and the node as the fault left it. It holds of all of them:
/// statements about some filling that met a fault are found by it.
pub open spec fn halted<T: Component>(
    at: int,
    nexts: Seq<usize>,
    row: RowView<T>,
    last: VNode<T>,
) -> bool {
    true
}

/// What holds when a row was filled with the nodes `given`, from the next
/// identifier `next`.
///
/// Where it succeeds, the row holds every node as it is mounted, in the
/// given order, with its primitive and the effects of the instance that it
/// embeds. A fault is that of the first embedded instance whose render
/// fails, under the position of its node; the nodes before it were
/// mounted.
pub open spec fn filled<T: Component>(
    given: Seq<VNode<T>>,
    next: usize,
    done: Result<RowView<T>, Fault>,
    next_after: usize,
) -> bool {
    match done {
        Ok(row) => exists|nexts: Seq<usize>|
            {
                &&& #[trigger] drawn(nexts)
                &&& mounted_upto(given, given.len() as int, nexts, row)
                &&& nexts[0] == next
                &&& nexts[given.len() as int] == next_after
            },
        Err(fault) => exists|at: int, nexts: Seq<usize>, row: RowView<T>, last: VNode<T>|
            {
                &&& #[trigger] halted(at, nexts, row, last)
                &&& mounted_upto(given, at, nexts, row)
                &&& at < given.len()
                &&& nexts[0] == next
                &&& created(
                    usize::MAX,
                    at as usize,
                    given[at],
                    nexts[at],
                    Err::<(Primitive, Vec<Effect>), Fault>(fault),
                    last,
                    next_after,
                )
            },
    }
}

/// What holds when a row was filled with the content of the row at `index`
/// of the list whose render function `render` names: it was filled with
/// nodes that the function returns for the props and the state.
pub open spec fn configured<T: Component>(
    render: usize,
    index: usize,
    props: T::Props,
    state: T::State,
    next: usize,
    done: Result<RowView<T>, Fault>,
    next_after: usize,
) -> bool {
    exists|given: Vec<VNode<T>>|
        {
            &&& #[trigger] call_ensures(T::render_row, (render, index, &props, &state), given)
            &&& filled(given@, next, done, next_after)
        }
}

/// The outcome of filling a row, with the row as it then is.
pub open spec fn outcome<T: Component>(done: Result<(), Fault>, row: RowView<T>) -> Result<
    RowView<T>,
    Fault,
> {
    match done {
        Ok(_) => Ok(row),
        Err(fault) => Err(fault),
    }
}

impl MyListView {
    /// A list of `count` rows, rendered by the function that `render` names.
    pub fn new(count: usize, render: usize) -> (list: Self)
        ensures
            list.count == count,
            list.render == render,
    {
        MyListView { count, render }
    }

    /// The number of rows.
    pub fn number_of_items(&self) -> (count: usize)
        ensures
            count == self.count,
    {
        self.count
    }

    /// The content of the row at `row`, rendered from the props and the
    /// state as they are now and mounted; or the fault of an instance that
    /// the row embeds.
    pub fn item_for<T: Component>(
        &self,
        row: usize,
        props: &T::Props,
        state: &T::State,
        ids: &mut IdSource,
    ) -> (item: Result<Row<T>, Fault>)
        ensures
            configured(
                self.render,
                row,
                *props,
                *state,
                old(ids).next,
                match item {
                    Ok(item) => Ok(item@),
                    Err(fault) => Err(fault),
                },
                final(ids).next,
            ),
    {
        let mut item = Row::new();
        match item.configure_with(self.render, row, props, state, ids) {
            Ok(_) => Ok(item),
            Err(fault) => Err(fault),
        }
    }
}

impl<T: Component> Row<T> {
    /// A row without content.
    pub fn new() -> (row: Self)
        ensures
            row.nodes@.len() == 0,
            row.sub_views@.len() == 0,
            row.nested@.len() == 0,
    {
        Row { nodes: Vec::new(), sub_views: Vec::new(), nested: Vec::new() }
    }

    /// Fills the row with the nodes that `nodes` holds: every node is
    /// mounted, each under its position, in an instance that lives for this
    /// call only, so that its handler is registered nowhere that lasts. The
    /// row then holds the nodes, the primitive of each, and the effects of
    /// the instances that they embed. Where the render of such an instance
    /// fails, the row stays as it was.
    pub fn fill(
        &mut self,
        nodes: Vec<VNode<T>>,
        props: T::Props,
        ids: &mut IdSource,
    ) -> (done: Result<(), Fault>)
        ensures
            filled(nodes@, old(ids).next, outcome(done, final(self)@), final(ids).next),
            done is Err ==> *final(self) == *old(self),
    {
        let ghost given = nodes@;
        let mut helper = ComponentWrapper::<T>::new(props);
        let mut rest = reversed(nodes);
        let mut kept: Vec<VNode<T>> = Vec::new();
        let mut sub_views: Vec<Primitive> = Vec::new();
        let mut nested: Vec<Vec<Effect>> = Vec::new();
        let ghost mut nexts: Seq<usize> = seq![ids.next];
        while rest.len() > 0
            invariant
                given == nodes@,
                helper.room == usize::MAX,
                rest@.len() + kept@.len() == given.len(),
                forall|j: int| 0 <= j < rest@.len() ==> rest@[j] == given[given.len() - 1 - j],
                mounted_upto(
                    given,
                    kept@.len() as int,
                    nexts,
                    RowView { nodes: kept@, sub_views: sub_views@, nested: nested@ },
                ),
                nexts[0] == old(ids).next,
                nexts[kept@.len() as int] == ids.next,
                *self == *old(self),
            decreases rest.len(),
        {
            let at: usize = kept.len();
            let mut node = rest.pop().unwrap();
            let ghost before = (nexts, kept@, sub_views@, nested@);
            assert(node == given[at as int]);
            match helper.create_component(at, &mut node, ids) {
                Ok(made) => {
                    kept.push(node);
                    sub_views.push(made.0);
                    nested.push(made.1);
                    proof {
                        nexts = nexts.push(ids.next);
                        assert forall|j: int| 0 <= j < kept@.len() implies created(
                            usize::MAX,
                            j as usize,
                            given[j],
                            #[trigger] nexts[j],
                            Ok::<(Primitive, Vec<Effect>), Fault>((sub_views@[j], nested@[j])),
                            kept@[j],
                            nexts[j + 1],
                        ) by {
                            if j < at {
                                assert(before.0[j] == nexts[j]);
                                assert(before.0[j + 1] == nexts[j + 1]);
                            }
                        }
                    }
                },
                Err(fault) => {
                    proof {
                        assert(halted(
                            at as int,
                            nexts,
                            RowView { nodes: kept@, sub_views: sub_views@, nested: nested@ },
                            node,
                        ));
                    }
                    return Err(fault);
                },
            }
        }
        self.nodes = kept;
        self.sub_views = sub_views;
        self.nested = nested;
        assert(self@ == RowView { nodes: kept@, sub_views: sub_views@, nested: nested@ });
        assert(drawn(nexts));
        Ok(())
    }

    /// Fills the row with the content of the row at `index` of the list
    /// whose render function `render` names: the nodes that the function
    /// returns for the props and the state, mounted. What the row held
    /// before is dropped, unless the render of an embedded instance fails.
    pub fn configure_with(
        &mut self,
        render: usize,
        index: usize,
        props: &T::Props,
        state: &T::State,
        ids: &mut IdSource,
    ) -> (done: Result<(), Fault>)
        ensures
            configured(
                render,
                index,
                *props,
                *state,
                old(ids).next,
                outcome(done, final(self)@),
                final(ids).next,
            ),
            done is Err ==> *final(self) == *old(self),
    {
        let nodes = T::render_row(render, index, props, state);
        self.fill(nodes, props.clone(), ids)
    }
}

} // verus!
