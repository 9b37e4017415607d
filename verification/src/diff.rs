use crate::cache::{contains_key, find, index_of, reversed};
use crate::component::{Component, ComponentWrapper};
use crate::node::{options_eq, NodeView, VComponent, VNode};
use crate::text::text_eq;
use vstd::prelude::*;
use vstd::std_specs::cmp::PartialEqSpec;

verus! {

/// One change that leads from a cached node to a new one.
pub enum VDomDiff<T: Component> {
    UpdatePureText(&'static str),
    UpdateLabelText(String),
    UpdateButtonText(String),
    UpdateButtonClick(Option<usize>),
    UpdateInputChange(Option<usize>),
    UpdateSelectHandler(Option<usize>),
    UpdatePropsFrom(VComponent<T>),
    InsertNode(VNode<T>),
    ReplaceWith(VNode<T>),
}

/// What a change is, with every text as a sequence of characters.
pub enum DiffView<T: Component> {
    UpdatePureText { text: Seq<char> },
    UpdateLabelText { text: Seq<char> },
    UpdateButtonText { text: Seq<char> },
    UpdateButtonClick { click: Option<usize> },
    UpdateInputChange { change: Option<usize> },
    UpdateSelectHandler { select: Option<usize> },
    UpdatePropsFrom { component: VComponent<T> },
    InsertNode { node: NodeView<T> },
    ReplaceWith { node: NodeView<T> },
}

impl<T: Component> View for VDomDiff<T> {
    type V = DiffView<T>;

    open spec fn view(&self) -> DiffView<T> {
        match *self {
            VDomDiff::UpdatePureText(t) => DiffView::UpdatePureText { text: t@ },
            VDomDiff::UpdateLabelText(t) => DiffView::UpdateLabelText { text: t@ },
            VDomDiff::UpdateButtonText(t) => DiffView::UpdateButtonText { text: t@ },
            VDomDiff::UpdateButtonClick(c) => DiffView::UpdateButtonClick { click: c },
            VDomDiff::UpdateInputChange(c) => DiffView::UpdateInputChange { change: c },
            VDomDiff::UpdateSelectHandler(s) => DiffView::UpdateSelectHandler { select: s },
            VDomDiff::UpdatePropsFrom(c) => DiffView::UpdatePropsFrom { component: c },
            VDomDiff::InsertNode(n) => DiffView::InsertNode { node: n@ },
            VDomDiff::ReplaceWith(n) => DiffView::ReplaceWith { node: n@ },
        }
    }
}

/// The views of a list of changes, in order.
pub open spec fn changes_view<T: Component>(ops: Seq<VDomDiff<T>>) -> Seq<DiffView<T>> {
    ops.map_values(|d: VDomDiff<T>| d@)
}

/// Whether two embedded components are of the same concrete component type.
pub open spec fn same_component<T: Component>(a: VComponent<T>, b: VComponent<T>) -> bool {
    a.type_id == b.type_id
}

/// Whether the props of two embedded components are equal, as the props' own `==` has it.
pub open spec fn same_props<T: Component>(a: VComponent<T>, b: VComponent<T>) -> bool {
    a.renderable.props.eq_spec(&b.renderable.props)
}

/// The changes that lead from the cached node `a` to the new node `b`, where
/// `equal_props` says whether two embedded components have equal props.
///
/// Nodes of one kind are compared field by field: a text that differs is
/// updated, a handler that differs is rebound, and an embedded component of
/// the same concrete type takes the new props and keeps its instance. A text
/// field whose initial value differs, a selector whose options differ, a
/// list that differs in anything, an embedded component of another
/// concrete type and a node of another kind are replaced. Equal nodes need
/// no change.
pub open spec fn node_diff_given<T: Component>(
    a: NodeView<T>,
    b: NodeView<T>,
    equal_props: bool,
) -> Seq<DiffView<T>> {
    match (a, b) {
        (NodeView::Label { text: old_text }, NodeView::Label { text }) => {
            if old_text != text {
                seq![DiffView::UpdateLabelText { text }]
            } else {
                Seq::empty()
            }
        },
        (NodeView::Text { text: old_text }, NodeView::Text { text }) => {
            if old_text != text {
                seq![DiffView::UpdatePureText { text }]
            } else {
                Seq::empty()
            }
        },
        (
            NodeView::Button { click: old_click, text: old_text },
            NodeView::Button { click, text },
        ) => {
            let texts = if old_text != text {
                seq![DiffView::<T>::UpdateButtonText { text }]
            } else {
                Seq::empty()
            };
            let clicks = if old_click != click {
                seq![DiffView::<T>::UpdateButtonClick { click }]
            } else {
                Seq::empty()
            };
            texts + clicks
        },
        (
            NodeView::TextInput { change: old_change, initial_value: old_value },
            NodeView::TextInput { change, initial_value },
        ) => {
            if old_value != initial_value {
                seq![DiffView::ReplaceWith { node: b }]
            } else if old_change != change {
                seq![DiffView::UpdateInputChange { change }]
            } else {
                Seq::empty()
            }
        },
        (
            NodeView::Select { options: old_options, select: old_select },
            NodeView::Select { options, select },
        ) => {
            if old_options != options {
                seq![DiffView::ReplaceWith { node: b }]
            } else if old_select != select {
                seq![DiffView::UpdateSelectHandler { select }]
            } else {
                Seq::empty()
            }
        },
        (
            NodeView::List { count: old_count, render: old_render },
            NodeView::List { count, render },
        ) => {
            if old_count != count || old_render != render {
                seq![DiffView::ReplaceWith { node: b }]
            } else {
                Seq::empty()
            }
        },
        (NodeView::Custom { component: old_component }, NodeView::Custom { component }) => {
            if same_component(old_component, component) && equal_props {
                Seq::empty()
            } else if same_component(old_component, component) {
                seq![DiffView::UpdatePropsFrom { component }]
            } else {
                seq![DiffView::ReplaceWith { node: b }]
            }
        },
        _ => seq![DiffView::ReplaceWith { node: b }],
    }
}

/// Whether the props of the embedded components `a` and `b` are equal; `false`
/// where either is no embedded component.
pub open spec fn props_equal<T: Component>(a: NodeView<T>, b: NodeView<T>) -> bool {
    match (a, b) {
        (NodeView::Custom { component: old_component }, NodeView::Custom { component }) => same_props(
            old_component,
            component,
        ),
        _ => false,
    }
}

/// Whether `equal_props` can be what the comparison of the props of the
/// nodes `a` and `b` gave: where both are embedded components of one
/// concrete type, it is a result of the props' own `==`.
pub open spec fn compared<T: Component>(a: NodeView<T>, b: NodeView<T>, equal_props: bool) -> bool {
    match (a, b) {
        (NodeView::Custom { component: old_component }, NodeView::Custom { component }) => {
            same_component(old_component, component) ==> call_ensures(
                T::Props::eq,
                (&old_component.renderable.props, &component.renderable.props),
                equal_props,
            )
        },
        _ => true,
    }
}

/// Whether `verdict` can be what the comparison of the props of a new entry
/// with the cached ones gave.
pub open spec fn entry_compared<T: Component>(
    cache: Seq<(usize, VNode<T>)>,
    key: usize,
    node: NodeView<T>,
    verdict: bool,
) -> bool {
    contains_key(cache, key) ==> compared(cache[index_of(cache, key)].1@, node, verdict)
}

/// Whether `verdicts` can be what the comparisons of the props of the new
/// entries with the cached ones gave.
pub open spec fn all_compared<T: Component>(
    cache: Seq<(usize, VNode<T>)>,
    output: Seq<(usize, VNode<T>)>,
    verdicts: Seq<bool>,
) -> bool {
    &&& verdicts.len() == output.len()
    &&& forall|i: int|
        0 <= i < output.len() ==> entry_compared(
            cache,
            (#[trigger] output[i]).0,
            output[i].1@,
            verdicts[i],
        )
}

/// The changes that lead from the cached node `a` to the new node `b`.
pub open spec fn node_diff<T: Component>(a: NodeView<T>, b: NodeView<T>) -> Seq<DiffView<T>> {
    node_diff_given(a, b, props_equal(a, b))
}

/// The changes for one entry of a new collection: those that lead from the
/// cached node under the entry's key to the new node, or the insertion of the
/// new node where the cache has no such key.
pub open spec fn entry_diff_given<T: Component>(
    cache: Seq<(usize, VNode<T>)>,
    key: usize,
    node: NodeView<T>,
    equal_props: bool,
) -> Seq<DiffView<T>> {
    if contains_key(cache, key) {
        node_diff_given(cache[index_of(cache, key)].1@, node, equal_props)
    } else {
        seq![DiffView::InsertNode { node }]
    }
}

/// Whether the new node is an embedded component whose props equal those of
/// the embedded component cached under the same key.
pub open spec fn entry_props_equal<T: Component>(
    cache: Seq<(usize, VNode<T>)>,
    key: usize,
    node: NodeView<T>,
) -> bool {
    contains_key(cache, key) && props_equal(cache[index_of(cache, key)].1@, node)
}

/// The changes that lead from a cache to a new collection: for each entry of
/// the new collection, in order, its key and its changes, where `verdicts`
/// says for each entry whether its props equal the cached ones. Keys that
/// only the cache has give no change here: their entries are removed when
/// the changes have been applied.
pub open spec fn diff_model_given<T: Component>(
    cache: Seq<(usize, VNode<T>)>,
    output: Seq<(usize, VNode<T>)>,
    verdicts: Seq<bool>,
) -> Seq<(usize, Seq<DiffView<T>>)> {
    Seq::new(
        output.len(),
        |i: int| (output[i].0, entry_diff_given(cache, output[i].0, output[i].1@, verdicts[i])),
    )
}

/// For each new entry, whether its props equal the cached ones.
pub open spec fn props_verdicts<T: Component>(
    cache: Seq<(usize, VNode<T>)>,
    output: Seq<(usize, VNode<T>)>,
) -> Seq<bool> {
    Seq::new(output.len(), |i: int| entry_props_equal(cache, output[i].0, output[i].1@))
}

/// The changes that lead from a cache to a new collection: for each entry of
/// the new collection, in order, its key and its changes.
pub open spec fn diff_model<T: Component>(
    cache: Seq<(usize, VNode<T>)>,
    output: Seq<(usize, VNode<T>)>,
) -> Seq<(usize, Seq<DiffView<T>>)> {
    diff_model_given(cache, output, props_verdicts(cache, output))
}

/// The views of a list of changes grouped by key, in order.
pub open spec fn grouped_changes_view<T: Component>(
    changes: Seq<(usize, Vec<VDomDiff<T>>)>,
) -> Seq<(usize, Seq<DiffView<T>>)> {
    changes.map_values(|c: (usize, Vec<VDomDiff<T>>)| (c.0, changes_view(c.1@)))
}

/// All changes of a grouped list, each with its key, in order.
pub open spec fn flat_changes<T: Component>(groups: Seq<(usize, Seq<DiffView<T>>)>) -> Seq<
    (usize, DiffView<T>),
>
    decreases groups.len(),
{
    if groups.len() == 0 {
        Seq::empty()
    } else {
        flat_changes(groups.drop_last()) + groups.last().1.map_values(
            |d: DiffView<T>| (groups.last().0, d),
        )
    }
}

impl<T: Component> ComponentWrapper<T> {
    /// The changes that lead from the cached node `a` to the new node `b`,
    /// given whether the props of two embedded components are equal.
    pub fn diff_nodes_given(a: &VNode<T>, b: VNode<T>, equal_props: bool) -> (ops: Vec<VDomDiff<T>>)
        ensures
            changes_view(ops@) == node_diff_given(a@, b@, equal_props),
    {
        let mut ops: Vec<VDomDiff<T>> = Vec::new();
        match b {
            VNode::Label(new) => {
                match a {
                    VNode::Label(old) => {
                        if old.text != new.text {
                            ops.push(VDomDiff::UpdateLabelText(new.text));
                        }
                    },
                    _ => {
                        ops.push(VDomDiff::ReplaceWith(VNode::Label(new)));
                    },
                }
            },
            VNode::Text(new) => {
                match a {
                    VNode::Text(old) => {
                        if !text_eq(old, new) {
                            ops.push(VDomDiff::UpdatePureText(new));
                        }
                    },
                    _ => {
                        ops.push(VDomDiff::ReplaceWith(VNode::Text(new)));
                    },
                }
            },
            VNode::Button(new) => {
                match a {
                    VNode::Button(old) => {
                        let rebind = old.click != new.click;
                        let click = new.click;
                        if old.text != new.text {
                            ops.push(VDomDiff::UpdateButtonText(new.text));
                        }
                        if rebind {
                            ops.push(VDomDiff::UpdateButtonClick(click));
                        }
                    },
                    _ => {
                        ops.push(VDomDiff::ReplaceWith(VNode::Button(new)));
                    },
                }
            },
            VNode::TextInput(new) => {
                match a {
                    VNode::TextInput(old) => {
                        if old.initial_value != new.initial_value {
                            ops.push(VDomDiff::ReplaceWith(VNode::TextInput(new)));
                        } else if old.change != new.change {
                            ops.push(VDomDiff::UpdateInputChange(new.change));
                        }
                    },
                    _ => {
                        ops.push(VDomDiff::ReplaceWith(VNode::TextInput(new)));
                    },
                }
            },
            VNode::Select(new) => {
                match a {
                    VNode::Select(old) => {
                        if !options_eq(&old.options, &new.options) {
                            ops.push(VDomDiff::ReplaceWith(VNode::Select(new)));
                        } else if old.select != new.select {
                            ops.push(VDomDiff::UpdateSelectHandler(new.select));
                        }
                    },
                    _ => {
                        ops.push(VDomDiff::ReplaceWith(VNode::Select(new)));
                    },
                }
            },
            VNode::List(new) => {
                match a {
                    VNode::List(old) => {
                        if old.count != new.count || old.render != new.render {
                            ops.push(VDomDiff::ReplaceWith(VNode::List(new)));
                        }
                    },
                    _ => {
                        ops.push(VDomDiff::ReplaceWith(VNode::List(new)));
                    },
                }
            },
            VNode::Custom(new) => {
                match a {
                    VNode::Custom(old) => {
                        if old.type_id == new.type_id {
                            if !equal_props {
                                ops.push(VDomDiff::UpdatePropsFrom(new));
                            }
                        } else {
                            ops.push(VDomDiff::ReplaceWith(VNode::Custom(new)));
                        }
                    },
                    _ => {
                        ops.push(VDomDiff::ReplaceWith(VNode::Custom(new)));
                    },
                }
            },
        }
        assert(changes_view(ops@) =~= node_diff_given(a@, b@, equal_props));
        ops
    }

    /// The changes that lead from the cached node `a` to the new node `b`.
    /// The props of two embedded components of one concrete type are compared
    /// with their own `==`.
    pub fn diff_nodes(a: &VNode<T>, b: VNode<T>) -> (ops: Vec<VDomDiff<T>>)
        ensures
            T::Props::obeys_eq_spec() ==> changes_view(ops@) == node_diff(a@, b@),
            exists|equal_props: bool|
                compared(a@, b@, equal_props) && changes_view(ops@) == node_diff_given(
                    a@,
                    b@,
                    equal_props,
                ),
    {
        let equal_props = match (a, &b) {
            (VNode::Custom(old), VNode::Custom(new)) => {
                if old.type_id == new.type_id {
                    old.renderable.equal_to(&new.renderable)
                } else {
                    false
                }
            },
            _ => false,
        };
        let ghost new = b@;
        let ops = Self::diff_nodes_given(a, b, equal_props);
        proof {
            if T::Props::obeys_eq_spec() {
                assert(node_diff_given(a@, new, equal_props) == node_diff(a@, new));
            }
            assert(compared(a@, new, equal_props));
        }
        ops
    }

    /// The changes that lead from this instance's cache to the new
    /// collection `output`: for each entry of `output`, in order, its key and
    /// its changes.
    pub fn diff(&self, output: Vec<(usize, VNode<T>)>) -> (changes: Vec<(usize, Vec<VDomDiff<T>>)>)
        ensures
            T::Props::obeys_eq_spec() ==> grouped_changes_view(changes@) == diff_model(
                self.vdom@,
                output@,
            ),
            exists|verdicts: Seq<bool>|
                all_compared(self.vdom@, output@, verdicts) && grouped_changes_view(changes@)
                    == diff_model_given(self.vdom@, output@, verdicts),
    {
        let ghost cache = self.vdom@;
        let ghost given = output@;
        let ghost mut verdicts: Seq<bool> = Seq::empty();
        let mut changes: Vec<(usize, Vec<VDomDiff<T>>)> = Vec::new();
        let mut rest = reversed(output);
        while rest.len() > 0
            invariant
                cache == self.vdom@,
                rest@.len() <= given.len(),
                forall|j: int| 0 <= j < rest@.len() ==> rest@[j] == given[given.len() - 1 - j],
                verdicts.len() == given.len() - rest@.len(),
                changes@.len() == verdicts.len(),
                forall|j: int|
                    0 <= j < changes@.len() ==> (#[trigger] changes@[j]).0 == given[j].0
                        && changes_view(changes@[j].1@) == entry_diff_given(
                        cache,
                        given[j].0,
                        given[j].1@,
                        verdicts[j],
                    ),
                T::Props::obeys_eq_spec() ==> forall|j: int|
                    0 <= j < verdicts.len() ==> #[trigger] verdicts[j] == entry_props_equal(
                        cache,
                        given[j].0,
                        given[j].1@,
                    ),
                forall|j: int|
                    0 <= j < verdicts.len() ==> entry_compared(
                        cache,
                        (#[trigger] given[j]).0,
                        given[j].1@,
                        verdicts[j],
                    ),
            decreases rest.len(),
        {
            let ghost done = given.len() - rest@.len();
            let entry = rest.pop().unwrap();
            assert(entry == given[done]);
            let key = entry.0;
            let node = entry.1;
            let ghost verdict: bool;
            match find(&self.vdom, key) {
                Some(at) => {
                    let ops = Self::diff_nodes(&self.vdom[at].1, node);
                    proof {
                        let found = choose|e: bool|
                            compared(cache[at as int].1@, entry.1@, e) && changes_view(ops@)
                                == node_diff_given(cache[at as int].1@, entry.1@, e);
                        verdict = if T::Props::obeys_eq_spec() {
                            props_equal(cache[at as int].1@, entry.1@)
                        } else {
                            found
                        };
                        assert(compared(cache[at as int].1@, entry.1@, verdict));
                    }
                    changes.push((key, ops));
                },
                None => {
                    proof {
                        verdict = entry_props_equal(cache, key, node@);
                    }
                    let mut ops: Vec<VDomDiff<T>> = Vec::new();
                    ops.push(VDomDiff::InsertNode(node));
                    assert(changes_view(ops@) =~= entry_diff_given(cache, key, node@, verdict));
                    changes.push((key, ops));
                },
            }
            proof {
                verdicts = verdicts.push(verdict);
            }
        }
        proof {
            assert(grouped_changes_view(changes@) =~= diff_model_given(cache, given, verdicts));
            if T::Props::obeys_eq_spec() {
                assert(verdicts =~= props_verdicts(cache, given));
            }
        }
        changes
    }
}

} // verus!
