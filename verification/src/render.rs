use crate::cache::{
    contains_key, distinct_keys, dropped, evict_from, find, first_repeat, index_of, is_first,
    is_first_repeat, keys_of, lemma_first_exists, lemma_index_of, lemma_retained, positional, positions,
    lemma_retained_distinct, retained, reversed,
};
use crate::component::{cache_height, node_height, Component, ComponentWrapper, InstanceView};
use crate::diff::{
    changes_view, diff_model_given, entry_diff_given, flat_changes, grouped_changes_view,
    all_compared, entry_compared, node_diff_given, props_verdicts, same_component, DiffView, VDomDiff,
};
use vstd::std_specs::cmp::PartialEqSpec;
use crate::effect::{Effect, Fault, Primitive};
use crate::ids::{following, gen_id, IdSource};
use crate::node::{NodeView, VNode};
use vstd::prelude::*;

verus! {

broadcast use vstd::std_specs::hash::group_hash_axioms;

/// Whether mounting a node draws an identifier: a button or a selector with
/// a handler does, and so does every text field.
pub open spec fn draws_id<T: Component>(node: NodeView<T>) -> bool {
    match node {
        NodeView::Button { click, .. } => click is Some,
        NodeView::TextInput { .. } => true,
        NodeView::Select { select, .. } => select is Some,
        _ => false,
    }
}

/// The primitive of a node that is mounted when `next` is the next identifier.
pub open spec fn primitive_for<T: Component>(node: NodeView<T>, next: usize) -> Primitive {
    match node {
        NodeView::Label { .. } => Primitive::Label,
        NodeView::Text { .. } => Primitive::Label,
        NodeView::Button { click, .. } => Primitive::Button {
            action: if click is Some {
                Some(next)
            } else {
                None
            },
        },
        NodeView::TextInput { .. } => Primitive::TextField { id: next },
        NodeView::Select { select, .. } => Primitive::Select {
            action: if select is Some {
                Some(next)
            } else {
                None
            },
        },
        NodeView::List { .. } => Primitive::List,
        NodeView::Custom { .. } => Primitive::View,
    }
}

/// A registry after a node was mounted under the identifier `id`, where
/// `handler` is the node's handler of the registry's kind, if it has one.
pub open spec fn registered(registry: Map<usize, usize>, id: usize, handler: Option<usize>) -> Map<
    usize,
    usize,
> {
    match handler {
        Some(token) => registry.insert(id, token),
        None => registry,
    }
}

/// The click handler of a node, if it is a button that has one.
pub open spec fn click_of<T: Component>(node: NodeView<T>) -> Option<usize> {
    match node {
        NodeView::Button { click, .. } => click,
        _ => None,
    }
}

/// The change handler of a node, if it is a text field that has one.
pub open spec fn change_of<T: Component>(node: NodeView<T>) -> Option<usize> {
    match node {
        NodeView::TextInput { change, .. } => change,
        _ => None,
    }
}

/// The select handler of a node, if it is a selector that has one.
pub open spec fn select_of<T: Component>(node: NodeView<T>) -> Option<usize> {
    match node {
        NodeView::Select { select, .. } => select,
        _ => None,
    }
}

/// Whether a change fits a cached node: an update fits a node of the kind
/// it updates, new props fit an embedded component of the same concrete
/// type, and an insertion or a replacement fits every node.
pub open spec fn fits<T: Component>(change: DiffView<T>, node: NodeView<T>) -> bool {
    match change {
        DiffView::UpdateLabelText { .. } => node is Label,
        DiffView::UpdatePureText { .. } => node is Text,
        DiffView::UpdateButtonText { .. } => node is Button,
        DiffView::UpdateButtonClick { .. } => node is Button,
        DiffView::UpdateInputChange { .. } => node is TextInput,
        DiffView::UpdateSelectHandler { .. } => node is Select,
        DiffView::UpdatePropsFrom { component } => node matches NodeView::Custom {
            component: cached,
        } && same_component(cached, component),
        DiffView::InsertNode { .. } => true,
        DiffView::ReplaceWith { .. } => true,
    }
}

/// The fault that a change meets in a cache, if it meets one: every change
/// but an insertion needs a node under its key, and one that it fits.
pub open spec fn apply_fault<T: Component>(
    cache: Seq<(usize, VNode<T>)>,
    key: usize,
    change: DiffView<T>,
) -> Option<Fault> {
    if change is InsertNode {
        None
    } else if !contains_key(cache, key) {
        Some(Fault::Missing { key })
    } else if !fits(change, cache[index_of(cache, key)].1@) {
        Some(Fault::Mismatch { key })
    } else {
        None
    }
}

/// A node after a change that fits it. New props leave the node's view to
/// the instance that takes them.
pub open spec fn patched<T: Component>(node: NodeView<T>, change: DiffView<T>) -> NodeView<T> {
    match change {
        DiffView::UpdateLabelText { text } => NodeView::Label { text },
        DiffView::UpdatePureText { text } => NodeView::Text { text },
        DiffView::UpdateButtonText { text } => match node {
            NodeView::Button { click, .. } => NodeView::Button { click, text },
            _ => node,
        },
        DiffView::UpdateButtonClick { click } => match node {
            NodeView::Button { text, .. } => NodeView::Button { click, text },
            _ => node,
        },
        DiffView::UpdateInputChange { change } => match node {
            NodeView::TextInput { initial_value, .. } => NodeView::TextInput {
                change,
                initial_value,
            },
            _ => node,
        },
        DiffView::UpdateSelectHandler { select } => match node {
            NodeView::Select { options, .. } => NodeView::Select { options, select },
            _ => node,
        },
        DiffView::UpdatePropsFrom { .. } => node,
        DiffView::InsertNode { node: new } => new,
        DiffView::ReplaceWith { node: new } => new,
    }
}

/// A cache with `node` under `key`: in the place of the entry that had the
/// key, or at the end where there was none.
pub open spec fn placed<T: Component>(
    cache: Seq<(usize, VNode<T>)>,
    key: usize,
    node: VNode<T>,
) -> Seq<(usize, VNode<T>)> {
    if contains_key(cache, key) {
        cache.update(index_of(cache, key), (key, node))
    } else {
        cache.push((key, node))
    }
}

/// The node that a cache holds under `key`.
pub open spec fn stored<T: Component>(cache: Seq<(usize, VNode<T>)>, key: usize) -> VNode<T> {
    cache[index_of(cache, key)].1
}

/// Whether applying a change draws an identifier.
pub open spec fn change_draws_id<T: Component>(change: DiffView<T>) -> bool {
    match change {
        DiffView::InsertNode { node } => draws_id(node),
        DiffView::ReplaceWith { node } => draws_id(node),
        DiffView::UpdateButtonClick { click } => click is Some,
        DiffView::UpdateInputChange { .. } => true,
        DiffView::UpdateSelectHandler { select } => select is Some,
        _ => false,
    }
}

/// The click handler that a change registers, if any.
pub open spec fn change_click<T: Component>(change: DiffView<T>) -> Option<usize> {
    match change {
        DiffView::InsertNode { node } => click_of(node),
        DiffView::ReplaceWith { node } => click_of(node),
        DiffView::UpdateButtonClick { click } => click,
        _ => None,
    }
}

/// The change handler that a change registers, if any.
pub open spec fn change_change<T: Component>(change: DiffView<T>) -> Option<usize> {
    match change {
        DiffView::InsertNode { node } => change_of(node),
        DiffView::ReplaceWith { node } => change_of(node),
        DiffView::UpdateInputChange { change } => change,
        _ => None,
    }
}

/// The select handler that a change registers, if any.
pub open spec fn change_select<T: Component>(change: DiffView<T>) -> Option<usize> {
    match change {
        DiffView::InsertNode { node } => select_of(node),
        DiffView::ReplaceWith { node } => select_of(node),
        DiffView::UpdateSelectHandler { select } => select,
        _ => None,
    }
}

/// The effect of a change that reaches no nested instance, applied under
/// `key` when `next` is the next identifier.
pub open spec fn local_effect<T: Component>(key: usize, change: DiffView<T>, next: usize) -> Effect {
    match change {
        DiffView::InsertNode { node } => Effect::Create { key, primitive: primitive_for(node, next) },
        DiffView::ReplaceWith { node } => Effect::Replace {
            key,
            primitive: primitive_for(node, next),
        },
        DiffView::UpdateButtonClick { click } => Effect::SetAction {
            key,
            action: if click is Some {
                Some(next)
            } else {
                None
            },
        },
        DiffView::UpdateInputChange { .. } => Effect::SetInputId { key, id: next },
        DiffView::UpdateSelectHandler { select } => Effect::SetAction {
            key,
            action: if select is Some {
                Some(next)
            } else {
                None
            },
        },
        _ => Effect::SetText { key },
    }
}

/// The height of the node under `key`, and zero where the cache has none.
pub open spec fn target_height<T: Component>(cache: Seq<(usize, VNode<T>)>, key: usize) -> nat {
    if contains_key(cache, key) {
        node_height(stored(cache, key))
    } else {
        0
    }
}

/// A node after a list of changes, applied in order.
pub open spec fn patched_all<T: Component>(node: NodeView<T>, changes: Seq<DiffView<T>>) -> NodeView<
    T,
>
    decreases changes.len(),
{
    if changes.len() == 0 {
        node
    } else {
        patched(patched_all(node, changes.drop_last()), changes.last())
    }
}

/// Whether the new node `node` under `key` reuses the cached instance: both
/// are embedded components of one concrete type.
pub open spec fn reuses<T: Component>(
    before: Seq<(usize, VNode<T>)>,
    key: usize,
    node: NodeView<T>,
) -> bool {
    &&& contains_key(before, key)
    &&& node matches NodeView::Custom { component }
    &&& stored(before, key) matches VNode::Custom(cached)
    &&& same_component(cached, component)
}

/// What the cache holds under `key` once the new node `node` has been
/// reconciled with the cache `before`: a node with the view of `node`. Where
/// the cached instance is reused, it is the cached node itself if the props
/// are equal, and otherwise the cached instance with its state and the new
/// props. A new embedded component has its concrete type, its props and
/// its state, and its instance is mounted.
pub open spec fn settled<T: Component>(
    before: Seq<(usize, VNode<T>)>,
    key: usize,
    node: NodeView<T>,
    verdict: bool,
    now: VNode<T>,
) -> bool {
    if reuses(before, key, node) {
        if verdict {
            now == stored(before, key)
        } else {
            &&& now matches VNode::Custom(kept)
            &&& node matches NodeView::Custom { component }
            &&& stored(before, key) matches VNode::Custom(cached)
            &&& kept.type_id == component.type_id
            &&& kept.renderable.props == component.renderable.props
            &&& kept.renderable.state == cached.renderable.state
        }
    } else if node is Custom {
        &&& now matches VNode::Custom(kept)
        &&& node matches NodeView::Custom { component }
        &&& kept.type_id == component.type_id
        &&& kept.renderable.props == component.renderable.props
        &&& kept.renderable.state == component.renderable.state
    } else {
        now@ == node
    }
}

/// Names an output of a component and the verdicts on its props. It holds
/// of all of them: statements about some output are found by it.
pub open spec fn considered<T: Component>(
    output: Vec<(usize, VNode<T>)>,
    verdicts: Seq<bool>,
) -> bool {
    true
}

/// Whether every identifier of the registry `before` is one of `after`.
pub open spec fn keeps_ids(before: Map<usize, usize>, after: Map<usize, usize>) -> bool {
    forall|id: usize| before.contains_key(id) ==> after.contains_key(id)
}

/// Whether an instance that was `before` and is `after` still has every
/// identifier in the registry that had it.
pub open spec fn keeps_handlers<T: Component>(before: InstanceView<T>, after: InstanceView<T>) -> bool {
    &&& keeps_ids(before.click_handlers, after.click_handlers)
    &&& keeps_ids(before.change_handlers, after.change_handlers)
    &&& keeps_ids(before.select_handlers, after.select_handlers)
}

/// The three registries of an instance.
pub struct Registries {
    pub click_handlers: Map<usize, usize>,
    pub change_handlers: Map<usize, usize>,
    pub select_handlers: Map<usize, usize>,
}

/// The registries of an instance.
pub open spec fn registries_of<T: Component>(instance: InstanceView<T>) -> Registries {
    Registries {
        click_handlers: instance.click_handlers,
        change_handlers: instance.change_handlers,
        select_handlers: instance.select_handlers,
    }
}

/// Whether two sets of registries hold the same handlers under the same
/// identifiers.
pub open spec fn same_registries(a: Registries, b: Registries) -> bool {
    &&& a.click_handlers =~= b.click_handlers
    &&& a.change_handlers =~= b.change_handlers
    &&& a.select_handlers =~= b.select_handlers
}

/// The registries after one change that was applied when `next` was the
/// next identifier: the handler that the change binds is registered under
/// `next`.
pub open spec fn registries_after_change<T: Component>(
    registries: Registries,
    change: DiffView<T>,
    next: usize,
) -> Registries {
    Registries {
        click_handlers: registered(registries.click_handlers, next, change_click(change)),
        change_handlers: registered(registries.change_handlers, next, change_change(change)),
        select_handlers: registered(registries.select_handlers, next, change_select(change)),
    }
}

/// The registries after a list of changes, in order, where `nexts[j]` was
/// the next identifier when the change at `j` was applied.
pub open spec fn registries_after<T: Component>(
    start: Registries,
    changes: Seq<(usize, DiffView<T>)>,
    nexts: Seq<usize>,
) -> Registries
    decreases changes.len(),
{
    if changes.len() == 0 {
        start
    } else {
        registries_after_change(
            registries_after(start, changes.drop_last(), nexts),
            changes.last().1,
            nexts[changes.len() - 1],
        )
    }
}

/// The next identifier after a change that reaches no nested instance,
/// where `next` was the next identifier before it.
pub open spec fn next_after_change<T: Component>(change: DiffView<T>, next: usize) -> usize {
    if change_draws_id(change) {
        following(next)
    } else {
        next
    }
}

/// Names the identifiers that were the next ones before each change of a
/// render, and after the last. It holds of all of them: statements about
/// the identifiers of some render are found by it.
pub open spec fn drawn(nexts: Seq<usize>) -> bool {
    true
}

/// The changes of one entry, each with the entry's key.
pub open spec fn tagged<T: Component>(key: usize, changes: Seq<DiffView<T>>) -> Seq<
    (usize, DiffView<T>),
> {
    changes.map_values(|d: DiffView<T>| (key, d))
}

/// Whether the cache `after` is `before` with nothing changed but under
/// `key`: the entries that were there keep their places and keys, and what
/// was added has the key `key`.
pub open spec fn touches_only<T: Component>(
    before: Seq<(usize, VNode<T>)>,
    after: Seq<(usize, VNode<T>)>,
    key: usize,
) -> bool {
    &&& after.len() >= before.len()
    &&& forall|j: int| 0 <= j < before.len() ==> (#[trigger] after[j]).0 == before[j].0
    &&& forall|j: int| before.len() <= j < after.len() ==> (#[trigger] after[j]).0 == key
    &&& contains_key(before, key) ==> contains_key(after, key)
    &&& forall|other: usize|
        other != key ==> (contains_key(after, other) <==> contains_key(before, other))
    &&& forall|other: usize|
        other != key && contains_key(before, other) ==> stored(after, other) == stored(
            before,
            other,
        )
    &&& distinct_keys(before) ==> distinct_keys(after)
}

/// What holds of a reconciliation of the cache `before` with the new
/// collection `output`, where `verdicts` says for each new entry whether
/// its props equal the cached ones.
///
/// An output that holds a key twice is refused, and the cache stays as it
/// is. Otherwise a fault can only come from a nested instance that took new
/// props. Without a fault, the cache `after` holds the keys of the output
/// and no others, each with a node settled as `settled` says, and the
/// effects are: one for each change, in the order of the changes; then the
/// removal of each key that only the old cache had, in the order of the old
/// cache; then the layout, in the order of the output.
pub open spec fn reconciled<T: Component>(
    before: Seq<(usize, VNode<T>)>,
    output: Seq<(usize, VNode<T>)>,
    verdicts: Seq<bool>,
    done: Result<Vec<Effect>, Fault>,
    after: Seq<(usize, VNode<T>)>,
) -> bool {
    match done {
        Err(Fault::Duplicate { key }) => {
            &&& exists|j: int| is_first_repeat(output, j) && (#[trigger] output[j]).0 == key
            &&& after == before
        },
        Err(Fault::Child { key, .. }) => {
            &&& distinct_keys(output)
            &&& exists|i: int|
                0 <= i < output.len() && (#[trigger] output[i]).0 == key && output[i].1 is Custom
                    && (reuses(before, key, output[i].1@) ==> !verdicts[i])
        },
        Err(Fault::TooDeep { key }) => {
            &&& distinct_keys(output)
            &&& exists|i: int|
                0 <= i < output.len() && (#[trigger] output[i]).0 == key && output[i].1 is Custom
                    && !reuses(before, key, output[i].1@)
        },
        Err(_) => false,
        Ok(effects) => {
            let changes = flat_changes(diff_model_given(before, output, verdicts));
            let gone = dropped(before, keys_of(output));
            &&& distinct_keys(output)
            &&& forall|key: usize| contains_key(after, key) <==> contains_key(output, key)
            &&& forall|i: int|
                0 <= i < output.len() ==> settled(
                    before,
                    (#[trigger] output[i]).0,
                    output[i].1@,
                    verdicts[i],
                    stored(after, output[i].0),
                )
            &&& distinct_keys(before) ==> distinct_keys(after)
            &&& effects@.len() == changes.len() + gone.len() + 1
            &&& forall|j: int|
                0 <= j < gone.len() ==> #[trigger] effects@[changes.len() + j] == (Effect::Remove {
                    key: gone[j],
                })
            &&& effects@.last() matches Effect::Layout { order }
            &&& order@ == keys_of(output)
        },
    }
}

/// What the cache holds under a key once a change that fits has been
/// applied to the node `was` under that key: a node with the view that
/// `patched` gives. An embedded component that took new props has the
/// concrete type and the state of the cached one and the new props, and
/// one that was put in the cache has its own concrete type, props and
/// state.
pub open spec fn settled_by<T: Component>(was: VNode<T>, change: DiffView<T>, now: VNode<T>) -> bool {
    match change {
        DiffView::UpdatePropsFrom { component } => {
            &&& now matches VNode::Custom(kept)
            &&& was matches VNode::Custom(cached)
            &&& kept.type_id == cached.type_id
            &&& kept.renderable.props == component.renderable.props
            &&& kept.renderable.state == cached.renderable.state
        },
        _ => if mounts(change) {
            &&& now matches VNode::Custom(kept)
            &&& patched(was@, change) matches NodeView::Custom { component }
            &&& kept.type_id == component.type_id
            &&& kept.renderable.props == component.renderable.props
            &&& kept.renderable.state == component.renderable.state
        } else {
            now@ == patched(was@, change)
        },
    }
}

/// What holds when the node `before` was mounted under `key` in an
/// instance with the room `room`, from the next identifier `next`, with the
/// outcome `made`: the primitive that the backend has to create, and the
/// effects on the primitives of a nested instance.
///
/// A node that embeds no component stays as it is, has the primitive that
/// `primitive_for` gives and no further effects, and draws an identifier
/// if it needs one. An embedded component keeps its concrete type, its
/// props and its state; its primitive is a view, and its instance is
/// mounted with one level less room: the effects, or the fault under
/// `key`, are those of the instance's render. An instance without room
/// refuses an embedded component and leaves it as it is.
pub open spec fn created<T: Component>(
    room: usize,
    key: usize,
    before: VNode<T>,
    next: usize,
    made: Result<(Primitive, Vec<Effect>), Fault>,
    after: VNode<T>,
    next_after: usize,
) -> bool {
    match before {
        VNode::Custom(new) => {
            if room == 0 {
                &&& made == Err::<(Primitive, Vec<Effect>), Fault>(Fault::TooDeep { key })
                &&& after == before
                &&& next_after == next
            } else {
                &&& after matches VNode::Custom(kept)
                &&& kept.type_id == new.type_id
                &&& kept.renderable.props == new.renderable.props
                &&& kept.renderable.state == new.renderable.state
                &&& match made {
                    Ok(made) => made.0 == Primitive::View && rendered(
                        with_room(new.renderable@, (room - 1) as usize),
                        next,
                        Ok(made.1),
                        kept.renderable@,
                        next_after,
                    ),
                    Err(Fault::Child { key: at, fault }) => at == key && rendered(
                        with_room(new.renderable@, (room - 1) as usize),
                        next,
                        Err(*fault),
                        kept.renderable@,
                        next_after,
                    ),
                    Err(_) => false,
                }
            }
        },
        _ => {
            &&& after == before
            &&& made matches Ok(made)
            &&& made.0 == primitive_for(before@, next)
            &&& made.1@.len() == 0
            &&& next_after == (if draws_id(before@) {
                following(next)
            } else {
                next
            })
        },
    }
}

impl<T: Component> ComponentWrapper<T> {
    /// Mounts a node that stands, or is about to stand, under `key`: draws
    /// its identifier where it needs one, enters its handler in the
    /// registry of its kind under that identifier, and says which primitive
    /// the backend has to create. The instance of an embedded component is
    /// mounted, with one level less room than this instance has, and the
    /// effects on its primitives are returned with the primitive. Props,
    /// state and cache of this instance stay as they are.
    pub fn create_component(
        &mut self,
        key: usize,
        vnode: &mut VNode<T>,
        ids: &mut IdSource,
    ) -> (made: Result<(Primitive, Vec<Effect>), Fault>)
        ensures
            final(self).room == old(self).room,
            old(self).wf() ==> final(self).wf(),
            created(
                old(self).room,
                key,
                *old(vnode),
                old(ids).next,
                made,
                *final(vnode),
                final(ids).next,
            ),
            final(self).click_handlers@ == registered(
                old(self).click_handlers@,
                old(ids).next,
                click_of(old(vnode)@),
            ),
            final(self).change_handlers@ == registered(
                old(self).change_handlers@,
                old(ids).next,
                change_of(old(vnode)@),
            ),
            final(self).select_handlers@ == registered(
                old(self).select_handlers@,
                old(ids).next,
                select_of(old(vnode)@),
            ),
            final(self).props == old(self).props,
            final(self).state == old(self).state,
            final(self).vdom == old(self).vdom,
        decreases old(self).room, 0nat, 0nat,
    {
        let room: usize = self.room;
        match vnode {
            VNode::Custom(component) => {
                if room == 0 {
                    Err(Fault::TooDeep { key })
                } else {
                    component.renderable.room = room - 1;
                    match component.renderable.mount(ids) {
                        Ok(effects) => Ok((Primitive::View, effects)),
                        Err(fault) => Err(Fault::Child { key, fault: Box::new(fault) }),
                    }
                }
            },
            VNode::Label(_) => Ok((Primitive::Label, Vec::new())),
            VNode::Text(_) => Ok((Primitive::Label, Vec::new())),
            VNode::Button(button) => {
                match button.click {
                    Some(handler) => {
                        let id = gen_id(ids);
                        self.click_handlers.insert(id, handler);
                        Ok((Primitive::Button { action: Some(id) }, Vec::new()))
                    },
                    None => Ok((Primitive::Button { action: None }, Vec::new())),
                }
            },
            VNode::Select(select) => {
                match select.select {
                    Some(handler) => {
                        let id = gen_id(ids);
                        self.select_handlers.insert(id, handler);
                        Ok((Primitive::Select { action: Some(id) }, Vec::new()))
                    },
                    None => Ok((Primitive::Select { action: None }, Vec::new())),
                }
            },
            VNode::TextInput(input) => {
                let id = gen_id(ids);
                match input.change {
                    Some(handler) => {
                        self.change_handlers.insert(id, handler);
                    },
                    None => {},
                }
                Ok((Primitive::TextField { id }, Vec::new()))
            },
            VNode::List(_) => Ok((Primitive::List, Vec::new())),
        }
    }

    /// Applies one change to the node under `key`.
    ///
    /// A change that meets a fault leaves the instance and the identifier
    /// source as they are. Otherwise the cache holds the changed node under
    /// `key`, in the place of the old one, or at the end where the key is
    /// new; a handler that the change binds is registered under the next
    /// identifier; and the effect says what the backend has to do. New props
    /// go to the instance nested under `key`, which keeps its state and
    /// renders again. An embedded component that is put in the cache has
    /// its instance mounted, with one level less room than this instance
    /// has; an instance without room refuses it and stays as it is.
    pub fn apply(&mut self, key: usize, change: VDomDiff<T>, ids: &mut IdSource) -> (done: Result<
        Effect,
        Fault,
    >)
        ensures
            final(self).room == old(self).room,
            old(self).wf() ==> final(self).wf(),
            final(self).props == old(self).props,
            final(self).state == old(self).state,
            touches_only(old(self).vdom@, final(self).vdom@, key),
            keeps_handlers(old(self)@, final(self)@),
            done matches Err(Fault::Child { fault, .. }) ==> step_failed(
                old(self).room,
                old(self).vdom@,
                final(self).vdom@,
                key,
                change@,
                old(ids).next,
                *fault,
                final(ids).next,
            ) && same_registries(registries_of(final(self)@), registries_of(old(self)@)),
            done matches Ok(effect) ==> step_accounted(
                old(self).room,
                old(self).vdom@,
                final(self).vdom@,
                key,
                change@,
                old(ids).next,
                effect,
                final(ids).next,
            ) && same_registries(
                registries_of(final(self)@),
                registries_after_change(registries_of(old(self)@), change@, old(ids).next),
            ),
            (match done {
                Err(Fault::Child { key: at, .. }) => {
                    &&& at == key
                    &&& apply_fault(old(self).vdom@, key, change@) is None
                    &&& hands_down(change@)
                    &&& !(mounts(change@) && old(self).room == 0)
                },
                Err(Fault::TooDeep { key: at }) => {
                    &&& at == key
                    &&& apply_fault(old(self).vdom@, key, change@) is None
                    &&& mounts(change@)
                    &&& old(self).room == 0
                    &&& final(self).vdom@ == old(self).vdom@
                    &&& same_registries(registries_of(final(self)@), registries_of(old(self)@))
                    &&& final(ids).next == old(ids).next
                },
                Err(fault) => {
                    &&& apply_fault(old(self).vdom@, key, change@) == Some(fault)
                    &&& final(self).vdom@ == old(self).vdom@
                    &&& same_registries(registries_of(final(self)@), registries_of(old(self)@))
                    &&& final(ids).next == old(ids).next
                },
                Ok(effect) => {
                    &&& apply_fault(old(self).vdom@, key, change@) is None
                    &&& !(mounts(change@) && old(self).room == 0)
                    &&& contains_key(final(self).vdom@, key)
                    &&& final(self).vdom@ == placed(
                        old(self).vdom@,
                        key,
                        stored(final(self).vdom@, key),
                    )
                    &&& settled_by(
                        stored(old(self).vdom@, key),
                        change@,
                        stored(final(self).vdom@, key),
                    )
                },
            }),
        decreases old(self).room, target_height(old(self).vdom@, key), 4nat,
    {
        let found = find(&self.vdom, key);
        let room: usize = self.room;
        let done = match change {
            VDomDiff::InsertNode(node) => {
                let mut node = node;
                match self.create_component(key, &mut node, ids) {
                    Err(Fault::TooDeep { .. }) => Err(Fault::TooDeep { key }),
                    made => {
                        match found {
                            Some(at) => {
                                self.vdom.set(at, (key, node));
                            },
                            None => {
                                self.vdom.push((key, node));
                            },
                        }
                        proof {
                            lemma_placed(old(self).vdom@, key, node);
                            assert(self.vdom@ =~= placed(old(self).vdom@, key, node));
                        }
                        match made {
                            Ok(made) => {
                                match made.0 {
                                    Primitive::View => Ok(Effect::Mount { key, effects: made.1 }),
                                    primitive => Ok(Effect::Create { key, primitive }),
                                }
                            },
                            Err(fault) => Err(fault),
                        }
                    },
                }
            },
            VDomDiff::ReplaceWith(node) => {
                match found {
                    None => Err(Fault::Missing { key }),
                    Some(at) => {
                        let mut node = node;
                        match self.create_component(key, &mut node, ids) {
                            Err(Fault::TooDeep { .. }) => Err(Fault::TooDeep { key }),
                            made => {
                                self.vdom.set(at, (key, node));
                                proof {
                                    lemma_placed(old(self).vdom@, key, node);
                                    assert(self.vdom@ =~= placed(old(self).vdom@, key, node));
                                }
                                match made {
                                    Ok(made) => {
                                        match made.0 {
                                            Primitive::View => Ok(
                                                Effect::Remount { key, effects: made.1 },
                                            ),
                                            primitive => Ok(Effect::Replace { key, primitive }),
                                        }
                                    },
                                    Err(fault) => Err(fault),
                                }
                            },
                        }
                    },
                }
            },
            VDomDiff::UpdateLabelText(text) => {
                match found {
                    None => Err(Fault::Missing { key }),
                    Some(at) => {
                        match &mut self.vdom[at].1 {
                            VNode::Label(label) => {
                                label.text = text;
                                proof {
                                    let now = self.vdom@[at as int].1;
                                    lemma_placed(old(self).vdom@, key, now);
                                    assert(self.vdom@ =~= placed(old(self).vdom@, key, now));
                                }
                                Ok(Effect::SetText { key })
                            },
                            _ => Err(Fault::Mismatch { key }),
                        }
                    },
                }
            },
            VDomDiff::UpdatePureText(text) => {
                match found {
                    None => Err(Fault::Missing { key }),
                    Some(at) => {
                        match &mut self.vdom[at].1 {
                            VNode::Text(shown) => {
                                *shown = text;
                                proof {
                                    let now = self.vdom@[at as int].1;
                                    lemma_placed(old(self).vdom@, key, now);
                                    assert(self.vdom@ =~= placed(old(self).vdom@, key, now));
                                }
                                Ok(Effect::SetText { key })
                            },
                            _ => Err(Fault::Mismatch { key }),
                        }
                    },
                }
            },
            VDomDiff::UpdateButtonText(text) => {
                match found {
                    None => Err(Fault::Missing { key }),
                    Some(at) => {
                        match &mut self.vdom[at].1 {
                            VNode::Button(button) => {
                                button.text = text;
                                proof {
                                    let now = self.vdom@[at as int].1;
                                    lemma_placed(old(self).vdom@, key, now);
                                    assert(self.vdom@ =~= placed(old(self).vdom@, key, now));
                                }
                                Ok(Effect::SetText { key })
                            },
                            _ => Err(Fault::Mismatch { key }),
                        }
                    },
                }
            },
            VDomDiff::UpdateButtonClick(click) => {
                match found {
                    None => Err(Fault::Missing { key }),
                    Some(at) => {
                        match &mut self.vdom[at].1 {
                            VNode::Button(button) => {
                                button.click = click;
                                proof {
                                    let now = self.vdom@[at as int].1;
                                    lemma_placed(old(self).vdom@, key, now);
                                    assert(self.vdom@ =~= placed(old(self).vdom@, key, now));
                                }
                                match click {
                                    Some(handler) => {
                                        let id = gen_id(ids);
                                        self.click_handlers.insert(id, handler);
                                        Ok(Effect::SetAction { key, action: Some(id) })
                                    },
                                    None => Ok(Effect::SetAction { key, action: None }),
                                }
                            },
                            _ => Err(Fault::Mismatch { key }),
                        }
                    },
                }
            },
            VDomDiff::UpdateSelectHandler(select) => {
                match found {
                    None => Err(Fault::Missing { key }),
                    Some(at) => {
                        match &mut self.vdom[at].1 {
                            VNode::Select(selector) => {
                                selector.select = select;
                                proof {
                                    let now = self.vdom@[at as int].1;
                                    lemma_placed(old(self).vdom@, key, now);
                                    assert(self.vdom@ =~= placed(old(self).vdom@, key, now));
                                }
                                match select {
                                    Some(handler) => {
                                        let id = gen_id(ids);
                                        self.select_handlers.insert(id, handler);
                                        Ok(Effect::SetAction { key, action: Some(id) })
                                    },
                                    None => Ok(Effect::SetAction { key, action: None }),
                                }
                            },
                            _ => Err(Fault::Mismatch { key }),
                        }
                    },
                }
            },
            VDomDiff::UpdateInputChange(change) => {
                match found {
                    None => Err(Fault::Missing { key }),
                    Some(at) => {
                        match &mut self.vdom[at].1 {
                            VNode::TextInput(input) => {
                                input.change = change;
                                proof {
                                    let now = self.vdom@[at as int].1;
                                    lemma_placed(old(self).vdom@, key, now);
                                    assert(self.vdom@ =~= placed(old(self).vdom@, key, now));
                                }
                                let id = gen_id(ids);
                                match change {
                                    Some(handler) => {
                                        self.change_handlers.insert(id, handler);
                                    },
                                    None => {},
                                }
                                Ok(Effect::SetInputId { key, id })
                            },
                            _ => Err(Fault::Mismatch { key }),
                        }
                    },
                }
            },
            VDomDiff::UpdatePropsFrom(component) => {
                match found {
                    None => Err(Fault::Missing { key }),
                    Some(at) => {
                        let fitting = match &self.vdom[at].1 {
                            VNode::Custom(cached) => cached.type_id == component.type_id,
                            _ => false,
                        };
                        if !fitting {
                            return Err(Fault::Mismatch { key });
                        }
                        match &mut self.vdom[at].1 {
                            VNode::Custom(cached) => {
                                proof {
                                    lemma_node_height(old(self).vdom@, at as int);
                                }
                                cached.renderable.room = room;
                                let outcome = cached.renderable.update_props_from(
                                    component.renderable,
                                    ids,
                                );
                                proof {
                                    let now = self.vdom@[at as int].1;
                                    lemma_placed(old(self).vdom@, key, now);
                                    assert(self.vdom@ =~= placed(old(self).vdom@, key, now));
                                }
                                match outcome {
                                    Ok(effects) => Ok(Effect::Child { key, effects }),
                                    Err(fault) => Err(Fault::Child { key, fault: Box::new(fault) }),
                                }
                            },
                            _ => Err(Fault::Mismatch { key }),
                        }
                    },
                }
            },
        };
        proof {
            if done is Err && !(done matches Err(Fault::Child { .. })) {
                assert(self.vdom@ =~= old(self).vdom@);
            }
        }
        done
    }

    /// Applies the changes of one entry of a new collection, in order, and
    /// adds their effects to `effects`. `node` is the entry's node and
    /// `verdict` says whether its props equal the cached ones.
    fn apply_group(
        &mut self,
        key: usize,
        ops: Vec<VDomDiff<T>>,
        ids: &mut IdSource,
        effects: &mut Vec<Effect>,
        Ghost(node): Ghost<NodeView<T>>,
        Ghost(verdict): Ghost<bool>,
    ) -> (done: Result<(), Fault>)
        requires
            changes_view(ops@) == entry_diff_given(old(self).vdom@, key, node, verdict),
        ensures
            final(self).room == old(self).room,
            final(self).props == old(self).props,
            final(self).state == old(self).state,
            touches_only(old(self).vdom@, final(self).vdom@, key),
            keeps_handlers(old(self)@, final(self)@),
            done is Ok ==> exists|nexts: Seq<usize>|
                (#[trigger] drawn(nexts) && accounted_by(
                    old(self)@,
                    old(ids).next,
                    tagged(key, changes_view(ops@)),
                    nexts,
                    final(effects)@.skip(old(effects)@.len() as int),
                    final(self)@,
                    final(ids).next,
                )),
            (match done {
                Ok(()) => {
                    &&& contains_key(final(self).vdom@, key)
                    &&& settled(old(self).vdom@, key, node, verdict, stored(final(self).vdom@, key))
                    &&& final(effects)@.len() == old(effects)@.len() + ops@.len()
                    &&& forall|j: int|
                        0 <= j < old(effects)@.len() ==> final(effects)@[j] == old(effects)@[j]
                },
                Err(Fault::Child { key: at, fault: inner }) => {
                    &&& at == key
                    &&& node is Custom
                    &&& reuses(old(self).vdom@, key, node) ==> !verdict
                    &&& ops@.len() == 1
                    &&& step_failed(
                        old(self).room,
                        old(self).vdom@,
                        final(self).vdom@,
                        key,
                        ops@[0]@,
                        old(ids).next,
                        *inner,
                        final(ids).next,
                    )
                    &&& same_registries(registries_of(final(self)@), registries_of(old(self)@))
                    &&& final(effects)@ == old(effects)@
                },
                Err(Fault::TooDeep { key: at }) => {
                    &&& at == key
                    &&& node is Custom
                    &&& !reuses(old(self).vdom@, key, node)
                    &&& ops@.len() == 1
                    &&& mounts(ops@[0]@)
                    &&& old(self).room == 0
                    &&& final(self).vdom@ == old(self).vdom@
                    &&& same_registries(registries_of(final(self)@), registries_of(old(self)@))
                    &&& final(ids).next == old(ids).next
                    &&& final(effects)@ == old(effects)@
                },
                Err(_) => false,
            }),
        decreases old(self).room, target_height(old(self).vdom@, key), 5nat,
    {
        let ghost before = self.vdom@;
        let ghost planned = changes_view(ops@);
        let ghost given = ops@;
        let ghost all = tagged(key, planned);
        let ghost offset = old(effects)@.len() as int;
        let ghost mut nexts = seq![ids.next];
        proof {
            if contains_key(before, key) {
                lemma_diff_settles(stored(before, key)@, node, verdict);
            }
            assert(patched_all(stored(before, key)@, planned.take(0)) == stored(before, key)@);
            assert(all.take(0) =~= Seq::empty());
        }
        let mut rest = reversed(ops);
        while rest.len() > 0
            invariant
                rest@.len() <= given.len(),
                forall|j: int| 0 <= j < rest@.len() ==> rest@[j] == given[given.len() - 1 - j],
                given == ops@,
                self.room == old(self).room,
                planned == changes_view(given),
                planned == entry_diff_given(before, key, node, verdict),
                before == old(self).vdom@,
                contains_key(before, key) ==> diff_shape(stored(before, key)@, node, verdict),
                self.props == old(self).props,
                self.state == old(self).state,
                touches_only(before, self.vdom@, key),
                keeps_handlers(old(self)@, self@),
                rest@.len() == given.len() ==> self.vdom@ == before,
                rest@.len() < given.len() ==> contains_key(self.vdom@, key),
                rest@.len() < given.len() && !hands_down(planned[0]) ==> stored(
                    self.vdom@,
                    key,
                )@ == patched_all(stored(before, key)@, planned.take(given.len() - rest@.len())),
                rest@.len() < given.len() && hands_down(planned[0]) ==> settled(
                    before,
                    key,
                    node,
                    verdict,
                    stored(self.vdom@, key),
                ),
                all == tagged(key, planned),
                offset == old(effects)@.len(),
                accounted_by(
                    old(self)@,
                    old(ids).next,
                    all.take(given.len() - rest@.len()),
                    nexts,
                    effects@.skip(offset),
                    self@,
                    ids.next,
                ),
                effects@.len() == old(effects)@.len() + given.len() - rest@.len(),
                forall|j: int| 0 <= j < old(effects)@.len() ==> effects@[j] == old(effects)@[j],
            decreases rest.len(),
        {
            let ghost done_count = given.len() - rest@.len();
            let ghost current = self.vdom@;
            let ghost registered_before = registries_of(self@);
            let ghost reported_before = effects@;
            let ghost next_before = ids.next;
            let op = rest.pop().unwrap();
            assert(op == given[done_count]);
            assert(op@ == planned[done_count]);
            proof {
                if contains_key(before, key) {
                    lemma_first_exists(before, key);
                    lemma_node_height(before, index_of(before, key));
                }
                if done_count > 0 {
                    assert(planned.len() == 2);
                    assert(planned.take(1) =~= seq![planned[0]]);
                    assert(planned.take(1).drop_last() =~= Seq::<DiffView<T>>::empty());
                    assert(stored(current, key)@ is Button);
                }
            }
            match self.apply(key, op, ids) {
                Ok(effect) => {
                    let ghost reported = effect;
                    effects.push(effect);
                    proof {
                        let next = planned.take(done_count + 1);
                        assert(next.drop_last() =~= planned.take(done_count));
                        assert(next.last() == planned[done_count]);
                        lemma_touches_twice(before, current, self.vdom@, key);
                        let grown = nexts.push(ids.next);
                        let short = all.take(done_count);
                        let long = all.take(done_count + 1);
                        assert(long.drop_last() =~= short);
                        assert(long.last() == (key, planned[done_count]));
                        lemma_registries_agree(registries_of(old(self)@), short, nexts, grown);
                        assert(registered_before == registries_after(
                            registries_of(old(self)@),
                            short,
                            nexts,
                        ));
                        assert forall|j: int| 0 <= j < long.len() implies step_accounted(
        old(self).room,
                            before,
                            self.vdom@,
                            (#[trigger] long[j]).0,
                            long[j].1,
                            grown[j],
                            effects@.skip(offset)[j],
                            grown[j + 1],
                        ) by {
                            if j < done_count {
                                assert(short[j] == long[j]);
                                assert(reported_before.skip(offset)[j] == effects@.skip(offset)[j]);
                                assert(!hands_down(planned[0]));
                                assert(step_accounted(
        old(self).room,
                                    before,
                                    current,
                                    short[j].0,
                                    short[j].1,
                                    nexts[j],
                                    reported_before.skip(offset)[j],
                                    nexts[j + 1],
                                ));
                            } else {
                                assert(effects@.skip(offset)[j] == reported);
                            }
                        }
                        nexts = grown;
                    }
                },
                Err(fault) => {
                    proof {
                        assert(done_count == 0);
                        assert(effects@ =~= old(effects)@);
                        assert(all.take(0) =~= Seq::empty());
                    }
                    return Err(fault);
                },
            }
        }
        proof {
            assert(planned.take(given.len() as int) =~= planned);
            assert(all.take(given.len() as int) =~= all);
            assert(drawn(nexts));
            if !contains_key(before, key) {
                assert(planned =~= seq![DiffView::InsertNode { node }]);
                assert(planned.drop_last() =~= Seq::<DiffView<T>>::empty());
            }
        }
        Ok(())
    }

    /// Reconciles the cache with the new collection `output`: computes the
    /// changes, applies them in order, removes what the output no longer
    /// has, and returns the effects for the backend. An output that holds a
    /// key twice is refused.
    pub fn reconcile(&mut self, output: Vec<(usize, VNode<T>)>, ids: &mut IdSource) -> (done: Result<
        Vec<Effect>,
        Fault,
    >)
        ensures
            final(self).room == old(self).room,
            old(self).wf() ==> final(self).wf(),
            final(self).props == old(self).props,
            final(self).state == old(self).state,
            exists|verdicts: Seq<bool>| #[trigger]
                reconciled_with(
                    old(self)@,
                    old(ids).next,
                    output@,
                    verdicts,
                    done,
                    final(self)@,
                    final(ids).next,
                ),
        decreases old(self).room, old(self).height(), 0nat,
    {
        let ghost before = self.vdom@;
        let ghost given = output@;
        match first_repeat(&output) {
            Some(key) => {
                let done = Err(Fault::Duplicate { key });
                assert(reconciled_with(
                    old(self)@,
                    old(ids).next,
                    given,
                    props_verdicts(before, given),
                    done,
                    self@,
                    ids.next,
                ));
                return done;
            },
            None => {},
        }
        let groups = self.diff(output);
        let ghost found = choose|verdicts: Seq<bool>|
            all_compared(before, given, verdicts) && grouped_changes_view(groups@)
                == diff_model_given(before, given, verdicts);
        let ghost verdicts: Seq<bool> = if T::Props::obeys_eq_spec() {
            props_verdicts(before, given)
        } else {
            found
        };
        proof {
            assert forall|i: int| 0 <= i < given.len() implies entry_compared(
                before,
                (#[trigger] given[i]).0,
                given[i].1@,
                verdicts[i],
            ) by {
                assert(entry_compared(before, given[i].0, given[i].1@, found[i]));
            }
        }
        let ghost plan = diff_model_given(before, given, verdicts);
        assert(grouped_changes_view(groups@) == plan);
        let ghost grouped = groups@;
        let ghost mut nexts = seq![ids.next];
        let mut order: Vec<usize> = Vec::new();
        let mut effects: Vec<Effect> = Vec::new();
        let mut rest = reversed(groups);
        proof {
            assert(plan.take(0) =~= Seq::empty());
            assert(keys_of(given).take(0) =~= order@);
        }
        while rest.len() > 0
            invariant
                rest@.len() <= grouped.len(),
                forall|j: int| 0 <= j < rest@.len() ==> rest@[j] == grouped[grouped.len() - 1 - j],
                grouped.len() == given.len(),
                given == output@,
                verdicts.len() == given.len(),
                all_compared(before, given, verdicts),
                T::Props::obeys_eq_spec() ==> verdicts == props_verdicts(before, given),
                plan == diff_model_given(before, given, verdicts),
                grouped_changes_view(grouped) == plan,
                distinct_keys(given),
                before == old(self).vdom@,
                self.props == old(self).props,
                self.state == old(self).state,
                self.room == old(self).room,
                keeps_handlers(old(self)@, self@),
                order@ == keys_of(given).take(grouped.len() - rest@.len()),
                progressed(before, given, verdicts, self.vdom@, grouped.len() - rest@.len()),
                accounted_by(
                    old(self)@,
                    old(ids).next,
                    flat_changes(plan.take(grouped.len() - rest@.len())),
                    nexts,
                    effects@,
                    self@,
                    ids.next,
                ),
                forall|j: int|
                    0 <= j < flat_changes(plan.take(grouped.len() - rest@.len())).len()
                        ==> earlier_key(
                        given,
                        grouped.len() - rest@.len(),
                        (#[trigger] flat_changes(plan.take(grouped.len() - rest@.len()))[j]).0,
                    ),
                effects@.len() == flat_changes(plan.take(grouped.len() - rest@.len())).len(),
            decreases rest.len(),
        {
            let ghost at = grouped.len() - rest@.len();
            let ghost current = self.vdom@;
            let ghost reported = effects@;
            let ghost was = self@;
            let ghost next_before = ids.next;
            let group = rest.pop().unwrap();
            assert(group == grouped[at]);
            let key = group.0;
            let ops = group.1;
            proof {
                assert(grouped_changes_view(grouped)[at] == plan[at]);
                assert(key == given[at].0);
                assert(changes_view(ops@) == entry_diff_given(
                    before,
                    key,
                    given[at].1@,
                    verdicts[at],
                ));
                lemma_untouched_entry(before, given, verdicts, current, at, at);
                if contains_key(before, key) {
                    lemma_first_exists(before, key);
                    lemma_node_height(before, index_of(before, key));
                }
            }
            order.push(key);
            match self.apply_group(
                key,
                ops,
                ids,
                &mut effects,
                Ghost(given[at].1@),
                Ghost(verdicts[at]),
            ) {
                Ok(()) => {},
                Err(fault) => {
                    let done = Err(fault);
                    proof {
                        assert(given[at].0 == key);
                        let flat = flat_changes(plan);
                        let done_before = flat_changes(plan.take(at));
                        let next_group = plan.take(at + 1);
                        assert(next_group.drop_last() =~= plan.take(at));
                        assert(next_group.last() == plan[at]);
                        let group = tagged(plan[at].0, plan[at].1);
                        assert(flat_changes(next_group) == done_before + group);
                        lemma_flat_prefix(plan, at + 1);
                        let long = flat_changes(next_group);
                        assert(plan[at].1.len() == 1);
                        assert(group.len() == 1);
                        assert(long[done_before.len() as int] == group[0]);
                        assert(flat[done_before.len() as int] == long[done_before.len() as int]);
                        assert(flat.take(done_before.len() as int) =~= done_before) by {
                            assert forall|j: int| 0 <= j < done_before.len() implies flat[j]
                                == done_before[j] by {
                                assert(flat_changes(next_group)[j] == done_before[j]);
                            }
                        }
                        if fault is Child {
                            assert forall|j: int| 0 <= j < done_before.len() implies step_accounted(
                                old(self).room,
                                before,
                                self.vdom@,
                                (#[trigger] done_before[j]).0,
                                done_before[j].1,
                                nexts[j],
                                effects@[j],
                                nexts[j + 1],
                            ) by {
                                assert(earlier_key(given, at, done_before[j].0));
                                let earlier = choose|earlier: int|
                                    0 <= earlier < at && (#[trigger] given[earlier]).0
                                        == done_before[j].0;
                                assert(given[earlier].0 != given[at].0);
                                lemma_step_moves(
                                    old(self).room,
                                    before,
                                    current,
                                    self.vdom@,
                                    done_before[j].0,
                                    done_before[j].1,
                                    nexts[j],
                                    effects@[j],
                                    nexts[j + 1],
                                );
                            }
                            lemma_failed_rebased(
                                old(self).room,
                                current,
                                before,
                                self.vdom@,
                                key,
                                group[0].1,
                                next_before,
                                *fault->fault,
                                ids.next,
                            );
                        } else {
                            assert(self.vdom@ == current);
                            assert(mounts(group[0].1));
                        }
                        assert(failed_at(done_before.len() as int, nexts, effects@));
                        assert(accounted_by(
                            old(self)@,
                            old(ids).next,
                            flat.take(done_before.len() as int),
                            nexts,
                            effects@,
                            self@,
                            nexts[done_before.len() as int],
                        ));
                        assert(reconciled(before, given, verdicts, done, self.vdom@));
                        assert(reconciled_with(
                            old(self)@,
                            old(ids).next,
                            given,
                            verdicts,
                            done,
                            self@,
                            ids.next,
                        ));
                    }
                    return done;
                },
            }
            proof {
                lemma_progress(before, given, verdicts, current, self.vdom@, at);
                assert(order@ =~= keys_of(given).take(at + 1));
                let next = plan.take(at + 1);
                assert(next.drop_last() =~= plan.take(at));
                assert(next.last() == plan[at]);
                let flat = flat_changes(next);
                let tagged = tagged(plan[at].0, plan[at].1);
                assert(flat == flat_changes(plan.take(at)) + tagged);
                let done_before = flat_changes(plan.take(at));
                let group_nexts = choose|group_nexts: Seq<usize>|
                    #[trigger] drawn(group_nexts) && accounted_by(
                        was,
                        next_before,
                        tagged,
                        group_nexts,
                        effects@.skip(reported.len() as int),
                        self@,
                        ids.next,
                    );
                let grown = nexts.drop_last() + group_nexts;
                lemma_registries_append(
                    registries_of(old(self)@),
                    done_before,
                    nexts,
                    tagged,
                    group_nexts,
                );
                assert(registries_of(was) == registries_after(
                    registries_of(old(self)@),
                    done_before,
                    nexts,
                ));
                assert forall|j: int| 0 <= j < flat.len() implies step_accounted(
        old(self).room,
                    before,
                    self.vdom@,
                    (#[trigger] flat[j]).0,
                    flat[j].1,
                    grown[j],
                    effects@[j],
                    grown[j + 1],
                ) && earlier_key(given, at + 1, flat[j].0) by {
                    if j < done_before.len() {
                        assert(flat[j] == done_before[j]);
                        assert(effects@[j] == reported[j]);
                        assert(earlier_key(given, at, done_before[j].0));
                        let earlier = choose|earlier: int|
                            0 <= earlier < at && (#[trigger] given[earlier]).0 == done_before[j].0;
                        assert(given[earlier].0 != given[at].0);
                        lemma_step_moves(
        old(self).room,
                            before,
                            current,
                            self.vdom@,
                            done_before[j].0,
                            done_before[j].1,
                            nexts[j],
                            reported[j],
                            nexts[j + 1],
                        );
                    } else {
                        let h = j - done_before.len();
                        assert(flat[j] == tagged[h]);
                        assert(effects@.skip(reported.len() as int)[h] == effects@[j]);
                        assert(given[at].0 == key);
                        lemma_step_rebased(
        old(self).room,
                            current,
                            before,
                            self.vdom@,
                            key,
                            tagged[h].1,
                            group_nexts[h],
                            effects@[j],
                            group_nexts[h + 1],
                        );
                    }
                }
                nexts = grown;
            }
        }
        let ghost applied = self.vdom@;
        let ghost applied_all = self@;
        let ghost flat = flat_changes(plan);
        let ghost changed = effects@;
        proof {
            assert(plan.take(grouped.len() as int) =~= plan);
            assert(keys_of(given).take(grouped.len() as int) =~= keys_of(given));
        }
        let gone = evict_from(&mut self.vdom, &order);
        proof {
            assert forall|j: int| before.len() <= j < applied.len() implies keys_of(given).contains(
                (#[trigger] applied[j]).0,
            ) by {
                lemma_keys_of(given, applied[j].0);
            }
            lemma_evicted(before, applied, keys_of(given));
            assert(gone@ == dropped(before, keys_of(given)));
        }
        let mut i: usize = 0;
        while i < gone.len()
            invariant
                i <= gone.len(),
                effects@.len() == flat.len() + i,
                changed.len() == flat.len(),
                forall|j: int| 0 <= j < flat.len() ==> effects@[j] == changed[j],
                forall|j: int|
                    0 <= j < i ==> #[trigger] effects@[flat.len() + j] == (Effect::Remove {
                        key: gone@[j],
                    }),
            decreases gone.len() - i,
        {
            effects.push(Effect::Remove { key: gone[i] });
            i += 1;
        }
        effects.push(Effect::Layout { order });
        let done = Ok(effects);
        proof {
            assert(drawn(nexts));
            assert forall|j: int| 0 <= j < flat.len() implies step_accounted(
        old(self).room,
                before,
                self.vdom@,
                (#[trigger] flat[j]).0,
                flat[j].1,
                nexts[j],
                effects@[j],
                nexts[j + 1],
            ) by {
                assert(effects@[j] == changed[j]);
                assert(earlier_key(given, given.len() as int, flat[j].0));
                lemma_retained(applied, keys_of(given), flat[j].0);
                lemma_keys_of(given, flat[j].0);
                if flat[j].1 is UpdatePropsFrom {
                    assert(contains_key(applied, flat[j].0));
                }
                lemma_step_moves(
        old(self).room,
                    before,
                    applied,
                    self.vdom@,
                    flat[j].0,
                    flat[j].1,
                    nexts[j],
                    changed[j],
                    nexts[j + 1],
                );
            }
            assert(accounted_by(
                old(self)@,
                old(ids).next,
                flat,
                nexts,
                effects@,
                self@,
                ids.next,
            ));
            assert(reconciled(before, given, verdicts, done, self.vdom@)) by {
                assert forall|key: usize| contains_key(self.vdom@, key) <==> contains_key(
                    given,
                    key,
                ) by {
                    lemma_retained(applied, keys_of(given), key);
                    lemma_keys_of(given, key);
                }
                assert forall|i: int| 0 <= i < given.len() implies settled(
                    before,
                    (#[trigger] given[i]).0,
                    given[i].1@,
                    verdicts[i],
                    stored(self.vdom@, given[i].0),
                ) by {
                    lemma_retained(applied, keys_of(given), given[i].0);
                    lemma_keys_of(given, given[i].0);
                }
                if distinct_keys(before) {
                    lemma_retained_distinct(applied, keys_of(given));
                }
            }
        }
        assert(reconciled_with(
            old(self)@,
            old(ids).next,
            given,
            verdicts,
            done,
            self@,
            ids.next,
        ));
        done
    }

    /// Reconciles the cache with a new list of nodes that have no keys:
    /// each node goes under its position, so that it is compared with the
    /// node that stood at its place before. Such an output is never
    /// refused.
    pub fn reconcile_positional(&mut self, nodes: Vec<VNode<T>>, ids: &mut IdSource) -> (done: Result<
        Vec<Effect>,
        Fault,
    >)
        ensures
            final(self).room == old(self).room,
            old(self).wf() ==> final(self).wf(),
            final(self).props == old(self).props,
            final(self).state == old(self).state,
            !(done matches Err(Fault::Duplicate { .. })),
            exists|verdicts: Seq<bool>| #[trigger]
                reconciled_with(
                    old(self)@,
                    old(ids).next,
                    positions(nodes@),
                    verdicts,
                    done,
                    final(self)@,
                    final(ids).next,
                ),
    {
        let output = positional(nodes);
        self.reconcile(output, ids)
    }

    /// Renders: asks the component for the nodes of the current props and
    /// state and reconciles the cache with them. Props and state stay as
    /// they are.
    pub fn render(&mut self, ids: &mut IdSource) -> (done: Result<Vec<Effect>, Fault>)
        ensures
            final(self).room == old(self).room,
            old(self).wf() ==> final(self).wf(),
            final(self).props == old(self).props,
            final(self).state == old(self).state,
            rendered(old(self)@, old(ids).next, done, final(self)@, final(ids).next),
        decreases old(self).room, old(self).height(), 1nat,
    {
        let output = T::render(&self.props, &self.state);
        let ghost given = output;
        let done = self.reconcile(output, ids);
        proof {
            let verdicts = choose|verdicts: Seq<bool>| #[trigger]
                reconciled_with(
                    old(self)@,
                    old(ids).next,
                    given@,
                    verdicts,
                    done,
                    self@,
                    ids.next,
                );
            assert(considered(given, verdicts));
            assert(rendered_with(
                old(self)@,
                old(ids).next,
                given,
                verdicts,
                done,
                self@,
                ids.next,
            ));
        }
        done
    }

    /// The first render of an instance. It establishes the primitives from
    /// the cache as it is: from nothing, for an instance that was not
    /// rendered before.
    pub fn mount(&mut self, ids: &mut IdSource) -> (done: Result<Vec<Effect>, Fault>)
        ensures
            final(self).room == old(self).room,
            old(self).wf() ==> final(self).wf(),
            final(self).props == old(self).props,
            final(self).state == old(self).state,
            rendered(old(self)@, old(ids).next, done, final(self)@, final(ids).next),
        decreases old(self).room, old(self).height(), 2nat,
    {
        self.render(ids)
    }

    /// Replaces the props and renders. The state stays as it is.
    pub fn update_props(&mut self, props: T::Props, ids: &mut IdSource) -> (done: Result<
        Vec<Effect>,
        Fault,
    >)
        ensures
            final(self).room == old(self).room,
            old(self).wf() ==> final(self).wf(),
            final(self).props == props,
            final(self).state == old(self).state,
            rendered(
                with_props(old(self)@, props),
                old(ids).next,
                done,
                final(self)@,
                final(ids).next,
            ),
        decreases old(self).room, old(self).height(), 2nat,
    {
        self.props = props;
        self.render(ids)
    }

    /// Takes the props of `other`, keeps the state, and renders.
    pub fn update_props_from(&mut self, other: Box<ComponentWrapper<T>>, ids: &mut IdSource) -> (done:
        Result<Vec<Effect>, Fault>)
        ensures
            final(self).room == old(self).room,
            old(self).wf() ==> final(self).wf(),
            final(self).props == other.props,
            final(self).state == old(self).state,
            rendered(
                with_props(old(self)@, other.props),
                old(ids).next,
                done,
                final(self)@,
                final(ids).next,
            ),
        decreases old(self).room, old(self).height(), 3nat,
    {
        let other = *other;
        self.update_props(other.props, ids)
    }
}

/// Whether a change reaches a nested instance: it hands new props to one,
/// or it puts an embedded component in the cache, whose instance is then
/// mounted.
pub open spec fn hands_down<T: Component>(change: DiffView<T>) -> bool {
    match change {
        DiffView::UpdatePropsFrom { .. } => true,
        DiffView::InsertNode { node } => node is Custom,
        DiffView::ReplaceWith { node } => node is Custom,
        _ => false,
    }
}

/// Whether a change puts an embedded component in the cache.
pub open spec fn mounts<T: Component>(change: DiffView<T>) -> bool {
    hands_down(change) && !(change is UpdatePropsFrom)
}

/// An instance with other room for nesting.
pub open spec fn with_room<T: Component>(instance: InstanceView<T>, room: usize) -> InstanceView<T> {
    InstanceView { room, ..instance }
}

/// The nested instance as it is when a change hands it down for a render,
/// in an instance with the room `room` and the cache `before`: the cached
/// instance with the new props and the room of its owner, or the new
/// instance with one level less.
pub open spec fn handed_down<T: Component>(
    room: usize,
    before: Seq<(usize, VNode<T>)>,
    key: usize,
    change: DiffView<T>,
) -> InstanceView<T> {
    match change {
        DiffView::UpdatePropsFrom { component } => with_room(
            with_props(stored(before, key)->Custom_0.renderable@, component.renderable.props),
            room,
        ),
        DiffView::InsertNode { node } => with_room(
            node->component.renderable@,
            (room - 1) as usize,
        ),
        DiffView::ReplaceWith { node } => with_room(
            node->component.renderable@,
            (room - 1) as usize,
        ),
        _ => arbitrary(),
    }
}

/// Whether an effect is the one by which a change that reaches a nested
/// instance reports the effects `effects` of that instance's render under
/// `key`.
pub open spec fn reports<T: Component>(
    effect: Effect,
    key: usize,
    change: DiffView<T>,
    effects: Vec<Effect>,
) -> bool {
    match change {
        DiffView::UpdatePropsFrom { .. } => effect == (Effect::Child { key, effects }),
        DiffView::InsertNode { .. } => effect == (Effect::Mount { key, effects }),
        _ => effect == (Effect::Remount { key, effects }),
    }
}

/// The effects of a nested instance's render that an effect reports.
pub open spec fn reported<T: Component>(effect: Effect) -> Vec<Effect> {
    match effect {
        Effect::Child { effects, .. } => effects,
        Effect::Mount { effects, .. } => effects,
        Effect::Remount { effects, .. } => effects,
        _ => arbitrary(),
    }
}

/// Whether a change that reaches a nested instance can do so in an
/// instance with the room `room` and the cache `before`: new props need
/// the cached instance, and a new instance needs room for one more level.
pub open spec fn can_hand_down<T: Component>(
    room: usize,
    before: Seq<(usize, VNode<T>)>,
    key: usize,
    change: DiffView<T>,
) -> bool {
    if change is UpdatePropsFrom {
        contains_key(before, key) && stored(before, key) is Custom
    } else {
        room > 0
    }
}

/// What holds of one change of a render, applied under `key` when `next`
/// was the next identifier and `next_after` the one after it, with the
/// effect `effect`, where `room` is the room of the instance and `before`
/// and `after` are the caches before and after the render.
///
/// A change that reaches no nested instance has the effect that
/// `local_effect` gives, and draws an identifier if it needs one. A change
/// that reaches a nested instance reports the effects of that instance's
/// render: from what the cached instance was, with the new props, or from
/// the new instance, to what the instance under the key is.
pub open spec fn step_accounted<T: Component>(
    room: usize,
    before: Seq<(usize, VNode<T>)>,
    after: Seq<(usize, VNode<T>)>,
    key: usize,
    change: DiffView<T>,
    next: usize,
    effect: Effect,
    next_after: usize,
) -> bool
    decreases room, cache_height(before), 0nat,
{
    if hands_down(change) {
        &&& can_hand_down(room, before, key, change)
        &&& reports(effect, key, change, reported::<T>(effect))
        &&& stored(after, key) matches VNode::Custom(kept)
        &&& {
            proof {
                if change is UpdatePropsFrom {
                    lemma_first_exists(before, key);
                    lemma_node_height(before, index_of(before, key));
                }
            }
            rendered(
                handed_down(room, before, key, change),
                next,
                Ok(reported::<T>(effect)),
                kept.renderable@,
                next_after,
            )
        }
    } else {
        effect == local_effect(key, change, next) && next_after == next_after_change(change, next)
    }
}

/// What holds of the change of a render that met the fault `fault` of a
/// nested instance, applied under `key` when `next` was the next
/// identifier: the change reached the instance nested under `key`, and
/// `fault` is the fault of that instance's render.
pub open spec fn step_failed<T: Component>(
    room: usize,
    before: Seq<(usize, VNode<T>)>,
    after: Seq<(usize, VNode<T>)>,
    key: usize,
    change: DiffView<T>,
    next: usize,
    fault: Fault,
    next_after: usize,
) -> bool
    decreases room, cache_height(before), 0nat,
{
    &&& hands_down(change)
    &&& can_hand_down(room, before, key, change)
    &&& stored(after, key) matches VNode::Custom(kept)
    &&& {
        proof {
            if change is UpdatePropsFrom {
                lemma_first_exists(before, key);
                lemma_node_height(before, index_of(before, key));
            }
        }
        rendered(
            handed_down(room, before, key, change),
            next,
            Err(fault),
            kept.renderable@,
            next_after,
        )
    }
}

/// Names the place of the change at which a render met a fault, the
/// identifiers before each change up to there, and the effects of the
/// changes before it. It holds of all of them: statements about some
/// render that met a fault are found by it.
pub open spec fn failed_at(at: int, nexts: Seq<usize>, effects: Seq<Effect>) -> bool {
    true
}

/// Whether the changes `changes` of a render are accounted for by
/// `nexts`, where `nexts[j]` is the next identifier before the change at
/// `j` and the last of `nexts` the one after all changes: every change is
/// as `step_accounted` says, with the effect at its place in `effects`, and
/// the registries hold what the changes registered.
pub open spec fn accounted_by<T: Component>(
    before: InstanceView<T>,
    next: usize,
    changes: Seq<(usize, DiffView<T>)>,
    nexts: Seq<usize>,
    effects: Seq<Effect>,
    after: InstanceView<T>,
    next_after: usize,
) -> bool
    decreases before.room, cache_height(before.cache), 1nat,
{
    &&& nexts.len() == changes.len() + 1
    &&& nexts[0] == next
    &&& nexts[changes.len() as int] == next_after
    &&& effects.len() >= changes.len()
    &&& forall|j: int|
        0 <= j < changes.len() ==> step_accounted(
            before.room,
            before.cache,
            after.cache,
            (#[trigger] changes[j]).0,
            changes[j].1,
            nexts[j],
            effects[j],
            nexts[j + 1],
        )
    &&& same_registries(
        registries_of(after),
        registries_after(registries_of(before), changes, nexts),
    )
}

/// What holds of the registries, the identifiers and the effects of a
/// reconciliation that went from the instance `before` and the next
/// identifier `next` to `after` and `next_after`, where `changes` are all
/// its changes in order.
///
/// Without a fault, every change is accounted for as `step_accounted`
/// says, each from the identifier that the one before it left, and the
/// registries hold what the changes registered. An output that was refused
/// left registries and identifiers as they were. The fault of a nested
/// instance is the fault of that instance's render, as `step_failed` says:
/// the changes before it are accounted for, and nothing was done after it.
/// An instance without room stops at the first change that would mount a
/// nested instance: the changes before it are accounted for, and nothing
/// else was done.
pub open spec fn accounted<T: Component>(
    before: InstanceView<T>,
    next: usize,
    changes: Seq<(usize, DiffView<T>)>,
    done: Result<Vec<Effect>, Fault>,
    after: InstanceView<T>,
    next_after: usize,
) -> bool
    decreases before.room, cache_height(before.cache), 2nat,
{
    match done {
        Ok(effects) => exists|nexts: Seq<usize>|
            {
                &&& #[trigger] drawn(nexts)
                &&& accounted_by(before, next, changes, nexts, effects@, after, next_after)
            },
        Err(Fault::Duplicate { .. }) => same_registries(registries_of(after), registries_of(before))
            && next_after == next,
        Err(Fault::Child { key, fault }) => exists|at: int, nexts: Seq<usize>, effects: Seq<Effect>|
            {
                &&& #[trigger] failed_at(at, nexts, effects)
                &&& 0 <= at < changes.len()
                &&& changes[at].0 == key
                &&& nexts.len() == at + 1
                &&& accounted_by(before, next, changes.take(at), nexts, effects, after, nexts[at])
                &&& step_failed(
                    before.room,
                    before.cache,
                    after.cache,
                    key,
                    changes[at].1,
                    nexts[at],
                    *fault,
                    next_after,
                )
            },
        Err(Fault::TooDeep { key }) => exists|at: int, nexts: Seq<usize>, effects: Seq<Effect>|
            {
                &&& #[trigger] failed_at(at, nexts, effects)
                &&& 0 <= at < changes.len()
                &&& changes[at].0 == key
                &&& mounts(changes[at].1)
                &&& before.room == 0
                &&& nexts.len() == at + 1
                &&& next_after == nexts[at]
                &&& accounted_by(before, next, changes.take(at), nexts, effects, after, next_after)
            },
        Err(_) => true,
    }
}

/// What holds of a reconciliation of the instance `before` with the new
/// collection `output`, when `next` was the next identifier: props and
/// state stay, no registry loses an identifier, a valid instance stays
/// valid, the cache is reconciled as
/// `reconciled` says, and registries, identifiers and effects are accounted
/// for as `accounted` says. Unless the output was refused, `verdicts` are
/// what the comparisons of the props of embedded components gave.
pub open spec fn reconciled_with<T: Component>(
    before: InstanceView<T>,
    next: usize,
    output: Seq<(usize, VNode<T>)>,
    verdicts: Seq<bool>,
    done: Result<Vec<Effect>, Fault>,
    after: InstanceView<T>,
    next_after: usize,
) -> bool
    decreases before.room, cache_height(before.cache), 3nat,
{
    &&& after.props == before.props
    &&& after.state == before.state
    &&& after.room == before.room
    &&& keeps_handlers(before, after)
    &&& distinct_keys(before.cache) ==> distinct_keys(after.cache)
    &&& verdicts.len() == output.len()
    &&& !(done matches Err(Fault::Duplicate { .. })) ==> all_compared(before.cache, output, verdicts)
    &&& T::Props::obeys_eq_spec() ==> verdicts == props_verdicts(before.cache, output)
    &&& reconciled(before.cache, output, verdicts, done, after.cache)
    &&& accounted(
        before,
        next,
        flat_changes(diff_model_given(before.cache, output, verdicts)),
        done,
        after,
        next_after,
    )
}

/// What holds of a render of the instance `before` for which the component
/// returned `output`: the instance was reconciled with `output`. The props
/// of embedded components were compared as `verdicts` says, which is as the
/// props' own `==` has it where that obeys its specification.
pub open spec fn rendered_with<T: Component>(
    before: InstanceView<T>,
    next: usize,
    output: Vec<(usize, VNode<T>)>,
    verdicts: Seq<bool>,
    done: Result<Vec<Effect>, Fault>,
    after: InstanceView<T>,
    next_after: usize,
) -> bool
    decreases before.room, cache_height(before.cache), 4nat,
{
    &&& call_ensures(T::render, (&before.props, &before.state), output)
    &&& reconciled_with(before, next, output@, verdicts, done, after, next_after)
}

/// What holds of a render of the instance `before`, when `next` was the
/// next identifier: the component returned some output for the props and
/// the state of `before`, and the instance was reconciled with it.
pub open spec fn rendered<T: Component>(
    before: InstanceView<T>,
    next: usize,
    done: Result<Vec<Effect>, Fault>,
    after: InstanceView<T>,
    next_after: usize,
) -> bool
    decreases before.room, cache_height(before.cache), 5nat,
{
    exists|output: Vec<(usize, VNode<T>)>, verdicts: Seq<bool>|
        {
            &&& #[trigger] considered(output, verdicts)
            &&& rendered_with(before, next, output, verdicts, done, after, next_after)
        }
}

/// An instance with other props.
pub open spec fn with_props<T: Component>(instance: InstanceView<T>, props: T::Props) -> InstanceView<
    T,
> {
    InstanceView { props, ..instance }
}

/// What holds of the cache `now` when the first `done` entries of `output`
/// have been reconciled with the cache `before`: those entries are settled,
/// the others are as they were, and every key is one that was there or one
/// of those entries.
spec fn progressed<T: Component>(
    before: Seq<(usize, VNode<T>)>,
    output: Seq<(usize, VNode<T>)>,
    verdicts: Seq<bool>,
    now: Seq<(usize, VNode<T>)>,
    done: int,
) -> bool {
    &&& 0 <= done <= output.len()
    &&& forall|i: int|
        0 <= i < done ==> contains_key(now, (#[trigger] output[i]).0) && settled(
            before,
            output[i].0,
            output[i].1@,
            verdicts[i],
            stored(now, output[i].0),
        )
    &&& forall|i: int|
        done <= i < output.len() ==> (contains_key(now, (#[trigger] output[i]).0) <==> contains_key(
            before,
            output[i].0,
        ))
    &&& forall|i: int|
        done <= i < output.len() && contains_key(before, (#[trigger] output[i]).0) ==> stored(
            now,
            output[i].0,
        ) == stored(before, output[i].0)
    &&& forall|key: usize| contains_key(before, key) ==> contains_key(now, key)
    &&& now.len() >= before.len()
    &&& forall|j: int| 0 <= j < before.len() ==> (#[trigger] now[j]).0 == before[j].0
    &&& forall|j: int|
        before.len() <= j < now.len() ==> exists|i: int|
            0 <= i < done && (#[trigger] output[i]).0 == (#[trigger] now[j]).0
    &&& distinct_keys(before) ==> distinct_keys(now)
}

/// A cache with a node placed under a key holds that node under the key. Its
/// other keys are those it had, at the places they had; where no key
/// occurred twice, none does now.
pub proof fn lemma_placed<T: Component>(cache: Seq<(usize, VNode<T>)>, key: usize, node: VNode<T>)
    ensures
        contains_key(placed(cache, key, node), key),
        stored(placed(cache, key, node), key) == node,
        forall|other: usize|
            other != key ==> contains_key(placed(cache, key, node), other) == contains_key(
                cache,
                other,
            ),
        forall|other: usize|
            other != key && contains_key(cache, other) ==> index_of(
                placed(cache, key, node),
                other,
            ) == index_of(cache, other) && stored(placed(cache, key, node), other) == stored(
                cache,
                other,
            ),
        distinct_keys(cache) ==> distinct_keys(placed(cache, key, node)),
        touches_only(cache, placed(cache, key, node), key),
{
    let after = placed(cache, key, node);
    if contains_key(cache, key) {
        lemma_first_exists(cache, key);
    }
    let at = if contains_key(cache, key) {
        index_of(cache, key)
    } else {
        cache.len() as int
    };
    assert(after[at] == (key, node));
    assert forall|i: int| 0 <= i < after.len() && i != at implies (#[trigger] after[i]) == cache[i] by {}
    assert forall|j: int| 0 <= j < at implies (#[trigger] after[j]).0 != key by {
        assert(after[j] == cache[j]);
        if !contains_key(cache, key) {
            assert(cache[j].0 != key);
        }
    }
    assert(is_first(after, key, at));
    lemma_index_of(after, key, at);
    assert forall|other: usize| other != key implies contains_key(after, other) == contains_key(
        cache,
        other,
    ) by {
        if contains_key(cache, other) {
            let i = choose|i: int| 0 <= i < cache.len() && (#[trigger] cache[i]).0 == other;
            assert(after[i].0 == other);
        }
        if contains_key(after, other) {
            let i = choose|i: int| 0 <= i < after.len() && (#[trigger] after[i]).0 == other;
            assert(cache[i].0 == other);
        }
    }
    assert forall|other: usize| other != key && contains_key(cache, other) implies index_of(
        after,
        other,
    ) == index_of(cache, other) && stored(after, other) == stored(cache, other) by {
        lemma_first_exists(cache, other);
        let i = index_of(cache, other);
        assert(after[i] == cache[i]);
        assert forall|j: int| 0 <= j < i implies (#[trigger] after[j]).0 != other by {
            if j != at {
                assert(after[j] == cache[j]);
            }
        }
        assert(is_first(after, other, i));
        lemma_index_of(after, other, i);
    }
    if distinct_keys(cache) {
        assert forall|i: int, j: int| 0 <= i < j < after.len() implies (#[trigger] after[i]).0 != (
        #[trigger] after[j]).0 by {
            if contains_key(cache, key) {
                assert(after[i].0 == cache[i].0);
                assert(after[j].0 == cache[j].0);
            } else {
                if j < cache.len() {
                    assert(after[i].0 == cache[i].0);
                    assert(after[j].0 == cache[j].0);
                } else {
                    assert(after[i] == cache[i]);
                }
            }
        }
    }
}

/// Every node of a cache is at most as high as the cache.
pub proof fn lemma_node_height<T: Component>(cache: Seq<(usize, VNode<T>)>, i: int)
    requires
        0 <= i < cache.len(),
    ensures
        node_height(cache[i].1) <= cache_height(cache),
    decreases cache.len(),
{
    if i < cache.len() - 1 {
        lemma_node_height(cache.drop_last(), i);
    }
}

/// The changes that lead from one node to another have one of a few shapes:
/// none, one change, or a new caption followed by a new click handler. Every
/// one of them fits the node it was computed for, and all of them together
/// give the new node, unless they hand new props to a reused instance.
pub open spec fn diff_shape<T: Component>(a: NodeView<T>, b: NodeView<T>, verdict: bool) -> bool {
    let changes = node_diff_given(a, b, verdict);
    &&& changes.len() <= 2
    &&& changes.len() >= 1 ==> fits(changes[0], a)
    &&& changes.len() == 2 ==> changes[0] is UpdateButtonText && changes[1] is UpdateButtonClick
        && a is Button
    &&& changes.len() >= 1 && changes[0] is UpdatePropsFrom ==> changes.len() == 1 && !verdict && (b
        matches NodeView::Custom { component } && changes[0] == (DiffView::UpdatePropsFrom {
        component,
    }) && (a matches NodeView::Custom { component: cached } && same_component(cached, component)))
    &&& changes.len() == 0 ==> a == b || (verdict && (b matches NodeView::Custom { component } && (a
        matches NodeView::Custom { component: cached } && same_component(cached, component))))
    &&& changes.len() >= 1 && !(changes[0] is UpdatePropsFrom) ==> patched_all(a, changes) == b && !(
    b matches NodeView::Custom { component } && (a matches NodeView::Custom { component: cached }
        && same_component(cached, component)))
    &&& changes.len() == 2 ==> patched(a, changes[0]) is Button
}

/// The changes that lead from one node to another have the shape that
/// `diff_shape` describes.
pub proof fn lemma_diff_settles<T: Component>(a: NodeView<T>, b: NodeView<T>, verdict: bool)
    ensures
        diff_shape(a, b, verdict),
{
    let changes = node_diff_given(a, b, verdict);
    if changes.len() == 1 {
        assert(changes.drop_last() =~= Seq::<DiffView<T>>::empty());
        assert(patched_all(a, changes.drop_last()) == a);
    } else if changes.len() == 2 {
        assert(changes.drop_last() =~= seq![changes[0]]);
        assert(changes.drop_last().drop_last() =~= Seq::<DiffView<T>>::empty());
        assert(patched_all(a, changes.drop_last().drop_last()) == a);
        assert(patched_all(a, changes.drop_last()) == patched(a, changes[0]));
    }
    match (a, b) {
        (
            NodeView::Select { options: old_options, select: old_select },
            NodeView::Select { options, select },
        ) => {
            if changes.len() == 0 {
                assert(old_options =~= options);
            }
        },
        (NodeView::Label { text: old_text }, NodeView::Label { text }) => {
            if changes.len() == 0 {
                assert(old_text =~= text);
            }
        },
        (NodeView::Text { text: old_text }, NodeView::Text { text }) => {
            if changes.len() == 0 {
                assert(old_text =~= text);
            }
        },
        (
            NodeView::Button { click: old_click, text: old_text },
            NodeView::Button { click, text },
        ) => {
            if changes.len() == 0 {
                assert(old_text =~= text);
            }
        },
        (
            NodeView::TextInput { change: old_change, initial_value: old_value },
            NodeView::TextInput { change, initial_value },
        ) => {
            if changes.len() == 0 {
                assert(old_value =~= initial_value);
            }
        },
        _ => {},
    }
}

/// A cache that changed only under `key`, twice, changed only under `key`.
proof fn lemma_touches_twice<T: Component>(
    first: Seq<(usize, VNode<T>)>,
    second: Seq<(usize, VNode<T>)>,
    third: Seq<(usize, VNode<T>)>,
    key: usize,
)
    requires
        touches_only(first, second, key),
        touches_only(second, third, key),
    ensures
        touches_only(first, third, key),
{
    assert forall|j: int| 0 <= j < first.len() implies (#[trigger] third[j]).0 == first[j].0 by {
        assert(second[j].0 == first[j].0);
    }
    assert forall|j: int| first.len() <= j < third.len() implies (#[trigger] third[j]).0 == key by {
        if j < second.len() {
            assert(second[j].0 == key);
        }
    }
}

/// A key is among the keys of a collection exactly when the collection
/// holds it.
pub proof fn lemma_keys_of<V>(entries: Seq<(usize, V)>, key: usize)
    ensures
        keys_of(entries).contains(key) <==> contains_key(entries, key),
{
    if keys_of(entries).contains(key) {
        let i = choose|i: int| 0 <= i < keys_of(entries).len() && keys_of(entries)[i] == key;
        assert(entries[i].0 == key);
    }
    if contains_key(entries, key) {
        let i = choose|i: int| 0 <= i < entries.len() && (#[trigger] entries[i]).0 == key;
        assert(keys_of(entries)[i] == key);
    }
}

/// While the entries before `done` are reconciled, the entry at `i`, which
/// is not before `done`, has in the cache what it had, so that its changes
/// are those that were computed for it.
proof fn lemma_untouched_entry<T: Component>(
    before: Seq<(usize, VNode<T>)>,
    output: Seq<(usize, VNode<T>)>,
    verdicts: Seq<bool>,
    now: Seq<(usize, VNode<T>)>,
    done: int,
    i: int,
)
    requires
        progressed(before, output, verdicts, now, done),
        done <= i < output.len(),
    ensures
        entry_diff_given(now, output[i].0, output[i].1@, verdicts[i]) == entry_diff_given(
            before,
            output[i].0,
            output[i].1@,
            verdicts[i],
        ),
        target_height(now, output[i].0) == target_height(before, output[i].0),
        reuses(now, output[i].0, output[i].1@) == reuses(before, output[i].0, output[i].1@),
{
    let key = output[i].0;
    assert(contains_key(now, output[i].0) <==> contains_key(before, output[i].0));
    if contains_key(before, key) {
        assert(stored(now, output[i].0) == stored(before, output[i].0));
    }
}

/// When the entry at `done` has been reconciled, and nothing but its key
/// was touched, one more entry is reconciled.
proof fn lemma_progress<T: Component>(
    before: Seq<(usize, VNode<T>)>,
    output: Seq<(usize, VNode<T>)>,
    verdicts: Seq<bool>,
    was: Seq<(usize, VNode<T>)>,
    now: Seq<(usize, VNode<T>)>,
    done: int,
)
    requires
        distinct_keys(output),
        progressed(before, output, verdicts, was, done),
        done < output.len(),
        touches_only(was, now, output[done].0),
        contains_key(now, output[done].0),
        settled(was, output[done].0, output[done].1@, verdicts[done], stored(now, output[done].0)),
    ensures
        progressed(before, output, verdicts, now, done + 1),
{
    let key = output[done].0;
    lemma_untouched_entry(before, output, verdicts, was, done, done);
    assert(contains_key(was, output[done].0) <==> contains_key(before, output[done].0));
    if contains_key(before, key) {
        assert(stored(was, output[done].0) == stored(before, output[done].0));
    }
    assert(settled(before, key, output[done].1@, verdicts[done], stored(now, key)));
    assert forall|i: int| 0 <= i < done + 1 implies contains_key(now, (#[trigger] output[i]).0)
        && settled(before, output[i].0, output[i].1@, verdicts[i], stored(now, output[i].0)) by {
        if i < done {
            assert(output[i].0 != output[done].0);
            assert(contains_key(was, output[i].0));
        }
    }
    assert forall|i: int| done + 1 <= i < output.len() implies (contains_key(
        now,
        (#[trigger] output[i]).0,
    ) <==> contains_key(before, output[i].0)) by {
        assert(output[done].0 != output[i].0);
    }
    assert forall|i: int|
        done + 1 <= i < output.len() && contains_key(
            before,
            (#[trigger] output[i]).0,
        ) implies stored(now, output[i].0) == stored(before, output[i].0) by {
        assert(output[done].0 != output[i].0);
        assert(contains_key(was, output[i].0));
    }
    assert forall|k: usize| contains_key(before, k) implies contains_key(now, k) by {
        assert(contains_key(was, k));
    }
    assert forall|j: int| 0 <= j < before.len() implies (#[trigger] now[j]).0 == before[j].0 by {
        assert(was[j].0 == before[j].0);
    }
    assert forall|j: int| before.len() <= j < now.len() implies exists|i: int|
        0 <= i < done + 1 && (#[trigger] output[i]).0 == (#[trigger] now[j]).0 by {
        if j < was.len() {
            assert(now[j].0 == was[j].0);
            let i = choose|i: int| 0 <= i < done && (#[trigger] output[i]).0 == was[j].0;
            assert(output[i].0 == now[j].0);
        } else {
            assert(output[done].0 == now[j].0);
        }
    }
}

/// A cache that kept its entries' keys and places, and gained only entries
/// whose keys are kept, drops the keys that it would have dropped before.
pub proof fn lemma_evicted<V>(before: Seq<(usize, V)>, applied: Seq<(usize, V)>, keep: Seq<usize>)
    requires
        applied.len() >= before.len(),
        forall|j: int| 0 <= j < before.len() ==> (#[trigger] applied[j]).0 == before[j].0,
        forall|j: int| before.len() <= j < applied.len() ==> keep.contains((#[trigger] applied[j]).0),
    ensures
        dropped(applied, keep) == dropped(before, keep),
    decreases applied.len(),
{
    if applied.len() > before.len() {
        let front = applied.drop_last();
        assert(keep.contains(applied[applied.len() - 1].0));
        assert forall|j: int| 0 <= j < before.len() implies (#[trigger] front[j]).0
            == before[j].0 by {
            assert(applied[j].0 == before[j].0);
        }
        assert forall|j: int| before.len() <= j < front.len() implies keep.contains(
            (#[trigger] front[j]).0,
        ) by {
            assert(keep.contains(applied[j].0));
        }
        lemma_evicted(before, front, keep);
    } else {
        lemma_dropped_same_keys(applied, before, keep);
    }
}

/// Two collections with the same keys at the same places drop the same keys.
pub proof fn lemma_dropped_same_keys<V>(
    first: Seq<(usize, V)>,
    second: Seq<(usize, V)>,
    keep: Seq<usize>,
)
    requires
        first.len() == second.len(),
        forall|j: int| 0 <= j < first.len() ==> (#[trigger] first[j]).0 == second[j].0,
    ensures
        dropped(first, keep) == dropped(second, keep),
    decreases first.len(),
{
    if first.len() > 0 {
        assert(first.last().0 == first[first.len() - 1].0);
        assert forall|j: int| 0 <= j < first.drop_last().len() implies (
        #[trigger] first.drop_last()[j]).0 == second.drop_last()[j].0 by {
            assert(first[j].0 == second[j].0);
        }
        lemma_dropped_same_keys(first.drop_last(), second.drop_last(), keep);
    }
}

/// Whether `key` is the key of one of the first `done` entries of `output`.
pub open spec fn earlier_key<T: Component>(
    output: Seq<(usize, VNode<T>)>,
    done: int,
    key: usize,
) -> bool {
    exists|i: int| 0 <= i < done && (#[trigger] output[i]).0 == key
}

/// What is accounted for in a change stays so when the cache goes on to
/// another state that holds the same node under the change's key.
pub proof fn lemma_step_moves<T: Component>(
    room: usize,
    before: Seq<(usize, VNode<T>)>,
    was: Seq<(usize, VNode<T>)>,
    now: Seq<(usize, VNode<T>)>,
    key: usize,
    change: DiffView<T>,
    next: usize,
    effect: Effect,
    next_after: usize,
)
    requires
        step_accounted(room, before, was, key, change, next, effect, next_after),
        hands_down(change) ==> stored(now, key) == stored(was, key),
    ensures
        step_accounted(room, before, now, key, change, next, effect, next_after),
{
}

/// What is accounted for in a change that was applied to the cache `from`
/// is accounted for from the cache `before`, where both hold the same node
/// under the change's key.
pub proof fn lemma_step_rebased<T: Component>(
    room: usize,
    from: Seq<(usize, VNode<T>)>,
    before: Seq<(usize, VNode<T>)>,
    now: Seq<(usize, VNode<T>)>,
    key: usize,
    change: DiffView<T>,
    next: usize,
    effect: Effect,
    next_after: usize,
)
    requires
        step_accounted(room, from, now, key, change, next, effect, next_after),
        contains_key(from, key) <==> contains_key(before, key),
        contains_key(before, key) ==> stored(from, key) == stored(before, key),
    ensures
        step_accounted(room, before, now, key, change, next, effect, next_after),
{
}

/// The fault of a change that was applied to the cache `from` is its fault
/// from the cache `before`, where both hold the same node under the
/// change's key.
pub proof fn lemma_failed_rebased<T: Component>(
    room: usize,
    from: Seq<(usize, VNode<T>)>,
    before: Seq<(usize, VNode<T>)>,
    now: Seq<(usize, VNode<T>)>,
    key: usize,
    change: DiffView<T>,
    next: usize,
    fault: Fault,
    next_after: usize,
)
    requires
        step_failed(room, from, now, key, change, next, fault, next_after),
        contains_key(from, key) <==> contains_key(before, key),
        contains_key(before, key) ==> stored(from, key) == stored(before, key),
    ensures
        step_failed(room, before, now, key, change, next, fault, next_after),
{
}

/// The changes of the first groups of a grouped list are the first changes
/// of the whole list.
pub proof fn lemma_flat_prefix<T: Component>(groups: Seq<(usize, Seq<DiffView<T>>)>, count: int)
    requires
        0 <= count <= groups.len(),
    ensures
        flat_changes(groups.take(count)).len() <= flat_changes(groups).len(),
        forall|j: int|
            0 <= j < flat_changes(groups.take(count)).len() ==> flat_changes(groups)[j]
                == #[trigger] flat_changes(groups.take(count))[j],
    decreases groups.len() - count,
{
    if count == groups.len() {
        assert(groups.take(count) =~= groups);
    } else {
        lemma_flat_prefix(groups, count + 1);
        let next = groups.take(count + 1);
        assert(next.drop_last() =~= groups.take(count));
        let short = flat_changes(groups.take(count));
        let long = flat_changes(next);
        assert(long == short + tagged(next.last().0, next.last().1));
        assert forall|j: int| 0 <= j < short.len() implies flat_changes(groups)[j]
            == #[trigger] short[j] by {
            assert(long[j] == short[j]);
        }
    }
}

/// The registries after a list of changes depend on the identifiers before
/// the changes only: two lists of identifiers that agree on those give the
/// same registries.
pub proof fn lemma_registries_agree<T: Component>(
    start: Registries,
    changes: Seq<(usize, DiffView<T>)>,
    first: Seq<usize>,
    second: Seq<usize>,
)
    requires
        forall|j: int| 0 <= j < changes.len() ==> first[j] == second[j],
    ensures
        registries_after(start, changes, first) == registries_after(start, changes, second),
    decreases changes.len(),
{
    if changes.len() > 0 {
        lemma_registries_agree(start, changes.drop_last(), first, second);
    }
}

/// The registries after two lists of changes, one after the other, are
/// those after the second list, from those after the first.
pub proof fn lemma_registries_append<T: Component>(
    start: Registries,
    first: Seq<(usize, DiffView<T>)>,
    first_nexts: Seq<usize>,
    second: Seq<(usize, DiffView<T>)>,
    second_nexts: Seq<usize>,
)
    requires
        first_nexts.len() == first.len() + 1,
        second_nexts.len() == second.len() + 1,
    ensures
        registries_after(start, first + second, first_nexts.drop_last() + second_nexts)
            == registries_after(registries_after(start, first, first_nexts), second, second_nexts),
    decreases second.len(),
{
    let all = first_nexts.drop_last() + second_nexts;
    if second.len() == 0 {
        assert(first + second =~= first);
        lemma_registries_agree(start, first, all, first_nexts);
    } else {
        let shorter = second_nexts.drop_last();
        lemma_registries_append(start, first, first_nexts, second.drop_last(), shorter);
        assert((first + second).drop_last() =~= first + second.drop_last());
        assert((first + second).last() == second.last());
        lemma_registries_agree(
            start,
            first + second.drop_last(),
            all,
            first_nexts.drop_last() + shorter,
        );
        lemma_registries_agree(
            registries_after(start, first, first_nexts),
            second.drop_last(),
            second_nexts,
            shorter,
        );
        assert(all[first.len() + second.len() - 1] == second_nexts[second.len() - 1]);
    }
}

} // verus!
