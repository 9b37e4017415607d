use crate::cache::{contains_key, distinct_keys, dropped, key_set, keys_of, lemma_index_of};
use crate::component::Component;
use crate::diff::{
    diff_model, diff_model_given, entry_diff_given, flat_changes, node_diff, node_diff_given,
    props_verdicts, same_component, same_props, DiffView,
};
use crate::effect::Effect;
use crate::node::{node_eq, NodeView, VNode};
use crate::component::InstanceView;
use crate::render::{
    accounted_by, considered, drawn, lemma_keys_of, mounts, patched, reconciled, reconciled_with,
    registries_of, rendered, rendered_with, reported, reuses, same_registries, settled,
    step_accounted, stored, with_room,
};
use vstd::prelude::*;
use vstd::std_specs::cmp::PartialEqSpec;

verus! {

/// Whether two nodes are of one kind.
pub open spec fn same_kind<T: Component>(a: NodeView<T>, b: NodeView<T>) -> bool {
    match a {
        NodeView::Label { .. } => b is Label,
        NodeView::Button { .. } => b is Button,
        NodeView::TextInput { .. } => b is TextInput,
        NodeView::List { .. } => b is List,
        NodeView::Select { .. } => b is Select,
        NodeView::Text { .. } => b is Text,
        NodeView::Custom { .. } => b is Custom,
    }
}

/// Whether the new node `b` says what the cached node `a` says: the two
/// count as equal.
pub open spec fn unchanged<T: Component>(a: NodeView<T>, b: NodeView<T>) -> bool {
    node_eq(a, b)
}

/// Whether the new collection says what the cache says: every key of the
/// one is a key of the other, and under each key the new node is unchanged.
/// The order of the entries does not matter.
pub open spec fn unchanged_collection<T: Component>(
    cache: Seq<(usize, VNode<T>)>,
    output: Seq<(usize, VNode<T>)>,
) -> bool {
    &&& forall|i: int|
        0 <= i < output.len() ==> contains_key(cache, (#[trigger] output[i]).0) && unchanged(
            stored(cache, output[i].0)@,
            output[i].1@,
        )
    &&& forall|j: int| 0 <= j < cache.len() ==> contains_key(output, (#[trigger] cache[j]).0)
}

/// Whether the props' own `==` holds of every props value and itself.
pub open spec fn reflexive_props<T: Component>() -> bool {
    forall|props: T::Props| #[trigger] props.eq_spec(&props)
}

/// A node needs no change exactly when it says what the cached node says.
pub proof fn law_unchanged_node<T: Component>(a: NodeView<T>, b: NodeView<T>)
    ensures
        unchanged(a, b) <==> node_diff(a, b) == Seq::<DiffView<T>>::empty(),
{
    if unchanged(a, b) {
        assert(node_diff(a, b) =~= Seq::<DiffView<T>>::empty());
    }
    if node_diff(a, b) == Seq::<DiffView<T>>::empty() {
        assert(node_diff(a, b).len() == 0);
        match (a, b) {
            (
                NodeView::Select { options: old_options, select: old_select },
                NodeView::Select { options, select },
            ) => {
                assert(old_options =~= options);
            },
            _ => {},
        }
    }
}

/// A collection that says what the cache says needs no change: the diff of
/// a cache and an unchanged collection is empty, and no key is dropped.
pub proof fn law_unchanged_collection<T: Component>(
    cache: Seq<(usize, VNode<T>)>,
    output: Seq<(usize, VNode<T>)>,
)
    requires
        unchanged_collection(cache, output),
    ensures
        forall|i: int|
            0 <= i < output.len() ==> (#[trigger] diff_model(cache, output)[i]).1 == Seq::<
                DiffView<T>,
            >::empty(),
        flat_changes(diff_model(cache, output)) == Seq::<(usize, DiffView<T>)>::empty(),
        dropped(cache, keys_of(output)) == Seq::<usize>::empty(),
{
    let groups = diff_model(cache, output);
    assert forall|i: int| 0 <= i < output.len() implies (#[trigger] groups[i]).1 == Seq::<
        DiffView<T>,
    >::empty() by {
        assert(contains_key(cache, output[i].0));
        law_unchanged_node(stored(cache, output[i].0)@, output[i].1@);
    }
    lemma_flat_of_empty(groups);
    assert forall|j: int| 0 <= j < cache.len() implies keys_of(output).contains(
        (#[trigger] cache[j]).0,
    ) by {
        lemma_keys_of(output, cache[j].0);
    }
    lemma_nothing_dropped(cache, keys_of(output));
}

/// Idempotence: the diff of a collection and itself is empty.
pub proof fn law_idempotence<T: Component>(collection: Seq<(usize, VNode<T>)>)
    requires
        distinct_keys(collection),
        reflexive_props::<T>(),
    ensures
        flat_changes(diff_model(collection, collection)) == Seq::<(usize, DiffView<T>)>::empty(),
        dropped(collection, keys_of(collection)) == Seq::<usize>::empty(),
{
    assert forall|i: int| 0 <= i < collection.len() implies contains_key(
        collection,
        (#[trigger] collection[i]).0,
    ) && unchanged(stored(collection, collection[i].0)@, collection[i].1@) by {
        assert forall|j: int| 0 <= j < i implies (#[trigger] collection[j]).0
            != collection[i].0 by {}
        lemma_index_of(collection, collection[i].0, i);
        match collection[i].1 {
            VNode::Custom(component) => {
                assert(component.renderable.props.eq_spec(&component.renderable.props));
            },
            _ => {},
        }
    }
    law_unchanged_collection(collection, collection);
}

/// A render whose output says what the cache says asks the backend for
/// nothing but the layout, draws no identifier and registers no handler.
pub proof fn law_idempotent_render<T: Component>(
    before: InstanceView<T>,
    next: usize,
    output: Seq<(usize, VNode<T>)>,
    effects: Vec<Effect>,
    after: InstanceView<T>,
    next_after: usize,
)
    requires
        unchanged_collection(before.cache, output),
        reconciled_with(
            before,
            next,
            output,
            props_verdicts(before.cache, output),
            Ok(effects),
            after,
            next_after,
        ),
    ensures
        effects@.len() == 1,
        is_layout(effects@[0], keys_of(output)),
        next_after == next,
        same_registries(registries_of(after), registries_of(before)),
{
    law_unchanged_collection(before.cache, output);
    let changes = flat_changes(diff_model(before.cache, output));
    let nexts = choose|nexts: Seq<usize>|
        #[trigger] drawn(nexts) && accounted_by(
            before,
            next,
            changes,
            nexts,
            effects@,
            after,
            next_after,
        );
    assert(nexts.len() == 1);
}

/// Idempotence of renders: of two renders in a row that get the same
/// output from the component, the second asks the backend for nothing but
/// the layout, draws no identifier and registers no handler, whatever the
/// cache was before the first.
pub proof fn law_second_render<T: Component>(
    first: InstanceView<T>,
    next: usize,
    output: Seq<(usize, VNode<T>)>,
    first_effects: Vec<Effect>,
    between: InstanceView<T>,
    next_between: usize,
    effects: Vec<Effect>,
    after: InstanceView<T>,
    next_after: usize,
)
    requires
        reflexive_props::<T>(),
        reconciled_with(
            first,
            next,
            output,
            props_verdicts(first.cache, output),
            Ok(first_effects),
            between,
            next_between,
        ),
        reconciled_with(
            between,
            next_between,
            output,
            props_verdicts(between.cache, output),
            Ok(effects),
            after,
            next_after,
        ),
    ensures
        effects@.len() == 1,
        is_layout(effects@[0], keys_of(output)),
        next_after == next_between,
        same_registries(registries_of(after), registries_of(between)),
{
    let verdicts = props_verdicts(first.cache, output);
    assert forall|i: int| 0 <= i < output.len() implies contains_key(
        between.cache,
        (#[trigger] output[i]).0,
    ) && unchanged(stored(between.cache, output[i].0)@, output[i].1@) by {
        assert(contains_key(output, output[i].0));
        let now = stored(between.cache, output[i].0);
        assert(settled(first.cache, output[i].0, output[i].1@, verdicts[i], now));
        match output[i].1 {
            VNode::Custom(component) => {
                assert(component.renderable.props.eq_spec(&component.renderable.props));
                if reuses(first.cache, output[i].0, output[i].1@) && !verdicts[i] {
                    assert(now->Custom_0.renderable.props == component.renderable.props);
                }
            },
            _ => {},
        }
    }
    assert forall|j: int| 0 <= j < between.cache.len() implies contains_key(
        output,
        (#[trigger] between.cache[j]).0,
    ) by {
        assert(contains_key(between.cache, between.cache[j].0));
    }
    law_idempotent_render(between, next_between, output, effects, after, next_after);
}

/// Whether the component's render is a function of the props and the
/// state: two outputs for the same props and state are the same.
pub open spec fn render_is_a_function<T: Component>() -> bool {
    forall|
        props: T::Props,
        state: T::State,
        one: Vec<(usize, VNode<T>)>,
        other: Vec<(usize, VNode<T>)>,
    |
        #[trigger] call_ensures(T::render, (&props, &state), one) && #[trigger] call_ensures(
            T::render,
            (&props, &state),
            other,
        ) ==> one@ == other@
}

/// Idempotence of renders: where the component's render is a function of
/// the props and the state, and the props' own `==` obeys its
/// specification and holds of every value and itself, the second of two
/// renders in a row asks the backend for nothing but the layout, draws no
/// identifier, registers no handler and leaves the cache with the keys it
/// had.
pub proof fn law_render_twice<T: Component>(
    first: InstanceView<T>,
    next: usize,
    first_effects: Vec<Effect>,
    between: InstanceView<T>,
    next_between: usize,
    effects: Vec<Effect>,
    after: InstanceView<T>,
    next_after: usize,
)
    requires
        render_is_a_function::<T>(),
        T::Props::obeys_eq_spec(),
        reflexive_props::<T>(),
        rendered(first, next, Ok(first_effects), between, next_between),
        rendered(between, next_between, Ok(effects), after, next_after),
    ensures
        effects@.len() == 1,
        effects@[0] is Layout,
        next_after == next_between,
        same_registries(registries_of(after), registries_of(between)),
        key_set(after.cache) == key_set(between.cache),
{
    let (output, first_verdicts) = choose|output: Vec<(usize, VNode<T>)>, verdicts: Seq<bool>|
        #[trigger] considered(output, verdicts) && rendered_with(
            first,
            next,
            output,
            verdicts,
            Ok(first_effects),
            between,
            next_between,
        );
    let (again, verdicts) = choose|output: Vec<(usize, VNode<T>)>, verdicts: Seq<bool>|
        #[trigger] considered(output, verdicts) && rendered_with(
            between,
            next_between,
            output,
            verdicts,
            Ok(effects),
            after,
            next_after,
        );
    assert(call_ensures(T::render, (&first.props, &first.state), output));
    assert(call_ensures(T::render, (&first.props, &first.state), again));
    assert(again@ == output@);
    law_second_render(
        first,
        next,
        output@,
        first_effects,
        between,
        next_between,
        effects,
        after,
        next_after,
    );
    law_cache_matches_output(between.cache, output@, verdicts, effects, after.cache);
    law_cache_matches_output(first.cache, output@, first_verdicts, first_effects, between.cache);
}

/// A newly embedded instance is mounted: the change that puts an embedded
/// component in the cache reports the effects of a render of its instance,
/// from the new instance, with one level less room than its owner has, to
/// the instance that the cache holds under the key.
pub proof fn law_embedded_is_mounted<T: Component>(
    room: usize,
    before: Seq<(usize, VNode<T>)>,
    after: Seq<(usize, VNode<T>)>,
    key: usize,
    change: DiffView<T>,
    next: usize,
    effect: Effect,
    next_after: usize,
)
    requires
        mounts(change),
        step_accounted(room, before, after, key, change, next, effect, next_after),
    ensures
        room > 0,
        effect is Mount || effect is Remount,
        stored(after, key) matches VNode::Custom(kept) && (patched(
            stored(before, key)@,
            change,
        ) matches NodeView::Custom { component } && rendered(
            with_room(component.renderable@, (room - 1) as usize),
            next,
            Ok(reported::<T>(effect)),
            kept.renderable@,
            next_after,
        )),
{
}

/// Identity preservation: an embedded component whose key and concrete
/// type are the same in the cache and in the output keeps its instance's
/// state through the render.
pub proof fn law_identity_preserved<T: Component>(
    before: Seq<(usize, VNode<T>)>,
    output: Seq<(usize, VNode<T>)>,
    verdicts: Seq<bool>,
    effects: Vec<Effect>,
    after: Seq<(usize, VNode<T>)>,
    i: int,
)
    requires
        reconciled(before, output, verdicts, Ok(effects), after),
        0 <= i < output.len(),
        reuses(before, output[i].0, output[i].1@),
    ensures
        contains_key(after, output[i].0),
        stored(after, output[i].0) matches VNode::Custom(kept) && (stored(
            before,
            output[i].0,
        ) matches VNode::Custom(cached) && kept.type_id == cached.type_id
            && kept.renderable.state == cached.renderable.state),
{
    assert(contains_key(output, output[i].0));
}

/// The one change that replaces a node by `node`.
pub open spec fn replacement<T: Component>(node: NodeView<T>) -> Seq<DiffView<T>> {
    seq![DiffView::ReplaceWith { node }]
}

/// Whether an effect asks for the layout of the primitives under `order`.
pub open spec fn is_layout(effect: Effect, order: Seq<usize>) -> bool {
    effect matches Effect::Layout { order: asked } && asked@ == order
}

/// Replace on kind change: the changes from a node to a node of another
/// kind are exactly one replacement.
pub proof fn law_replace_on_kind_change<T: Component>(
    a: NodeView<T>,
    b: NodeView<T>,
    equal_props: bool,
)
    requires
        !same_kind(a, b),
    ensures
        node_diff_given(a, b, equal_props) == replacement(b),
{
}

/// Replace on kind change, for a key of a collection: where the cache
/// holds a node of another kind under the key, the entry's changes are
/// exactly one replacement.
pub proof fn law_replace_under_key<T: Component>(
    cache: Seq<(usize, VNode<T>)>,
    key: usize,
    node: NodeView<T>,
    equal_props: bool,
)
    requires
        contains_key(cache, key),
        !same_kind(stored(cache, key)@, node),
    ensures
        entry_diff_given(cache, key, node, equal_props) == replacement(node),
{
}

/// Cache and output consistency: after a render without a fault, the keys
/// of the cache are exactly the keys of the output.
pub proof fn law_cache_matches_output<T: Component>(
    before: Seq<(usize, VNode<T>)>,
    output: Seq<(usize, VNode<T>)>,
    verdicts: Seq<bool>,
    effects: Vec<Effect>,
    after: Seq<(usize, VNode<T>)>,
)
    requires
        reconciled(before, output, verdicts, Ok(effects), after),
    ensures
        key_set(after) == key_set(output),
{
    assert(key_set(after) =~= key_set(output));
}

/// An empty output removes every key of the cache and does nothing else.
pub proof fn law_empty_output<T: Component>(
    before: Seq<(usize, VNode<T>)>,
    verdicts: Seq<bool>,
    effects: Vec<Effect>,
    after: Seq<(usize, VNode<T>)>,
)
    requires
        reconciled(before, Seq::empty(), verdicts, Ok(effects), after),
    ensures
        after.len() == 0,
        effects@.len() == before.len() + 1,
        forall|j: int|
            0 <= j < before.len() ==> #[trigger] effects@[j] == (Effect::Remove {
                key: before[j].0,
            }),
{
    let output = Seq::<(usize, VNode<T>)>::empty();
    let groups = diff_model_given(before, output, verdicts);
    assert(groups =~= Seq::empty());
    assert(flat_changes(groups) =~= Seq::empty());
    lemma_all_dropped(before, keys_of(output));
    assert forall|j: int| 0 <= j < before.len() implies #[trigger] effects@[j] == (Effect::Remove {
        key: before[j].0,
    }) by {
        assert(effects@[0 + j] == (Effect::Remove { key: keys_of(before)[j] }));
    }
    if after.len() > 0 {
        assert(contains_key(after, after[0].0));
        assert(contains_key(output, after[0].0));
    }
}

/// The changes of a grouped list whose groups are all empty are none.
proof fn lemma_flat_of_empty<T: Component>(groups: Seq<(usize, Seq<DiffView<T>>)>)
    requires
        forall|i: int|
            0 <= i < groups.len() ==> (#[trigger] groups[i]).1 == Seq::<DiffView<T>>::empty(),
    ensures
        flat_changes(groups) == Seq::<(usize, DiffView<T>)>::empty(),
    decreases groups.len(),
{
    if groups.len() > 0 {
        let front = groups.drop_last();
        assert forall|i: int| 0 <= i < front.len() implies (#[trigger] front[i]).1 == Seq::<
            DiffView<T>,
        >::empty() by {
            assert(groups[i].1 == Seq::<DiffView<T>>::empty());
        }
        lemma_flat_of_empty(front);
        assert(groups.last() == groups[groups.len() - 1]);
        assert(flat_changes(groups) =~= Seq::empty());
    }
}

/// A collection drops none of its keys when all of them are kept.
proof fn lemma_nothing_dropped<V>(entries: Seq<(usize, V)>, keep: Seq<usize>)
    requires
        forall|i: int| 0 <= i < entries.len() ==> keep.contains((#[trigger] entries[i]).0),
    ensures
        dropped(entries, keep) == Seq::<usize>::empty(),
    decreases entries.len(),
{
    if entries.len() > 0 {
        let front = entries.drop_last();
        assert(keep.contains(entries[entries.len() - 1].0));
        assert forall|i: int| 0 <= i < front.len() implies keep.contains((#[trigger] front[i]).0) by {
            assert(keep.contains(entries[i].0));
        }
        lemma_nothing_dropped(front, keep);
    }
}

/// A collection drops all of its keys, in order, when none is kept.
proof fn lemma_all_dropped<V>(entries: Seq<(usize, V)>, keep: Seq<usize>)
    requires
        keep.len() == 0,
    ensures
        dropped(entries, keep) == keys_of(entries),
    decreases entries.len(),
{
    if entries.len() > 0 {
        lemma_all_dropped(entries.drop_last(), keep);
        assert(dropped(entries, keep) =~= keys_of(entries));
    } else {
        assert(dropped(entries, keep) =~= keys_of(entries));
    }
}

} // verus!
