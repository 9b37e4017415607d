use crate::component::{cache_height, node_height, Component, ComponentWrapper, InstanceView};
use crate::effect::{Effect, Fault};
use crate::ids::IdSource;
use crate::message::{Message, Payload};
use crate::cache::distinct_keys;
use crate::node::VNode;
use crate::render::{
    drawn, keeps_handlers, lemma_node_height, registries_of, rendered, same_registries,
};
use vstd::prelude::*;

verus! {

broadcast use vstd::std_specs::hash::group_hash_axioms;

/// What an instance did with a message: the effects of its own render, if
/// it rendered, and, for each nested instance that it forwarded the message
/// to, the key of that instance and what it did in turn.
#[derive(Debug, PartialEq, Eq)]
pub struct Dispatch {
    pub rendered: Option<Vec<Effect>>,
    pub forwarded: Vec<(usize, Dispatch)>,
}

/// Whether an instance owns an identifier: one of its three registries
/// holds it.
pub open spec fn owns<T: Component>(instance: InstanceView<T>, id: usize) -> bool {
    ||| instance.click_handlers.contains_key(id)
    ||| instance.change_handlers.contains_key(id)
    ||| instance.select_handlers.contains_key(id)
}

/// The keys of the embedded components of a cache, in order.
pub open spec fn custom_keys<T: Component>(cache: Seq<(usize, VNode<T>)>) -> Seq<usize>
    decreases cache.len(),
{
    if cache.len() == 0 {
        Seq::empty()
    } else if cache.last().1 is Custom {
        custom_keys(cache.drop_last()).push(cache.last().0)
    } else {
        custom_keys(cache.drop_last())
    }
}

/// The number of embedded components before the place `at` of a cache: the
/// place of the record of the embedded component at `at` among the records
/// of a forwarded message.
pub open spec fn rank<T: Component>(cache: Seq<(usize, VNode<T>)>, at: int) -> int {
    custom_keys(cache.take(at)).len() as int
}

/// The keys of the nested instances that a message was forwarded to, in order.
pub open spec fn forwarded_keys(forwarded: Seq<(usize, Dispatch)>) -> Seq<usize> {
    forwarded.map_values(|f: (usize, Dispatch)| f.0)
}

/// An instance with another state.
pub open spec fn with_state<T: Component>(instance: InstanceView<T>, state: T::State) -> InstanceView<
    T,
> {
    InstanceView { state, ..instance }
}

/// An instance with another cache.
pub open spec fn with_cache<T: Component>(
    instance: InstanceView<T>,
    cache: Seq<(usize, VNode<T>)>,
) -> InstanceView<T> {
    InstanceView { cache, ..instance }
}

/// Whether two instances have the same props, state and cache, and the same
/// handlers under the same identifiers.
pub open spec fn same_instance<T: Component>(a: InstanceView<T>, b: InstanceView<T>) -> bool {
    &&& a.props == b.props
    &&& a.state == b.state
    &&& a.cache == b.cache
    &&& a.room == b.room
    &&& same_registries(registries_of(a), registries_of(b))
}

/// Whether `after` and `again` are what the component's change handler
/// named by `handler` made of the state `before` and returned, for a text
/// with the characters `value`.
pub open spec fn changed_by<T: Component>(
    handler: usize,
    text: &str,
    value: Seq<char>,
    props: T::Props,
    before: T::State,
    after: T::State,
    again: bool,
) -> bool {
    text@ == value && call_ensures(T::changed, (handler, text, &props, before), (after, again))
}

/// Whether `after` and `again` are what the component's select handler
/// named by `handler` made of the state `before` and returned, for the
/// selected index `index`.
pub open spec fn selected_by<T: Component>(
    handler: usize,
    index: usize,
    props: T::Props,
    before: T::State,
    after: T::State,
    again: bool,
) -> bool {
    call_ensures(T::selected, (handler, index, &props, before), (after, again))
}

/// Names the place at which a forwarded message met a fault, the
/// identifiers before each nested instance up to there, and the records of
/// the nested instances before it. It holds of all of them: statements
/// about some forwarding that met a fault are found by it.
pub open spec fn stopped(at: int, nexts: Seq<usize>, records: Seq<(usize, Dispatch)>) -> bool {
    true
}

/// Names what the forwarding of an application-defined message left: the
/// cache, the next identifier and the outcome, and what the reducer
/// answered after it. It holds of all of them: statements about some
/// forwarding before a reducer are found by it.
pub open spec fn reached<T: Component>(
    between: Seq<(usize, VNode<T>)>,
    next_between: usize,
    forwarded: Result<Seq<(usize, Dispatch)>, Fault>,
    again: bool,
) -> bool {
    true
}

/// What holds of one entry of a cache when a message was forwarded to the
/// instances nested in the cache, where `next` was the next identifier
/// when the entry's turn came and `next_after` the one after it.
///
/// An entry that embeds no component is as it was, and draws no
/// identifier. An embedded component keeps its key and its concrete type,
/// and its instance took the message as `dispatched` says, with the
/// outcome `outcome`.
pub open spec fn entry_forwarded<T: Component>(
    before: (usize, VNode<T>),
    next: usize,
    message: Message<T::Message>,
    outcome: Result<Dispatch, Fault>,
    after: (usize, VNode<T>),
    next_after: usize,
) -> bool
    decreases node_height(before.1), 0nat,
{
    match before.1 {
        VNode::Custom(was) => {
            &&& after.0 == before.0
            &&& after.1 matches VNode::Custom(is)
            &&& is.type_id == was.type_id
            &&& dispatched(was.renderable@, next, message, outcome, is.renderable@, next_after)
        },
        _ => after == before && next_after == next,
    }
}

/// What holds of the first `upto` entries of a cache when a message was
/// forwarded to the instances nested in them, each with success:
/// `nexts[j]` was the next identifier when the turn of the entry at `j`
/// came, and the record of an embedded component stands under its key at
/// its rank among `records`.
pub open spec fn forwarded_upto<T: Component>(
    before: Seq<(usize, VNode<T>)>,
    message: Message<T::Message>,
    upto: int,
    nexts: Seq<usize>,
    records: Seq<(usize, Dispatch)>,
    after: Seq<(usize, VNode<T>)>,
) -> bool
    decreases cache_height(before), 1nat,
{
    forall|j: int|
        0 <= j < upto && j < before.len() ==> {
            proof {
                lemma_node_height(before, j);
            }
            &&& entry_forwarded(
                before[j],
                #[trigger] nexts[j],
                message,
                Ok(records[rank(before, j)].1),
                after[j],
                nexts[j + 1],
            )
            &&& before[j].1 is Custom ==> records[rank(before, j)].0 == before[j].0
        }
}

/// What holds when a message was forwarded to the instances nested in the
/// cache `before`, from the next identifier `next`.
///
/// The message goes to every nested instance, once each, in the order of
/// the cache, whether or not an earlier one handled it; each takes it as
/// `dispatched` says and draws its identifiers after the one before it. The
/// records are those of the nested instances, in order, each under its
/// key. Everything else in the cache is as it was.
///
/// A fault is the fault of the first nested instance that met one, under
/// its key: those before it took the message with success, and those
/// after it are untouched.
pub open spec fn forwarded<T: Component>(
    before: Seq<(usize, VNode<T>)>,
    next: usize,
    message: Message<T::Message>,
    done: Result<Seq<(usize, Dispatch)>, Fault>,
    after: Seq<(usize, VNode<T>)>,
    next_after: usize,
) -> bool
    decreases cache_height(before), 2nat,
{
    &&& after.len() == before.len()
    &&& match done {
        Ok(records) => {
            &&& forwarded_keys(records) == custom_keys(before)
            &&& exists|nexts: Seq<usize>|
                {
                    &&& #[trigger] drawn(nexts)
                    &&& nexts.len() == before.len() + 1
                    &&& nexts[0] == next
                    &&& nexts[before.len() as int] == next_after
                    &&& forwarded_upto(before, message, before.len() as int, nexts, records, after)
                }
        },
        Err(Fault::Child { key, fault }) => exists|
            at: int,
            nexts: Seq<usize>,
            records: Seq<(usize, Dispatch)>,
        |
            {
                &&& #[trigger] stopped(at, nexts, records)
                &&& 0 <= at < before.len()
                &&& before[at].0 == key
                &&& before[at].1 is Custom
                &&& nexts.len() == at + 2
                &&& nexts[0] == next
                &&& nexts[at + 1] == next_after
                &&& forwarded_upto(before, message, at, nexts, records, after)
                &&& {
                    proof {
                        lemma_node_height(before, at);
                    }
                    entry_forwarded(before[at], nexts[at], message, Err(*fault), after[at], next_after)
                }
                &&& forall|j: int| at < j < before.len() ==> #[trigger] after[j] == before[j]
            },
        Err(_) => false,
    }
}

/// What holds when an instance handled a message itself: it rendered with
/// the state that its handler left; it forwarded the message to no nested
/// instance; and a fault is one of its own render.
pub open spec fn handled_here<T: Component>(
    before: InstanceView<T>,
    next: usize,
    done: Result<Dispatch, Fault>,
    after: InstanceView<T>,
    next_after: usize,
) -> bool {
    match done {
        Ok(dispatch) => {
            &&& dispatch.forwarded@.len() == 0
            &&& dispatch.rendered matches Some(effects)
            &&& rendered(with_state(before, after.state), next, Ok(effects), after, next_after)
        },
        Err(fault) => rendered(
            with_state(before, after.state),
            next,
            Err(fault),
            after,
            next_after,
        ),
    }
}

/// The outcome of the forwarding alone in the outcome of a message that was
/// passed on.
pub open spec fn records_of(done: Result<Dispatch, Fault>) -> Result<Seq<(usize, Dispatch)>, Fault> {
    match done {
        Ok(dispatch) => Ok(dispatch.forwarded@),
        Err(fault) => Err(fault),
    }
}

/// What holds when an instance passed a message on: it forwarded it to the
/// instances nested in it as `forwarded` says, did not render, and left its
/// registries as they were.
pub open spec fn passed_on<T: Component>(
    before: InstanceView<T>,
    next: usize,
    message: Message<T::Message>,
    done: Result<Dispatch, Fault>,
    after: InstanceView<T>,
    next_after: usize,
) -> bool
    decreases cache_height(before.cache), 3nat,
{
    &&& same_registries(registries_of(after), registries_of(before))
    &&& done matches Ok(dispatch) ==> dispatch.rendered is None
    &&& forwarded(before.cache, next, message, records_of(done), after.cache, next_after)
}

/// What holds after the instance `before` took a message that asks for a
/// render if `again` holds: then it handled the message itself, and
/// otherwise it passed it on.
pub open spec fn settled_or_passed<T: Component>(
    before: InstanceView<T>,
    next: usize,
    message: Message<T::Message>,
    again: bool,
    done: Result<Dispatch, Fault>,
    after: InstanceView<T>,
    next_after: usize,
) -> bool
    decreases cache_height(before.cache), 4nat,
{
    if again {
        handled_here(before, next, done, after, next_after)
    } else {
        passed_on(before, next, message, done, after, next_after)
    }
}

/// What holds after the instance `before` took the application-defined
/// message `inner`: it forwarded the message to the instances nested in it
/// first, as `forwarded` says, which left the cache `between` and the next
/// identifier `next_between`. A fault of that is the outcome, and the
/// reducer did not run. Otherwise the reducer ran once on the state, and
/// the instance rendered if the reducer asked for it.
pub open spec fn broadcast_first<T: Component>(
    before: InstanceView<T>,
    next: usize,
    message: Message<T::Message>,
    inner: T::Message,
    done: Result<Dispatch, Fault>,
    after: InstanceView<T>,
    next_after: usize,
) -> bool
    decreases cache_height(before.cache), 3nat,
{
    exists|
        between: Seq<(usize, VNode<T>)>,
        next_between: usize,
        passed: Result<Seq<(usize, Dispatch)>, Fault>,
        again: bool,
    |
        {
            &&& #[trigger] reached(between, next_between, passed, again)
            &&& forwarded(before.cache, next, message, passed, between, next_between)
            &&& match passed {
                Err(fault) => {
                    &&& done == Err::<Dispatch, Fault>(fault)
                    &&& same_instance(after, with_cache(before, between))
                    &&& next_after == next_between
                },
                Ok(records) => {
                    &&& call_ensures(
                        T::reduced,
                        (&inner, &before.props, before.state),
                        (after.state, again),
                    )
                    &&& done matches Ok(dispatch) ==> dispatch.forwarded@ == records
                    &&& if again {
                        match done {
                            Ok(dispatch) => {
                                &&& dispatch.rendered matches Some(effects)
                                &&& rendered(
                                    with_cache(with_state(before, after.state), between),
                                    next_between,
                                    Ok(effects),
                                    after,
                                    next_after,
                                )
                            },
                            Err(fault) => rendered(
                                with_cache(with_state(before, after.state), between),
                                next_between,
                                Err(fault),
                                after,
                                next_after,
                            ),
                        }
                    } else {
                        &&& done matches Ok(dispatch)
                        &&& dispatch.rendered is None
                        &&& same_instance(
                            after,
                            with_cache(with_state(before, after.state), between),
                        )
                        &&& next_after == next_between
                    }
                },
            }
        }
}

/// What holds of the routing of the message `message` at the instance
/// `before`, from the next identifier `next`.
///
/// A click whose identifier the instance owns runs the click handler
/// registered under it, if there is one, once, and the instance renders;
/// the message is forwarded to no nested instance. A click that the
/// instance does not own is forwarded to every nested instance, once each,
/// whether or not one of them owns it, and the instance's own state stays
/// as it is.
///
/// A change or a selection runs the handler registered under its
/// identifier, if there is one, once. The instance renders if the handler
/// asks for it, and forwards the message to every nested instance
/// otherwise.
///
/// An application-defined message is forwarded to every nested instance
/// first. Then the component's reducer runs once, and the instance renders
/// if the reducer asks for it.
///
/// The props stay, and no registry loses an identifier.
pub open spec fn dispatched<T: Component>(
    before: InstanceView<T>,
    next: usize,
    message: Message<T::Message>,
    done: Result<Dispatch, Fault>,
    after: InstanceView<T>,
    next_after: usize,
) -> bool
    decreases cache_height(before.cache), 5nat,
{
    let id = message.id;
    &&& after.props == before.props
    &&& after.room == before.room
    &&& keeps_handlers(before, after)
    &&& match message.payload {
        Payload::Click => {
            &&& if before.click_handlers.contains_key(id) {
                call_ensures(
                    T::clicked,
                    (before.click_handlers[id], &before.props, before.state),
                    after.state,
                )
            } else {
                after.state == before.state
            }
            &&& settled_or_passed(before, next, message, owns(before, id), done, after, next_after)
        },
        Payload::Change(value) => {
            if before.change_handlers.contains_key(id) {
                exists|text: &str, again: bool|
                    {
                        &&& #[trigger] changed_by::<T>(
                            before.change_handlers[id],
                            text,
                            value@,
                            before.props,
                            before.state,
                            after.state,
                            again,
                        )
                        &&& settled_or_passed(before, next, message, again, done, after, next_after)
                    }
            } else {
                &&& after.state == before.state
                &&& passed_on(before, next, message, done, after, next_after)
            }
        },
        Payload::Select(index) => {
            if before.select_handlers.contains_key(id) {
                exists|again: bool|
                    {
                        &&& #[trigger] selected_by::<T>(
                            before.select_handlers[id],
                            index,
                            before.props,
                            before.state,
                            after.state,
                            again,
                        )
                        &&& settled_or_passed(before, next, message, again, done, after, next_after)
                    }
            } else {
                &&& after.state == before.state
                &&& passed_on(before, next, message, done, after, next_after)
            }
        },
        Payload::Custom(inner) => broadcast_first(
            before,
            next,
            message,
            inner,
            done,
            after,
            next_after,
        ),
    }
}

/// The outcome of a forwarding with its records as a sequence.
pub open spec fn forwarding_of(done: Result<Vec<(usize, Dispatch)>, Fault>) -> Result<
    Seq<(usize, Dispatch)>,
    Fault,
> {
    match done {
        Ok(records) => Ok(records@),
        Err(fault) => Err(fault),
    }
}

impl<T: Component> ComponentWrapper<T> {
    /// Whether this instance owns an identifier: one of its three
    /// registries holds it.
    pub fn has_handler_for(&self, id: &usize) -> (found: bool)
        ensures
            found == owns(self@, *id),
    {
        self.click_handlers.contains_key(id) || self.change_handlers.contains_key(id)
            || self.select_handlers.contains_key(id)
    }

    /// Takes the state out of the instance, to hand it to a handler. The
    /// state type's default state stands in for it until the handler's
    /// answer is put back.
    fn take_state(&mut self) -> (state: T::State)
        ensures
            state == old(self).state,
            final(self).props == old(self).props,
            final(self).vdom == old(self).vdom,
            final(self).room == old(self).room,
            final(self).click_handlers == old(self).click_handlers,
            final(self).change_handlers == old(self).change_handlers,
            final(self).select_handlers == old(self).select_handlers,
    {
        let mut state = T::State::default();
        std::mem::swap(&mut self.state, &mut state);
        state
    }

    /// Forwards a message to every instance nested in this one, once each,
    /// in the order of the cache. Returns the key of each with what it did.
    pub fn forward(&mut self, message: &Message<T::Message>, ids: &mut IdSource) -> (done: Result<
        Vec<(usize, Dispatch)>,
        Fault,
    >)
        ensures
            final(self).room == old(self).room,
            old(self).wf() ==> final(self).wf(),
            final(self).props == old(self).props,
            final(self).state == old(self).state,
            same_registries(registries_of(final(self)@), registries_of(old(self)@)),
            forwarded(
                old(self).vdom@,
                old(ids).next,
                *message,
                forwarding_of(done),
                final(self).vdom@,
                final(ids).next,
            ),
        decreases old(self).height(), 0nat,
    {
        let ghost before = self.vdom@;
        let ghost mut nexts = seq![ids.next];
        let mut forwarded: Vec<(usize, Dispatch)> = Vec::new();
        let mut j: usize = 0;
        assert(before.take(0) =~= Seq::empty());
        while j < self.vdom.len()
            invariant
                before == old(self).vdom@,
                j <= before.len(),
                self.vdom@.len() == before.len(),
                self.props == old(self).props,
                self.state == old(self).state,
                self.room == old(self).room,
                same_registries(registries_of(self@), registries_of(old(self)@)),
                forall|i: int| j <= i < before.len() ==> self.vdom@[i] == before[i],
                forall|i: int| 0 <= i < before.len() ==> (#[trigger] self.vdom@[i]).0 == before[i].0,
                forwarded_keys(forwarded@) == custom_keys(before.take(j as int)),
                forwarded@.len() == rank(before, j as int),
                nexts.len() == j + 1,
                nexts[0] == old(ids).next,
                nexts[j as int] == ids.next,
                forwarded_upto(before, *message, j as int, nexts, forwarded@, self.vdom@),
            decreases before.len() - j,
        {
            let key = self.vdom[j].0;
            let ghost reached_keys = forwarded_keys(forwarded@);
            let ghost was = self.vdom@;
            let ghost records = forwarded@;
            let ghost next_before = ids.next;
            proof {
                let next = before.take(j + 1);
                assert(next.drop_last() =~= before.take(j as int));
                assert(next.last() == before[j as int]);
                lemma_node_height(before, j as int);
            }
            let outcome = match &mut self.vdom[j].1 {
                VNode::Custom(child) => Some(child.renderable.on_message(message, ids)),
                _ => None,
            };
            let ghost grown = nexts.push(ids.next);
            match outcome {
                Some(Err(fault)) => {
                    let done = Err(Fault::Child { key, fault: Box::new(fault) });
                    proof {
                        lemma_forwarded_kept(
                            before,
                            *message,
                            j as int,
                            nexts,
                            records,
                            was,
                            self.vdom@,
                            grown,
                        );
                        lemma_forwarded_stopped(
                            before,
                            old(ids).next,
                            *message,
                            j as int,
                            grown,
                            records,
                            fault,
                            self.vdom@,
                            ids.next,
                        );
                        lemma_same_keys(before, self.vdom@);
                    }
                    return done;
                },
                Some(Ok(dispatch)) => {
                    let ghost record = (key, dispatch);
                    forwarded.push((key, dispatch));
                    proof {
                        assert(forwarded_keys(forwarded@) =~= reached_keys.push(key));
                        lemma_forwarded_step(
                            before,
                            *message,
                            j as int,
                            nexts,
                            records,
                            was,
                            ids.next,
                            Some(record),
                            self.vdom@,
                        );
                    }
                },
                None => {
                    proof {
                        lemma_forwarded_step(
                            before,
                            *message,
                            j as int,
                            nexts,
                            records,
                            was,
                            ids.next,
                            None,
                            self.vdom@,
                        );
                    }
                },
            }
            proof {
                nexts = grown;
            }
            j += 1;
        }
        let done = Ok(forwarded);
        proof {
            assert(before.take(before.len() as int) =~= before);
            assert(drawn(nexts));
            lemma_forwarded_all(
                before,
                old(ids).next,
                *message,
                nexts,
                forwarding_of(done)->Ok_0,
                self.vdom@,
                ids.next,
            );
            lemma_same_keys(before, self.vdom@);
        }
        done
    }

    /// Routes a message: to the handler that this instance has registered
    /// under the message's identifier, or on to the instances nested in it.
    ///
    /// A click whose identifier the instance owns runs the click handler
    /// registered under it, if there is one, once, and the instance
    /// renders; the message is forwarded to no nested instance. A click
    /// that the instance does not own is forwarded to every nested
    /// instance, once each, whether or not one of them owns it, and the
    /// instance's own state stays as it is.
    ///
    /// A change or a selection runs the handler registered under its
    /// identifier, if there is one, once. The instance renders if the
    /// handler asks for it, and forwards the message to every nested
    /// instance otherwise.
    ///
    /// An application-defined message is forwarded to every nested instance
    /// first. Then the component's reducer runs once, and the instance
    /// renders if the reducer asks for it.
    pub fn on_message(&mut self, message: &Message<T::Message>, ids: &mut IdSource) -> (done: Result<
        Dispatch,
        Fault,
    >)
        ensures
            old(self).wf() ==> final(self).wf(),
            dispatched(old(self)@, old(ids).next, *message, done, final(self)@, final(ids).next),
        decreases old(self).height(), 2nat,
    {
        match &message.payload {
            Payload::Click => {
                let owned = self.has_handler_for(&message.id);
                let found = match self.click_handlers.get(&message.id) {
                    Some(handler) => Some(*handler),
                    None => None,
                };
                match found {
                    Some(handler) => {
                        let state = self.take_state();
                        self.state = T::clicked(handler, &self.props, state);
                    },
                    None => {},
                }
                if owned {
                    self.render_here(ids, Ghost(old(self)@))
                } else {
                    self.pass_on(message, ids)
                }
            },
            Payload::Change(value) => {
                let text = value.as_str();
                let found = match self.change_handlers.get(&message.id) {
                    Some(handler) => Some(*handler),
                    None => None,
                };
                let again = match found {
                    Some(handler) => {
                        let state = self.take_state();
                        let answer = T::changed(handler, text, &self.props, state);
                        self.state = answer.0;
                        answer.1
                    },
                    None => false,
                };
                let done = if again {
                    self.render_here(ids, Ghost(old(self)@))
                } else {
                    self.pass_on(message, ids)
                };
                proof {
                    if found is Some {
                        assert(changed_by::<T>(
                            found->0,
                            text,
                            value@,
                            old(self).props,
                            old(self).state,
                            self.state,
                            again,
                        ));
                    }
                }
                done
            },
            Payload::Select(index) => {
                let found = match self.select_handlers.get(&message.id) {
                    Some(handler) => Some(*handler),
                    None => None,
                };
                let again = match found {
                    Some(handler) => {
                        let state = self.take_state();
                        let answer = T::selected(handler, *index, &self.props, state);
                        self.state = answer.0;
                        answer.1
                    },
                    None => false,
                };
                let done = if again {
                    self.render_here(ids, Ghost(old(self)@))
                } else {
                    self.pass_on(message, ids)
                };
                proof {
                    if found is Some {
                        assert(selected_by::<T>(
                            found->0,
                            *index,
                            old(self).props,
                            old(self).state,
                            self.state,
                            again,
                        ));
                    }
                }
                done
            },
            Payload::Custom(inner) => {
                let passed = self.forward(message, ids);
                let ghost between = self.vdom@;
                let ghost next_between = ids.next;
                let forwarded = match passed {
                    Ok(forwarded) => forwarded,
                    Err(fault) => {
                        let done = Err(fault);
                        proof {
                            assert(reached(between, next_between, forwarding_of(passed), false));
                            assert(broadcast_first(
                                old(self)@,
                                old(ids).next,
                                *message,
                                *inner,
                                done,
                                self@,
                                ids.next,
                            ));
                        }
                        return done;
                    },
                };
                let ghost records = forwarded@;
                let state = self.take_state();
                let answer = T::reduced(inner, &self.props, state);
                self.state = answer.0;
                let again = answer.1;
                let done = if again {
                    match self.render(ids) {
                        Ok(effects) => Ok(Dispatch { rendered: Some(effects), forwarded }),
                        Err(fault) => Err(fault),
                    }
                } else {
                    Ok(Dispatch { rendered: None, forwarded })
                };
                proof {
                    assert(reached(between, next_between, Ok(records), again));
                    assert(broadcast_first(
                        old(self)@,
                        old(ids).next,
                        *message,
                        *inner,
                        done,
                        self@,
                        ids.next,
                    ));
                }
                done
            },
        }
    }

    /// Renders after a handler ran, without forwarding. `before` is the
    /// instance as it was before the handler ran.
    fn render_here(&mut self, ids: &mut IdSource, Ghost(before): Ghost<InstanceView<T>>) -> (done:
        Result<Dispatch, Fault>)
        requires
            same_instance(old(self)@, with_state(before, old(self).state)),
        ensures
            final(self).room == old(self).room,
            old(self).wf() ==> final(self).wf(),
            final(self).props == old(self).props,
            final(self).state == old(self).state,
            keeps_handlers(before, final(self)@),
            handled_here(before, old(ids).next, done, final(self)@, final(ids).next),
    {
        proof {
            assert(self@ == with_state(before, self.state));
        }
        match self.render(ids) {
            Ok(effects) => Ok(Dispatch { rendered: Some(effects), forwarded: Vec::new() }),
            Err(fault) => Err(fault),
        }
    }

    /// Forwards a message to every nested instance, without rendering.
    fn pass_on(&mut self, message: &Message<T::Message>, ids: &mut IdSource) -> (done: Result<
        Dispatch,
        Fault,
    >)
        ensures
            final(self).room == old(self).room,
            old(self).wf() ==> final(self).wf(),
            final(self).props == old(self).props,
            final(self).state == old(self).state,
            same_registries(registries_of(final(self)@), registries_of(old(self)@)),
            done matches Ok(dispatch) ==> dispatch.rendered is None,
            forwarded(
                old(self).vdom@,
                old(ids).next,
                *message,
                records_of(done),
                final(self).vdom@,
                final(ids).next,
            ),
        decreases old(self).height(), 1nat,
    {
        match self.forward(message, ids) {
            Ok(forwarded) => Ok(Dispatch { rendered: None, forwarded }),
            Err(fault) => Err(fault),
        }
    }
}

/// The records that a forwarding gathered, with one more where the entry at
/// `at` embeds a component.
pub open spec fn with_record(
    records: Seq<(usize, Dispatch)>,
    record: Option<(usize, Dispatch)>,
) -> Seq<(usize, Dispatch)> {
    match record {
        Some(record) => records.push(record),
        None => records,
    }
}

/// When the entries before `at` have taken a forwarded message and the
/// entry at `at` takes it, the entries up to `at` have taken it.
pub proof fn lemma_forwarded_step<T: Component>(
    before: Seq<(usize, VNode<T>)>,
    message: Message<T::Message>,
    at: int,
    nexts: Seq<usize>,
    records: Seq<(usize, Dispatch)>,
    was: Seq<(usize, VNode<T>)>,
    next_after: usize,
    record: Option<(usize, Dispatch)>,
    now: Seq<(usize, VNode<T>)>,
)
    requires
        0 <= at < before.len(),
        nexts.len() == at + 1,
        records.len() == rank(before, at),
        forwarded_upto(before, message, at, nexts, records, was),
        forall|i: int| 0 <= i < at ==> now[i] == was[i],
        match record {
            Some(record) => before[at].1 is Custom && record.0 == before[at].0 && entry_forwarded(
                before[at],
                nexts[at],
                message,
                Ok(record.1),
                now[at],
                next_after,
            ),
            None => !(before[at].1 is Custom) && now[at] == before[at] && next_after == nexts[at],
        },
    ensures
        forwarded_upto(
            before,
            message,
            at + 1,
            nexts.push(next_after),
            with_record(records, record),
            now,
        ),
        with_record(records, record).len() == rank(before, at + 1),
{
    let grown = nexts.push(next_after);
    let more = with_record(records, record);
    let front = before.take(at + 1);
    assert(front.drop_last() =~= before.take(at));
    assert(front.last() == before[at]);
    assert forall|i: int| 0 <= i < at + 1 && i < before.len() implies entry_forwarded(
        before[i],
        #[trigger] grown[i],
        message,
        Ok(more[rank(before, i)].1),
        now[i],
        grown[i + 1],
    ) && (before[i].1 is Custom ==> more[rank(before, i)].0 == before[i].0) by {
        if i < at {
            lemma_rank(before, i, at);
            assert(entry_forwarded(
                before[i],
                nexts[i],
                message,
                Ok(records[rank(before, i)].1),
                was[i],
                nexts[i + 1],
            ));
            if before[i].1 is Custom {
                assert(more[rank(before, i)] == records[rank(before, i)]);
            }
        }
    }
}

/// The entries before `at` that have taken a forwarded message have taken
/// it, whatever comes after them.
pub proof fn lemma_forwarded_kept<T: Component>(
    before: Seq<(usize, VNode<T>)>,
    message: Message<T::Message>,
    at: int,
    nexts: Seq<usize>,
    records: Seq<(usize, Dispatch)>,
    was: Seq<(usize, VNode<T>)>,
    now: Seq<(usize, VNode<T>)>,
    grown: Seq<usize>,
)
    requires
        0 <= at <= before.len(),
        nexts.len() == at + 1,
        grown.len() >= nexts.len(),
        forall|i: int| 0 <= i < nexts.len() ==> grown[i] == nexts[i],
        forwarded_upto(before, message, at, nexts, records, was),
        forall|i: int| 0 <= i < at ==> now[i] == was[i],
    ensures
        forwarded_upto(before, message, at, grown, records, now),
{
    assert forall|i: int| 0 <= i < at && i < before.len() implies entry_forwarded(
        before[i],
        #[trigger] grown[i],
        message,
        Ok(records[rank(before, i)].1),
        now[i],
        grown[i + 1],
    ) && (before[i].1 is Custom ==> records[rank(before, i)].0 == before[i].0) by {
        assert(entry_forwarded(
            before[i],
            nexts[i],
            message,
            Ok(records[rank(before, i)].1),
            was[i],
            nexts[i + 1],
        ));
    }
}

/// When every entry of a cache has taken a forwarded message, the message
/// was forwarded.
pub proof fn lemma_forwarded_all<T: Component>(
    before: Seq<(usize, VNode<T>)>,
    next: usize,
    message: Message<T::Message>,
    nexts: Seq<usize>,
    records: Seq<(usize, Dispatch)>,
    after: Seq<(usize, VNode<T>)>,
    next_after: usize,
)
    requires
        after.len() == before.len(),
        forwarded_keys(records) == custom_keys(before),
        nexts.len() == before.len() + 1,
        nexts[0] == next,
        nexts[before.len() as int] == next_after,
        forwarded_upto(before, message, before.len() as int, nexts, records, after),
    ensures
        forwarded(before, next, message, Ok(records), after, next_after),
{
    assert(drawn(nexts));
}

/// When the entries before `at` have taken a forwarded message and the
/// instance nested at `at` met a fault, the forwarding met that fault
/// under the key at `at`.
pub proof fn lemma_forwarded_stopped<T: Component>(
    before: Seq<(usize, VNode<T>)>,
    next: usize,
    message: Message<T::Message>,
    at: int,
    nexts: Seq<usize>,
    records: Seq<(usize, Dispatch)>,
    fault: Fault,
    after: Seq<(usize, VNode<T>)>,
    next_after: usize,
)
    requires
        after.len() == before.len(),
        0 <= at < before.len(),
        before[at].1 is Custom,
        nexts.len() == at + 2,
        nexts[0] == next,
        nexts[at + 1] == next_after,
        forwarded_upto(before, message, at, nexts, records, after),
        entry_forwarded(before[at], nexts[at], message, Err(fault), after[at], next_after),
        forall|j: int| at < j < before.len() ==> after[j] == before[j],
    ensures
        forwarded(
            before,
            next,
            message,
            Err(Fault::Child { key: before[at].0, fault: Box::new(fault) }),
            after,
            next_after,
        ),
{
    assert(stopped(at, nexts, records));
}

/// A cache with the keys of a cache without repeated keys, at the same
/// places, has no repeated key.
pub proof fn lemma_same_keys<T: Component>(before: Seq<(usize, VNode<T>)>, after: Seq<(usize, VNode<T>)>)
    requires
        after.len() == before.len(),
        forall|i: int| 0 <= i < before.len() ==> (#[trigger] after[i]).0 == before[i].0,
    ensures
        distinct_keys(before) ==> distinct_keys(after),
{
    if distinct_keys(before) {
        assert forall|i: int, j: int| 0 <= i < j < after.len() implies (#[trigger] after[i]).0 != (
        #[trigger] after[j]).0 by {
            assert(before[i].0 != before[j].0);
        }
    }
}

/// The rank of a place in a cache is at most the rank of a later place, and
/// less where the place holds an embedded component.
pub proof fn lemma_rank<T: Component>(cache: Seq<(usize, VNode<T>)>, at: int, later: int)
    requires
        0 <= at < later <= cache.len(),
    ensures
        rank(cache, at) <= rank(cache, later),
        cache[at].1 is Custom ==> rank(cache, at) < rank(cache, later),
        0 <= rank(cache, at),
    decreases later - at,
{
    let front = cache.take(later);
    assert(front.drop_last() =~= cache.take(later - 1));
    assert(front.last() == cache[later - 1]);
    if at < later - 1 {
        lemma_rank(cache, at, later - 1);
    }
}

} // verus!
