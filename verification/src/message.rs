use crate::ids::{following, gen_id, IdSource};
use vstd::prelude::*;
use vstd::std_specs::cmp::PartialEqSpec;

verus! {

/// What a message carries: a click, the new text of a text field, the index
/// selected in a selector, or a value that the application defines.
#[derive(Debug)]
pub enum Payload<M> {
    Click,
    Change(String),
    Select(usize),
    Custom(M),
}

/// A message: the identifier it is addressed to and its payload.
#[derive(Debug)]
pub struct Message<M> {
    pub id: usize,
    pub payload: Payload<M>,
}

/// Whether two payloads count as equal: two clicks do, two changes with the
/// same text, and two selections of the same index. Nothing else does:
/// application-defined values are never compared, and so two of them are
/// never equal.
pub open spec fn payload_eq<M>(a: Payload<M>, b: Payload<M>) -> bool {
    match (a, b) {
        (Payload::Click, Payload::Click) => true,
        (Payload::Change(x), Payload::Change(y)) => x@ == y@,
        (Payload::Select(i), Payload::Select(j)) => i == j,
        _ => false,
    }
}

impl<M> PartialEq for Payload<M> {
    fn eq(&self, other: &Self) -> (same: bool) {
        match (self, other) {
            (Payload::Click, Payload::Click) => true,
            (Payload::Change(a), Payload::Change(b)) => *a == *b,
            (Payload::Select(a), Payload::Select(b)) => *a == *b,
            _ => false,
        }
    }
}

impl<M> vstd::std_specs::cmp::PartialEqSpecImpl for Payload<M> {
    open spec fn obeys_eq_spec() -> bool {
        true
    }

    open spec fn eq_spec(&self, other: &Self) -> bool {
        payload_eq(*self, *other)
    }
}

impl<M> PartialEq for Message<M> {
    /// Two messages are equal when their identifiers and their payloads are.
    fn eq(&self, other: &Self) -> (same: bool) {
        self.id == other.id && self.payload == other.payload
    }
}

impl<M> vstd::std_specs::cmp::PartialEqSpecImpl for Message<M> {
    open spec fn obeys_eq_spec() -> bool {
        true
    }

    open spec fn eq_spec(&self, other: &Self) -> bool {
        self.id == other.id && payload_eq(self.payload, other.payload)
    }
}

impl<M> Message<M> {
    /// The message that reports a click under `id`.
    pub fn click(id: usize) -> (message: Self)
        ensures
            message.id == id,
            message.payload == Payload::<M>::Click,
    {
        Message { id, payload: Payload::Click }
    }

    /// The message that reports the new text `value` of the text field
    /// that reports under `id`.
    pub fn change(id: usize, value: String) -> (message: Self)
        ensures
            message.id == id,
            message.payload == Payload::<M>::Change(value),
    {
        Message { id, payload: Payload::Change(value) }
    }

    /// The message that reports the selection of the option at `value`
    /// under `id`.
    pub fn select(id: usize, value: usize) -> (message: Self)
        ensures
            message.id == id,
            message.payload == Payload::<M>::Select(value),
    {
        Message { id, payload: Payload::Select(value) }
    }

    /// A message with an application-defined payload. It takes the next
    /// identifier, so that it is addressed to no handler.
    pub fn custom(ids: &mut IdSource, message: M) -> (wrapped: Self)
        ensures
            wrapped.id == old(ids).next,
            wrapped.payload == Payload::Custom(message),
            final(ids).next == following(old(ids).next),
    {
        Message { id: gen_id(ids), payload: Payload::Custom(message) }
    }
}

/// Two messages with application-defined payloads are never equal, whatever
/// they carry.
pub proof fn law_custom_never_equal<M>(a: Message<M>, b: Message<M>)
    requires
        a.payload is Custom,
        b.payload is Custom,
    ensures
        !a.eq_spec(&b),
        !a.payload.eq_spec(&b.payload),
{
}

} // verus!
