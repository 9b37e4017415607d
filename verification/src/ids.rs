use vstd::prelude::*;

verus! {

/// The source of handler identifiers. One source serves a whole tree of
/// instances: it is handed to every operation that may register a handler.
/// Identifiers are never reclaimed.
pub struct IdSource {
    pub next: usize,
}

/// The identifier that follows `n`: one more, and zero after the largest.
pub open spec fn following(n: usize) -> usize {
    if n == usize::MAX {
        0
    } else {
        (n + 1) as usize
    }
}

/// The counter after `count` identifiers were drawn from `n`.
pub open spec fn advanced(n: usize, count: nat) -> usize
    decreases count,
{
    if count == 0 {
        n
    } else {
        following(advanced(n, (count - 1) as nat))
    }
}

impl IdSource {
    /// A source whose first identifier is zero.
    pub fn new() -> (ids: Self)
        ensures
            ids.next == 0,
    {
        IdSource { next: 0 }
    }
}

/// Draws the next identifier: the counter's value, which then moves on by
/// one and wraps to zero after the largest value.
pub fn gen_id(ids: &mut IdSource) -> (id: usize)
    ensures
        id == old(ids).next,
        final(ids).next == following(old(ids).next),
{
    let id: usize = ids.next;
    ids.next = id.wrapping_add(1);
    id
}

/// Identifiers increase: while the counter does not wrap, it grows by one
/// with every identifier drawn, so that no identifier is drawn twice.
pub proof fn law_identifiers_increase(n: usize, count: nat)
    requires
        n + count <= usize::MAX,
    ensures
        advanced(n, count) == n + count,
    decreases count,
{
    if count > 0 {
        law_identifiers_increase(n, (count - 1) as nat);
    }
}

} // verus!
