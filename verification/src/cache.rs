use vstd::prelude::*;

verus! {

/// Whether some entry of a keyed collection has the key `key`.
pub open spec fn contains_key<V>(entries: Seq<(usize, V)>, key: usize) -> bool {
    exists|i: int| 0 <= i < entries.len() && (#[trigger] entries[i]).0 == key
}

/// Whether `i` is the index of the first entry with the key `key`.
pub open spec fn is_first<V>(entries: Seq<(usize, V)>, key: usize, i: int) -> bool {
    &&& 0 <= i < entries.len()
    &&& entries[i].0 == key
    &&& forall|j: int| 0 <= j < i ==> (#[trigger] entries[j]).0 != key
}

/// The index of the first entry with the key `key`.
pub open spec fn index_of<V>(entries: Seq<(usize, V)>, key: usize) -> int {
    choose|i: int| is_first(entries, key, i)
}

/// No key occurs twice.
pub open spec fn distinct_keys<V>(entries: Seq<(usize, V)>) -> bool {
    forall|i: int, j: int|
        0 <= i < j < entries.len() ==> (#[trigger] entries[i]).0 != (#[trigger] entries[j]).0
}

/// The keys of a keyed collection, in order.
pub open spec fn keys_of<V>(entries: Seq<(usize, V)>) -> Seq<usize> {
    entries.map_values(|e: (usize, V)| e.0)
}

/// The set of the keys of a keyed collection.
pub open spec fn key_set<V>(entries: Seq<(usize, V)>) -> Set<usize> {
    Set::new(|key: usize| contains_key(entries, key))
}

/// The first entry with a key is the one that `index_of` finds.
pub proof fn lemma_index_of<V>(entries: Seq<(usize, V)>, key: usize, i: int)
    requires
        is_first(entries, key, i),
    ensures
        contains_key(entries, key),
        index_of(entries, key) == i,
{
    let j = index_of(entries, key);
    assert(is_first(entries, key, j));
    if i < j {
        assert(entries[i].0 != key);
    } else if j < i {
        assert(entries[j].0 != key);
    }
}

/// A key that occurs has a first entry.
pub proof fn lemma_first_exists<V>(entries: Seq<(usize, V)>, key: usize)
    requires
        contains_key(entries, key),
    ensures
        is_first(entries, key, index_of(entries, key)),
    decreases entries.len(),
{
    let i = choose|i: int| 0 <= i < entries.len() && (#[trigger] entries[i]).0 == key;
    lemma_first_below(entries, key, i);
}

/// Below an entry with a key there is a first entry with that key.
proof fn lemma_first_below<V>(entries: Seq<(usize, V)>, key: usize, i: int)
    requires
        0 <= i < entries.len(),
        entries[i].0 == key,
    ensures
        exists|f: int| is_first(entries, key, f),
    decreases i,
{
    if exists|j: int| 0 <= j < i && (#[trigger] entries[j]).0 == key {
        let j = choose|j: int| 0 <= j < i && (#[trigger] entries[j]).0 == key;
        lemma_first_below(entries, key, j);
    } else {
        assert(is_first(entries, key, i));
    }
}

/// The index of the entry with the key `key`, if there is one.
pub fn find<V>(entries: &Vec<(usize, V)>, key: usize) -> (found: Option<usize>)
    ensures
        found is Some <==> contains_key(entries@, key),
        found matches Some(i) ==> is_first(entries@, key, i as int) && index_of(entries@, key) == i,
{
    let mut i: usize = 0;
    while i < entries.len()
        invariant
            i <= entries.len(),
            forall|j: int| 0 <= j < i ==> (#[trigger] entries@[j]).0 != key,
        decreases entries.len() - i,
    {
        if entries[i].0 == key {
            proof {
                lemma_index_of(entries@, key, i as int);
            }
            return Some(i);
        }
        i += 1;
    }
    None
}

/// Whether `key` is among `keys`.
pub fn has_key(keys: &Vec<usize>, key: usize) -> (found: bool)
    ensures
        found == keys@.contains(key),
{
    let mut i: usize = 0;
    while i < keys.len()
        invariant
            i <= keys.len(),
            forall|j: int| 0 <= j < i ==> keys@[j] != key,
        decreases keys.len() - i,
    {
        if keys[i] == key {
            return true;
        }
        i += 1;
    }
    false
}

/// The same items in the opposite order.
pub fn reversed<V>(items: Vec<V>) -> (turned: Vec<V>)
    ensures
        turned@ == items@.reverse(),
{
    let mut items = items;
    let ghost given = items@;
    let mut turned: Vec<V> = Vec::new();
    while items.len() > 0
        invariant
            items@.len() + turned@.len() == given.len(),
            items@ == given.take(items@.len() as int),
            forall|j: int| 0 <= j < turned@.len() ==> turned@[j] == given[given.len() - 1 - j],
        decreases items.len(),
    {
        let item = items.pop().unwrap();
        turned.push(item);
    }
    assert(turned@ =~= given.reverse());
    turned
}

/// The entries whose key is among `keep`, in order.
pub open spec fn retained<V>(entries: Seq<(usize, V)>, keep: Seq<usize>) -> Seq<(usize, V)>
    decreases entries.len(),
{
    if entries.len() == 0 {
        Seq::empty()
    } else if keep.contains(entries.last().0) {
        retained(entries.drop_last(), keep).push(entries.last())
    } else {
        retained(entries.drop_last(), keep)
    }
}

/// The keys of the entries whose key is not among `keep`, in order.
pub open spec fn dropped<V>(entries: Seq<(usize, V)>, keep: Seq<usize>) -> Seq<usize>
    decreases entries.len(),
{
    if entries.len() == 0 {
        Seq::empty()
    } else if keep.contains(entries.last().0) {
        dropped(entries.drop_last(), keep)
    } else {
        dropped(entries.drop_last(), keep).push(entries.last().0)
    }
}

/// A key occurs in a collection exactly when it is the last entry's key or
/// occurs before the last entry.
proof fn lemma_contains_last<V>(entries: Seq<(usize, V)>, key: usize)
    requires
        entries.len() > 0,
    ensures
        contains_key(entries, key) <==> contains_key(entries.drop_last(), key) || entries.last().0
            == key,
{
    let front = entries.drop_last();
    if contains_key(front, key) {
        let i = choose|i: int| 0 <= i < front.len() && (#[trigger] front[i]).0 == key;
        assert(entries[i].0 == key);
    }
    if entries.last().0 == key {
        assert(entries[entries.len() - 1].0 == key);
    }
    if contains_key(entries, key) {
        let i = choose|i: int| 0 <= i < entries.len() && (#[trigger] entries[i]).0 == key;
        if i < front.len() {
            assert(front[i].0 == key);
        }
    }
}

/// The first entry with a key is the first one before the last entry, if
/// the key occurs there, and the last entry otherwise.
proof fn lemma_index_last<V>(entries: Seq<(usize, V)>, key: usize)
    requires
        contains_key(entries, key),
    ensures
        index_of(entries, key) == (if contains_key(entries.drop_last(), key) {
            index_of(entries.drop_last(), key)
        } else {
            entries.len() - 1
        }),
{
    let front = entries.drop_last();
    lemma_contains_last(entries, key);
    if contains_key(front, key) {
        lemma_first_exists(front, key);
        let f = index_of(front, key);
        assert forall|j: int| 0 <= j < f implies (#[trigger] entries[j]).0 != key by {
            assert(front[j].0 != key);
        }
        assert(entries[f] == front[f]);
        lemma_index_of(entries, key, f);
    } else {
        assert forall|j: int| 0 <= j < entries.len() - 1 implies (#[trigger] entries[j]).0
            != key by {
            assert(front[j].0 == entries[j].0);
        }
        lemma_index_of(entries, key, entries.len() - 1);
    }
}

/// What is retained holds a key exactly when the key was there and is kept,
/// and then with the first entry that the key had.
pub proof fn lemma_retained<V>(entries: Seq<(usize, V)>, keep: Seq<usize>, key: usize)
    ensures
        contains_key(retained(entries, keep), key) <==> contains_key(entries, key)
            && keep.contains(key),
        contains_key(retained(entries, keep), key) ==> retained(entries, keep)[index_of(
            retained(entries, keep),
            key,
        )] == entries[index_of(entries, key)],
    decreases entries.len(),
{
    let kept = retained(entries, keep);
    if entries.len() > 0 {
        let front = entries.drop_last();
        let last = entries.last();
        let before = retained(front, keep);
        lemma_retained(front, keep, key);
        lemma_contains_last(entries, key);
        if keep.contains(last.0) {
            assert(kept == before.push(last));
            assert(kept.drop_last() =~= before);
            lemma_contains_last(kept, key);
        }
        if contains_key(kept, key) {
            lemma_index_last(entries, key);
            if contains_key(front, key) {
                lemma_first_exists(front, key);
                lemma_first_exists(before, key);
            }
            if keep.contains(last.0) {
                lemma_index_last(kept, key);
            }
        }
    }
}

/// Where no key occurred twice, none does in what is retained.
pub proof fn lemma_retained_distinct<V>(entries: Seq<(usize, V)>, keep: Seq<usize>)
    requires
        distinct_keys(entries),
    ensures
        distinct_keys(retained(entries, keep)),
    decreases entries.len(),
{
    let kept = retained(entries, keep);
    if entries.len() > 0 {
        let front = entries.drop_last();
        let last = entries.last();
        let before = retained(front, keep);
        assert(distinct_keys(front)) by {
            assert forall|i: int, j: int| 0 <= i < j < front.len() implies (#[trigger] front[i]).0
                != (#[trigger] front[j]).0 by {
                assert(entries[i].0 != entries[j].0);
            }
        }
        lemma_retained_distinct(front, keep);
        if keep.contains(last.0) {
            assert(!contains_key(front, last.0)) by {
                if contains_key(front, last.0) {
                    let i = choose|i: int| 0 <= i < front.len() && (#[trigger] front[i]).0 == last.0;
                    assert(entries[i].0 != entries[entries.len() - 1].0);
                }
            }
            lemma_retained(front, keep, last.0);
            assert forall|i: int, j: int| 0 <= i < j < kept.len() implies (#[trigger] kept[i]).0 != (
            #[trigger] kept[j]).0 by {
                if j < before.len() {
                    assert(before[i].0 != before[j].0);
                } else {
                    assert(before[i].0 == kept[i].0);
                }
            }
        }
    }
}

/// Whether the key of the entry at `j` occurs before `j`.
pub open spec fn repeats<V>(entries: Seq<(usize, V)>, j: int) -> bool {
    exists|i: int| 0 <= i < j && (#[trigger] entries[i]).0 == entries[j].0
}

/// Whether `j` is the first index whose key occurs before it.
pub open spec fn is_first_repeat<V>(entries: Seq<(usize, V)>, j: int) -> bool {
    &&& 0 <= j < entries.len()
    &&& repeats(entries, j)
    &&& forall|k: int| 0 <= k < j ==> !repeats(entries, k)
}

/// The first key that occurs a second time, if any key does.
pub fn first_repeat<V>(entries: &Vec<(usize, V)>) -> (found: Option<usize>)
    ensures
        found is None <==> distinct_keys(entries@),
        found matches Some(key) ==> exists|j: int|
            is_first_repeat(entries@, j) && (#[trigger] entries@[j]).0 == key,
{
    let mut j: usize = 0;
    while j < entries.len()
        invariant
            j <= entries.len(),
            forall|k: int| 0 <= k < j ==> !repeats(entries@, k),
        decreases entries.len() - j,
    {
        let mut i: usize = 0;
        while i < j
            invariant
                i <= j,
                j < entries.len(),
                forall|k: int| 0 <= k < j ==> !repeats(entries@, k),
                forall|h: int| 0 <= h < i ==> (#[trigger] entries@[h]).0 != entries@[j as int].0,
            decreases j - i,
        {
            if entries[i].0 == entries[j].0 {
                assert(entries@[i as int].0 == entries@[j as int].0);
                assert(repeats(entries@, j as int));
                assert(is_first_repeat(entries@, j as int));
                return Some(entries[j].0);
            }
            i += 1;
        }
        j += 1;
    }
    assert forall|a: int, b: int| 0 <= a < b < entries@.len() implies (#[trigger] entries@[a]).0 != (
    #[trigger] entries@[b]).0 by {
        assert(!repeats(entries@, b));
    }
    None
}

/// Moves out the entries whose key is not among `keep` and returns their
/// keys, in order. The others stay, in order.
pub fn evict_from<V>(entries: &mut Vec<(usize, V)>, keep: &Vec<usize>) -> (gone: Vec<usize>)
    ensures
        final(entries)@ == retained(old(entries)@, keep@),
        gone@ == dropped(old(entries)@, keep@),
{
    let mut all: Vec<(usize, V)> = Vec::new();
    std::mem::swap(entries, &mut all);
    let ghost given = all@;
    let mut rest = reversed(all);
    let mut gone: Vec<usize> = Vec::new();
    assert(given.take(0) =~= Seq::empty());
    while rest.len() > 0
        invariant
            rest@.len() <= given.len(),
            forall|j: int| 0 <= j < rest@.len() ==> rest@[j] == given[given.len() - 1 - j],
            entries@ == retained(given.take(given.len() - rest@.len()), keep@),
            gone@ == dropped(given.take(given.len() - rest@.len()), keep@),
        decreases rest.len(),
    {
        let ghost done = given.len() - rest@.len();
        let entry = rest.pop().unwrap();
        proof {
            let next = given.take(done + 1);
            assert(next.drop_last() =~= given.take(done));
            assert(next.last() == entry);
        }
        if has_key(keep, entry.0) {
            entries.push(entry);
        } else {
            gone.push(entry.0);
        }
    }
    assert(given.take(given.len() as int) =~= given);
    gone
}

/// The items of a list, each under its position as key.
pub open spec fn positions<V>(items: Seq<V>) -> Seq<(usize, V)> {
    Seq::new(items.len(), |i: int| (i as usize, items[i]))
}

/// The items of a list, each under its position as key, so that a list
/// without keys can be reconciled as a keyed collection: an item is then
/// the item that stood at its place before. No key occurs twice.
pub fn positional<V>(items: Vec<V>) -> (keyed: Vec<(usize, V)>)
    ensures
        keyed@ == positions(items@),
        distinct_keys(keyed@),
{
    let ghost given = items@;
    let mut rest = reversed(items);
    let mut keyed: Vec<(usize, V)> = Vec::new();
    while rest.len() > 0
        invariant
            rest@.len() <= given.len(),
            forall|j: int| 0 <= j < rest@.len() ==> rest@[j] == given[given.len() - 1 - j],
            keyed@.len() == given.len() - rest@.len(),
            forall|i: int|
                0 <= i < keyed@.len() ==> (#[trigger] keyed@[i]).0 == i && keyed@[i].1 == given[i],
        decreases rest.len(),
    {
        let position = keyed.len();
        let item = rest.pop().unwrap();
        keyed.push((position, item));
    }
    assert(keyed@ =~= positions(given));
    assert forall|i: int, j: int| 0 <= i < j < keyed@.len() implies (#[trigger] keyed@[i]).0 != (
    #[trigger] keyed@[j]).0 by {
        assert(keyed@[i].0 == i);
        assert(keyed@[j].0 == j);
    }
    keyed
}

} // verus!
