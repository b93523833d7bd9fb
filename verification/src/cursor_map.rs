//! The ordered map that holds the cursors of a pane. Verus sees it through
//! `cursor_entries`, its entries from the lowest key to the highest; what
//! each function of the map does is stated here over that sequence and
//! believed, not proved.

use crate::pane::Selection;
use im::OrdMap;
use vstd::prelude::*;

verus! {

/// `im::OrdMap`, an ordered map that is cheap to copy. Verus sees nothing
/// inside it.
#[verifier::external_type_specification]
#[verifier::external_body]
#[verifier::reject_recursive_types(K)]
#[verifier::reject_recursive_types(V)]
pub struct ExOrdMap<K, V>(im::OrdMap<K, V>);

/// The entries of the map, from the lowest key to the highest.
pub uninterp spec fn cursor_entries(m: OrdMap<usize, Selection>) -> Seq<(usize, Selection)>;

/// Whether the keys go strictly up along the sequence.
pub open spec fn keys_ascend(entries: Seq<(usize, Selection)>) -> bool {
    forall|i: int, j: int| 0 <= i < j < entries.len() ==> entries[i].0 < entries[j].0
}

/// The number of entries whose key is below `key`. In a map they are its
/// first entries.
pub open spec fn rank_of(entries: Seq<(usize, Selection)>, key: usize) -> int
    decreases entries.len(),
{
    if entries.len() == 0 {
        0
    } else if entries.last().0 < key {
        entries.len() as int
    } else {
        rank_of(entries.drop_last(), key)
    }
}

/// Where the entries above `key` begin.
pub open spec fn rank_above(entries: Seq<(usize, Selection)>, key: usize) -> int {
    let r = rank_of(entries, key);
    if r < entries.len() && entries[r].0 == key {
        r + 1
    } else {
        r
    }
}

/// The entries after `key` has been given `value`: the entries below `key`,
/// the new entry, and the entries above `key`.
pub open spec fn entries_insert(
    entries: Seq<(usize, Selection)>,
    key: usize,
    value: Selection,
) -> Seq<(usize, Selection)> {
    entries.subrange(0, rank_of(entries, key)).push((key, value)) + entries.subrange(
        rank_above(entries, key),
        entries.len() as int,
    )
}

/// The entries after the one of `key`, if there is one, has been taken out.
pub open spec fn entries_remove(entries: Seq<(usize, Selection)>, key: usize) -> Seq<
    (usize, Selection),
> {
    entries.subrange(0, rank_of(entries, key)) + entries.subrange(
        rank_above(entries, key),
        entries.len() as int,
    )
}

/// The values of the entries, in the same order.
pub open spec fn entry_values(entries: Seq<(usize, Selection)>) -> Seq<Selection> {
    Seq::new(entries.len(), |i: int| entries[i].1)
}

/// `OrdMap::new`: the map that it makes has no entry.
#[verifier::external_body]
pub(crate) fn cursors_new() -> (m: OrdMap<usize, Selection>)
    ensures
        cursor_entries(m) == Seq::<(usize, Selection)>::empty(),
{
    OrdMap::new()
}

/// `OrdMap::clone`: the copy has the same entries.
#[verifier::external_body]
pub(crate) fn cursors_clone(m: &OrdMap<usize, Selection>) -> (c: OrdMap<usize, Selection>)
    ensures
        cursor_entries(c) == cursor_entries(*m),
{
    m.clone()
}

/// `OrdMap::insert`: the key gets the value, whether or not it had one.
#[verifier::external_body]
pub(crate) fn cursors_insert(m: &mut OrdMap<usize, Selection>, key: usize, value: Selection)
    ensures
        cursor_entries(*final(m)) == entries_insert(cursor_entries(*old(m)), key, value),
{
    m.insert(key, value);
}

/// `OrdMap::remove`: the key loses its entry, if it had one.
#[verifier::external_body]
pub(crate) fn cursors_remove(m: &mut OrdMap<usize, Selection>, key: usize)
    ensures
        cursor_entries(*final(m)) == entries_remove(cursor_entries(*old(m)), key),
{
    m.remove(&key);
}

/// `OrdMap::values`, copied into a vector: the values from the lowest key to
/// the highest. No key occurs twice.
#[verifier::external_body]
pub(crate) fn cursors_values(m: &OrdMap<usize, Selection>) -> (values: Vec<Selection>)
    ensures
        values@ == entry_values(cursor_entries(*m)),
        forall|i: int, j: int|
            0 <= i < j < values@.len() ==> cursor_entries(*m)[i].0 < cursor_entries(*m)[j].0,
{
    m.values().copied().collect()
}

/// `OrdMap::iter`, copied into a vector: the entries from the lowest key to
/// the highest. No key occurs twice.
#[verifier::external_body]
pub(crate) fn cursors_entries(m: &OrdMap<usize, Selection>) -> (entries: Vec<(usize, Selection)>)
    ensures
        entries@ == cursor_entries(*m),
        keys_ascend(entries@),
{
    m.iter().map(|(key, value)| (*key, *value)).collect()
}

/// Whether `key` is the key of an entry.
pub open spec fn has_key(entries: Seq<(usize, Selection)>, key: usize) -> bool {
    exists|i: int| 0 <= i < entries.len() && #[trigger] entries[i].0 == key
}

/// Whether every entry holds a selection that starts at the entry's key.
pub open spec fn keyed_by_start(entries: Seq<(usize, Selection)>) -> bool {
    forall|i: int| 0 <= i < entries.len() ==> (#[trigger] entries[i]).1.start == entries[i].0
}

/// Whether every entry holds a bare cursor that stands at the entry's key.
pub open spec fn bare_cursors(entries: Seq<(usize, Selection)>) -> bool {
    forall|i: int|
        0 <= i < entries.len() ==> (#[trigger] entries[i]).1 == (Selection {
            start: entries[i].0,
            offset: 0,
        })
}

/// The entries below `key` are the first `rank_of` ones.
pub proof fn lemma_rank_of(entries: Seq<(usize, Selection)>, key: usize)
    requires
        keys_ascend(entries),
    ensures
        0 <= rank_of(entries, key) <= rank_above(entries, key) <= entries.len(),
        forall|i: int| 0 <= i < rank_of(entries, key) ==> (#[trigger] entries[i]).0 < key,
        forall|i: int|
            rank_of(entries, key) <= i < entries.len() ==> (#[trigger] entries[i]).0 >= key,
        forall|i: int|
            rank_above(entries, key) <= i < entries.len() ==> (#[trigger] entries[i]).0 > key,
    decreases entries.len(),
{
    if entries.len() > 0 && entries.last().0 >= key {
        let init = entries.drop_last();
        lemma_rank_of(init, key);
        let r = rank_of(entries, key);
        assert forall|i: int| 0 <= i < r implies (#[trigger] entries[i]).0 < key by {
            assert(entries[i] == init[i]);
        }
        assert forall|i: int| r <= i < entries.len() implies (#[trigger] entries[i]).0 >= key by {
            if i < init.len() {
                assert(entries[i] == init[i]);
            }
        }
    }
    let above = rank_above(entries, key);
    assert forall|i: int| above <= i < entries.len() implies (#[trigger] entries[i]).0 > key by {
        let r = rank_of(entries, key);
        if i > r {
            assert(entries[r].0 >= key);
        }
    }
}

/// What giving `key` a value does to a map: the order holds, `key` has the
/// value, and every other key keeps what it had.
pub proof fn lemma_entries_insert(entries: Seq<(usize, Selection)>, key: usize, value: Selection)
    requires
        keys_ascend(entries),
    ensures
        keys_ascend(entries_insert(entries, key, value)),
        forall|k: usize|
            #![trigger has_key(entries_insert(entries, key, value), k)]
            #![trigger has_key(entries, k)]
            has_key(entries_insert(entries, key, value), k) <==> (k == key || has_key(entries, k)),
        forall|i: int|
            0 <= i < entries_insert(entries, key, value).len() ==> {
                let e = #[trigger] entries_insert(entries, key, value)[i];
                (e.0 == key && e.1 == value) || (e.0 != key && entries.contains(e))
            },
        entries.len() <= entries_insert(entries, key, value).len() <= entries.len() + 1,
{
    lemma_rank_of(entries, key);
    let out = entries_insert(entries, key, value);
    let r = rank_of(entries, key);
    let above = rank_above(entries, key);
    assert(out[r] == (key, value));
    assert forall|i: int| 0 <= i < out.len() implies {
        let e = #[trigger] out[i];
        (e.0 == key && e.1 == value) || (e.0 != key && entries.contains(e))
    } by {
        if i < r {
            assert(out[i] == entries[i]);
        } else if i > r {
            assert(out[i] == entries[above + (i - r - 1)]);
        }
    }
    assert forall|i: int, j: int| 0 <= i < j < out.len() implies out[i].0 < out[j].0 by {
        if i < r {
            assert(out[i] == entries[i]);
        } else if i > r {
            assert(out[i] == entries[above + (i - r - 1)]);
        }
        if j < r {
            assert(out[j] == entries[j]);
        } else if j > r {
            assert(out[j] == entries[above + (j - r - 1)]);
        }
    }
    assert forall|k: usize| has_key(out, k) <==> (k == key || has_key(entries, k)) by {
        if has_key(out, k) && k != key {
            let i = choose|i: int| 0 <= i < out.len() && #[trigger] out[i].0 == k;
            if i < r {
                assert(entries[i].0 == k);
            } else {
                assert(entries[above + (i - r - 1)].0 == k);
            }
        }
        if k == key {
            assert(out[r].0 == k);
        }
        if has_key(entries, k) && k != key {
            let w = choose|w: int| 0 <= w < entries.len() && #[trigger] entries[w].0 == k;
            if w < r {
                assert(out[w].0 == k);
            } else {
                assert(w >= above);
                assert(out[r + 1 + (w - above)].0 == k);
            }
        }
    }
}

/// What taking `key` out does to a map: the order holds, `key` is gone, and
/// every other key keeps what it had.
pub proof fn lemma_entries_remove(entries: Seq<(usize, Selection)>, key: usize)
    requires
        keys_ascend(entries),
    ensures
        keys_ascend(entries_remove(entries, key)),
        forall|k: usize|
            #![trigger has_key(entries_remove(entries, key), k)]
            #![trigger has_key(entries, k)]
            has_key(entries_remove(entries, key), k) <==> (k != key && has_key(entries, k)),
        forall|i: int|
            0 <= i < entries_remove(entries, key).len() ==> entries.contains(
                #[trigger] entries_remove(entries, key)[i],
            ),
        entries_remove(entries, key).len() <= entries.len(),
{
    lemma_rank_of(entries, key);
    let out = entries_remove(entries, key);
    let r = rank_of(entries, key);
    let above = rank_above(entries, key);
    assert forall|i: int| 0 <= i < out.len() implies entries.contains(#[trigger] out[i]) by {
        if i < r {
            assert(out[i] == entries[i]);
        } else {
            assert(out[i] == entries[above + (i - r)]);
        }
    }
    assert forall|i: int, j: int| 0 <= i < j < out.len() implies out[i].0 < out[j].0 by {
        if i < r {
            assert(out[i] == entries[i]);
        } else {
            assert(out[i] == entries[above + (i - r)]);
        }
        if j < r {
            assert(out[j] == entries[j]);
        } else {
            assert(out[j] == entries[above + (j - r)]);
        }
    }
    assert forall|k: usize| has_key(out, k) <==> (k != key && has_key(entries, k)) by {
        if has_key(out, k) {
            let i = choose|i: int| 0 <= i < out.len() && #[trigger] out[i].0 == k;
            if i < r {
                assert(entries[i].0 == k);
            } else {
                assert(entries[above + (i - r)].0 == k);
            }
        }
        if has_key(entries, k) && k != key {
            let w = choose|w: int| 0 <= w < entries.len() && #[trigger] entries[w].0 == k;
            if w < r {
                assert(out[w].0 == k);
            } else {
                assert(w >= above);
                assert(out[r + (w - above)].0 == k);
            }
        }
    }
}

} // verus!
