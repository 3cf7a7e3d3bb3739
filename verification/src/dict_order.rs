//! A dictionary is the same whatever the order in which it was filled.
//!
//! Entries with strictly ascending keys are determined by what each key is
//! bound to. So the entries of a dictionary, and with them its encoding,
//! depend on the bindings made and not on their order, except that of two
//! bindings of one key the later wins.

use vstd::prelude::*;
use crate::encode::{encoding, entries_encoding, string_encoding};
use crate::order::{
    bytes_lt,
    lemma_lt_asymmetric,
    lemma_lt_irreflexive,
    strictly_ascending,
};
use crate::round_trip::{holds_at, lemma_entries_encoding_prefix};
use crate::value::{
    entries_get,
    entries_insert,
    entry_keys,
    lemma_get_at_lower_bound,
    lemma_insert_keeps_order,
    lemma_lower_bound,
    lower_bound,
    Bencode,
};

verus! {

/// In entries with strictly ascending keys the key of every entry is bound
/// to the value of that entry.
pub proof fn lemma_get_member(entries: Seq<(Seq<u8>, Bencode)>, i: int)
    requires
        strictly_ascending(entry_keys(entries)),
        0 <= i < entries.len(),
    ensures
        lower_bound(entries, entries[i].0) == i,
        entries_get(entries, entries[i].0) == Some(entries[i].1),
{
    let key = entries[i].0;
    let p = lower_bound(entries, key);
    let keys = entry_keys(entries);
    lemma_get_at_lower_bound(entries, key);
    lemma_lower_bound(entries, key);
    lemma_lt_irreflexive(key);
    assert(keys[i] == key);
    if p > i {
        assert(bytes_lt(entries[i].0, key));
    } else if p < i {
        assert(keys[p] == entries[p].0);
        assert(bytes_lt(keys[p], keys[i]));
    }
}

/// After `key` is bound to `value`, `key` gives `value` and every other key
/// gives what it gave before.
pub proof fn lemma_insert_get(
    entries: Seq<(Seq<u8>, Bencode)>,
    key: Seq<u8>,
    value: Bencode,
    q: Seq<u8>,
)
    requires
        strictly_ascending(entry_keys(entries)),
    ensures
        entries_get(entries_insert(entries, key, value), q) == if q == key {
            Some(value)
        } else {
            entries_get(entries, q)
        },
{
    let after = entries_insert(entries, key, value);
    let p = lower_bound(entries, key);
    let replaced = p < entries.len() && entries[p].0 == key;
    lemma_insert_keeps_order(entries, key, value);
    lemma_lower_bound(entries, key);
    if q == key {
        assert(after[p] == (key, value));
        lemma_get_member(after, p);
    } else {
        lemma_get_at_lower_bound(entries, q);
        lemma_get_at_lower_bound(after, q);
        lemma_lower_bound(entries, q);
        lemma_lower_bound(after, q);
        let i = lower_bound(entries, q);
        let j = lower_bound(after, q);
        if i < entries.len() && entries[i].0 == q {
            // the entry of `q` is still there
            let moved = if replaced || i < p {
                i
            } else {
                i + 1
            };
            assert(after[moved] == entries[i]);
            lemma_get_member(after, moved);
        } else if j < after.len() && after[j].0 == q {
            // an entry of `q` would have been there before
            let origin = if replaced || j < p {
                j
            } else {
                j - 1
            };
            assert(after[j] == entries[origin]);
            lemma_get_member(entries, origin);
        }
    }
}

/// Two sequences of entries with strictly ascending keys that bind every
/// key alike agree at every position of the first.
proof fn lemma_same_entry(
    a: Seq<(Seq<u8>, Bencode)>,
    b: Seq<(Seq<u8>, Bencode)>,
    i: int,
)
    requires
        strictly_ascending(entry_keys(a)),
        strictly_ascending(entry_keys(b)),
        forall|q: Seq<u8>| #[trigger] entries_get(a, q) == entries_get(b, q),
        0 <= i < a.len(),
    ensures
        i < b.len(),
        a[i] == b[i],
    decreases i,
{
    let key = a[i].0;
    lemma_get_member(a, i);
    lemma_get_at_lower_bound(b, key);
    assert(entries_get(a, key) == entries_get(b, key));
    let j = lower_bound(b, key);
    lemma_lower_bound(b, key);
    assert(b[j] == a[i]);
    lemma_lt_irreflexive(key);
    if j < i {
        lemma_same_entry(a, b, j);
        assert(entry_keys(a)[j] == a[j].0 && entry_keys(a)[i] == key);
        assert(bytes_lt(entry_keys(a)[j], entry_keys(a)[i]));
    } else if j > i {
        let other = b[i].0;
        lemma_get_member(b, i);
        lemma_get_at_lower_bound(a, other);
        assert(entries_get(a, other) == entries_get(b, other));
        let m = lower_bound(a, other);
        lemma_lower_bound(a, other);
        assert(a[m] == b[i]);
        assert(entry_keys(b)[i] == other && entry_keys(b)[j] == key);
        assert(bytes_lt(other, key));
        if m < i {
            lemma_same_entry(a, b, m);
            lemma_get_member(b, m);
        } else if m > i {
            assert(entry_keys(a)[i] == key && entry_keys(a)[m] == other);
            assert(bytes_lt(key, other));
            lemma_lt_asymmetric(key, other);
        }
    }
}

/// Entries with strictly ascending keys are determined by what each key is
/// bound to.
pub proof fn lemma_entries_determined(a: Seq<(Seq<u8>, Bencode)>, b: Seq<(Seq<u8>, Bencode)>)
    requires
        strictly_ascending(entry_keys(a)),
        strictly_ascending(entry_keys(b)),
        forall|q: Seq<u8>| #[trigger] entries_get(a, q) == entries_get(b, q),
    ensures
        a == b,
{
    if a.len() > 0 {
        lemma_same_entry(a, b, a.len() - 1);
    }
    if b.len() > 0 {
        lemma_same_entry(b, a, b.len() - 1);
    }
    assert forall|i: int| 0 <= i < a.len() implies a[i] == b[i] by {
        lemma_same_entry(a, b, i);
    }
    assert(a =~= b);
}

/// Bindings of different keys can be made in either order: the entries are
/// the same.
pub proof fn lemma_insert_commutes(
    entries: Seq<(Seq<u8>, Bencode)>,
    k1: Seq<u8>,
    v1: Bencode,
    k2: Seq<u8>,
    v2: Bencode,
)
    requires
        strictly_ascending(entry_keys(entries)),
        k1 != k2,
    ensures
        entries_insert(entries_insert(entries, k1, v1), k2, v2) == entries_insert(
            entries_insert(entries, k2, v2),
            k1,
            v1,
        ),
{
    let first = entries_insert(entries, k1, v1);
    let second = entries_insert(entries, k2, v2);
    let a = entries_insert(first, k2, v2);
    let b = entries_insert(second, k1, v1);
    lemma_insert_keeps_order(entries, k1, v1);
    lemma_insert_keeps_order(entries, k2, v2);
    lemma_insert_keeps_order(first, k2, v2);
    lemma_insert_keeps_order(second, k1, v1);
    assert forall|q: Seq<u8>| #[trigger] entries_get(a, q) == entries_get(b, q) by {
        lemma_insert_get(entries, k1, v1, q);
        lemma_insert_get(entries, k2, v2, q);
        lemma_insert_get(first, k2, v2, q);
        lemma_insert_get(second, k1, v1, q);
    }
    lemma_entries_determined(a, b);
}

/// Of two bindings of one key the later wins: the entries are as if the
/// earlier had not been made.
pub proof fn lemma_insert_overwrites(
    entries: Seq<(Seq<u8>, Bencode)>,
    key: Seq<u8>,
    v1: Bencode,
    v2: Bencode,
)
    requires
        strictly_ascending(entry_keys(entries)),
    ensures
        entries_insert(entries_insert(entries, key, v1), key, v2) == entries_insert(
            entries,
            key,
            v2,
        ),
{
    let first = entries_insert(entries, key, v1);
    let a = entries_insert(first, key, v2);
    let b = entries_insert(entries, key, v2);
    lemma_insert_keeps_order(entries, key, v1);
    lemma_insert_keeps_order(entries, key, v2);
    lemma_insert_keeps_order(first, key, v2);
    assert forall|q: Seq<u8>| #[trigger] entries_get(a, q) == entries_get(b, q) by {
        lemma_insert_get(entries, key, v1, q);
        lemma_insert_get(entries, key, v2, q);
        lemma_insert_get(first, key, v2, q);
    }
    lemma_entries_determined(a, b);
}

/// The place of the `i`-th entry in the encoding of a dictionary.
pub open spec fn entry_offset(entries: Seq<(Seq<u8>, Bencode)>, i: nat) -> int {
    1 + entries_encoding(entries, i).len() as int
}

/// In the encoding of a dictionary the keys stand in the order of the
/// entries: the key of each entry stands at the place of the entry, and the
/// place of a later entry lies behind it. Where the keys of the entries are
/// strictly ascending, as those of every dictionary are, the keys of the
/// encoding are therefore in ascending byte order.
pub proof fn lemma_dict_encoding_order(entries: Seq<(Seq<u8>, Bencode)>, i: nat, j: nat)
    requires
        i < j < entries.len(),
    ensures
        holds_at(
            encoding(Bencode::Dict(entries)),
            entry_offset(entries, i),
            string_encoding(entries[i as int].0),
        ),
        holds_at(
            encoding(Bencode::Dict(entries)),
            entry_offset(entries, j),
            string_encoding(entries[j as int].0),
        ),
        entry_offset(entries, i) + string_encoding(entries[i as int].0).len() <= entry_offset(
            entries,
            j,
        ),
{
    lemma_key_stands(entries, i);
    lemma_key_stands(entries, j);
    lemma_entries_encoding_prefix(entries, i + 1, j);
}

/// The key of the `i`-th entry stands at the place of the entry.
proof fn lemma_key_stands(entries: Seq<(Seq<u8>, Bencode)>, i: nat)
    requires
        i < entries.len(),
    ensures
        holds_at(
            encoding(Bencode::Dict(entries)),
            entry_offset(entries, i),
            string_encoding(entries[i as int].0),
        ),
{
    let whole = encoding(Bencode::Dict(entries));
    let all = entries_encoding(entries, entries.len());
    let here = entries_encoding(entries, i);
    let key_enc = string_encoding(entries[i as int].0);
    let next = entries_encoding(entries, i + 1);
    lemma_entries_encoding_prefix(entries, i + 1, entries.len());
    assert(next == here + key_enc + encoding(entries[i as int].1));
    assert(whole.subrange(1 + here.len() as int, 1 + here.len() + key_enc.len() as int) =~= key_enc) by {
        assert forall|k: int| 0 <= k < key_enc.len() implies whole[1 + here.len() + k]
            == key_enc[k] by {
            assert(all.subrange(0, next.len() as int)[here.len() + k] == all[here.len() + k]);
            assert(next[here.len() + k] == key_enc[k]);
        }
    }
}

} // verus!
