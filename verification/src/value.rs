//! The bencode value model.
//!
//! [`Bencode`] is the mathematical value: a byte string, an integer, a list,
//! or a dictionary given as its entries in stored order. [`Value`] and
//! [`Dict`] are the executable types; each has a view into the model.

use vstd::prelude::*;
use crate::order::{bytes_equal, bytes_less, bytes_lt, strictly_ascending};
use crate::order::{lemma_lt_irreflexive, lemma_lt_total, lemma_lt_transitive};

verus! {

/// A bencoded document as a mathematical value.
pub enum Bencode {
    /// A byte string.
    Str(Seq<u8>),
    /// An integer.
    Int(int),
    /// An ordered sequence of values.
    List(Seq<Bencode>),
    /// A dictionary: its entries, as key and value, in stored order.
    Dict(Seq<(Seq<u8>, Bencode)>),
}

/// The keys of a sequence of dictionary entries, in the same order.
pub open spec fn entry_keys(entries: Seq<(Seq<u8>, Bencode)>) -> Seq<Seq<u8>> {
    Seq::new(entries.len(), |i: int| entries[i].0)
}

impl Bencode {
    /// Whether the value is canonical: every integer fits in 32 signed bits,
    /// and the keys of every dictionary, at any depth, are strictly ascending.
    pub open spec fn wf(self) -> bool
        decreases self,
    {
        match self {
            Bencode::Str(_) => true,
            Bencode::Int(i) => i32::MIN <= i <= i32::MAX,
            Bencode::List(items) => forall|i: int|
                0 <= i < items.len() ==> (#[trigger] items[i]).wf(),
            Bencode::Dict(entries) => {
                &&& strictly_ascending(entry_keys(entries))
                &&& forall|i: int| 0 <= i < entries.len() ==> (#[trigger] entries[i]).1.wf()
            },
        }
    }

    /// Whether lists and dictionaries nest at most `depth` levels deep.
    pub open spec fn fits_depth(self, depth: nat) -> bool
        decreases self,
    {
        match self {
            Bencode::Str(_) => true,
            Bencode::Int(_) => true,
            Bencode::List(items) => depth > 0 && forall|i: int|
                0 <= i < items.len() ==> (#[trigger] items[i]).fits_depth((depth - 1) as nat),
            Bencode::Dict(entries) => depth > 0 && forall|i: int|
                0 <= i < entries.len() ==> (#[trigger] entries[i]).1.fits_depth(
                    (depth - 1) as nat,
                ),
        }
    }
}

/// The number of leading entries of `entries` whose key comes before `key`.
pub open spec fn lower_bound(entries: Seq<(Seq<u8>, Bencode)>, key: Seq<u8>) -> int
    decreases entries.len(),
{
    if entries.len() == 0 || !bytes_lt(entries[0].0, key) {
        0
    } else {
        1 + lower_bound(entries.drop_first(), key)
    }
}

/// The entries after `key` is bound to `value`: an entry with that key is
/// replaced where it stands, otherwise the new entry goes before the first
/// entry whose key does not come before `key`.
pub open spec fn entries_insert(
    entries: Seq<(Seq<u8>, Bencode)>,
    key: Seq<u8>,
    value: Bencode,
) -> Seq<(Seq<u8>, Bencode)> {
    let p = lower_bound(entries, key);
    if p < entries.len() && entries[p].0 == key {
        entries.update(p, (key, value))
    } else {
        entries.insert(p, (key, value))
    }
}

/// The value that `entries` holds under `key`, if any: that of the first
/// entry with that key.
pub open spec fn entries_get(entries: Seq<(Seq<u8>, Bencode)>, key: Seq<u8>) -> Option<Bencode>
    decreases entries.len(),
{
    if entries.len() == 0 {
        None
    } else if entries[0].0 == key {
        Some(entries[0].1)
    } else {
        entries_get(entries.drop_first(), key)
    }
}

/// A bencode dictionary: byte-string keys bound to values, kept in strictly
/// ascending key order.
#[derive(Debug, Eq)]
pub struct Dict {
    entries: Vec<(Vec<u8>, Value)>,
}

/// A bencoded document.
#[derive(Debug, Eq)]
pub enum Value {
    /// A byte string.
    Str(Vec<u8>),
    /// A signed 32-bit integer.
    Int(i32),
    /// An ordered sequence of values.
    List(Vec<Value>),
    /// A dictionary.
    Dict(Dict),
}

/// The views of the values of `items`, in the same order.
pub open spec fn values_view(items: Vec<Value>) -> Seq<Bencode>
    decreases items,
{
    Seq::new(
        items.len() as nat,
        |i: int|
            if 0 <= i < items.len() {
                items[i]@
            } else {
                arbitrary()
            },
    )
}

impl View for Value {
    type V = Bencode;

    open spec fn view(&self) -> Bencode
        decreases self,
    {
        match self {
            Value::Str(s) => Bencode::Str(s@),
            Value::Int(i) => Bencode::Int(*i as int),
            Value::List(items) => Bencode::List(values_view(*items)),
            Value::Dict(d) => Bencode::Dict(d@),
        }
    }
}

impl View for Dict {
    type V = Seq<(Seq<u8>, Bencode)>;

    closed spec fn view(&self) -> Seq<(Seq<u8>, Bencode)>
        decreases self,
    {
        Seq::new(
            self.entries.len() as nat,
            |i: int|
                if 0 <= i < self.entries.len() {
                    (self.entries[i].0@, self.entries[i].1@)
                } else {
                    arbitrary()
                },
        )
    }
}

/// Where the first `n` entries have keys that come before `key`, the
/// position of `key` is `n` more than its position among the others.
proof fn lemma_lower_bound_skip(entries: Seq<(Seq<u8>, Bencode)>, key: Seq<u8>, n: int)
    requires
        0 <= n <= entries.len(),
        forall|i: int| 0 <= i < n ==> bytes_lt(#[trigger] entries[i].0, key),
    ensures
        lower_bound(entries, key) == n + lower_bound(entries.skip(n), key),
    decreases n,
{
    if n == 0 {
        assert(entries.skip(0) =~= entries);
    } else {
        let rest = entries.drop_first();
        assert(bytes_lt(entries[0].0, key));
        assert forall|i: int| 0 <= i < n - 1 implies bytes_lt(#[trigger] rest[i].0, key) by {
            assert(rest[i] == entries[i + 1]);
        }
        lemma_lower_bound_skip(rest, key, n - 1);
        assert(rest.skip(n - 1) =~= entries.skip(n));
    }
}

/// Where `lower_bound` points: every entry before it has a smaller key, and
/// the entry at it, if there is one, has not.
pub proof fn lemma_lower_bound(entries: Seq<(Seq<u8>, Bencode)>, key: Seq<u8>)
    ensures
        0 <= lower_bound(entries, key) <= entries.len(),
        forall|i: int|
            0 <= i < lower_bound(entries, key) ==> bytes_lt(#[trigger] entries[i].0, key),
        lower_bound(entries, key) < entries.len() ==> !bytes_lt(
            entries[lower_bound(entries, key)].0,
            key,
        ),
    decreases entries.len(),
{
    if entries.len() > 0 && bytes_lt(entries[0].0, key) {
        let rest = entries.drop_first();
        lemma_lower_bound(rest, key);
        let p = lower_bound(entries, key);
        assert forall|i: int| 0 <= i < p implies bytes_lt(#[trigger] entries[i].0, key) by {
            if i > 0 {
                assert(entries[i] == rest[i - 1]);
            }
        }
        if p < entries.len() {
            assert(entries[p] == rest[p - 1]);
        }
    }
}

/// Binding a key in entries with strictly ascending keys leaves the keys
/// strictly ascending.
pub proof fn lemma_insert_keeps_order(
    entries: Seq<(Seq<u8>, Bencode)>,
    key: Seq<u8>,
    value: Bencode,
)
    requires
        strictly_ascending(entry_keys(entries)),
    ensures
        strictly_ascending(entry_keys(entries_insert(entries, key, value))),
{
    let p = lower_bound(entries, key);
    let after = entries_insert(entries, key, value);
    let keys = entry_keys(entries);
    let new_keys = entry_keys(after);
    lemma_lower_bound(entries, key);
    if p < entries.len() && entries[p].0 == key {
        assert(new_keys =~= keys);
    } else {
        assert forall|i: int, j: int| 0 <= i < j < new_keys.len() implies bytes_lt(
            #[trigger] new_keys[i],
            #[trigger] new_keys[j],
        ) by {
            if j < p {
                assert(new_keys[i] == keys[i] && new_keys[j] == keys[j]);
            } else if j == p {
                assert(new_keys[i] == entries[i].0);
            } else if i == p {
                // the old entry at `p` does not come before `key`, nor is it `key`
                assert(new_keys[j] == keys[j - 1]);
                lemma_lt_total(keys[p], key);
                assert(keys[p] == entries[p].0);
                if j - 1 > p {
                    assert(bytes_lt(keys[p], keys[j - 1]));
                    lemma_lt_transitive(key, keys[p], keys[j - 1]);
                }
            } else if i < p {
                assert(new_keys[i] == keys[i] && new_keys[j] == keys[j - 1]);
            } else {
                assert(new_keys[i] == keys[i - 1] && new_keys[j] == keys[j - 1]);
            }
        }
    }
}

/// Entries with strictly ascending keys hold no key twice: looking a key up
/// finds the entry at its position, or nothing.
pub proof fn lemma_get_at_lower_bound(entries: Seq<(Seq<u8>, Bencode)>, key: Seq<u8>)
    requires
        strictly_ascending(entry_keys(entries)),
    ensures
        entries_get(entries, key) == if lower_bound(entries, key) < entries.len()
            && entries[lower_bound(entries, key)].0 == key {
            Some(entries[lower_bound(entries, key)].1)
        } else {
            None
        },
    decreases entries.len(),
{
    if entries.len() > 0 {
        let rest = entries.drop_first();
        let keys = entry_keys(entries);
        assert forall|i: int, j: int| 0 <= i < j < rest.len() implies bytes_lt(
            #[trigger] entry_keys(rest)[i],
            #[trigger] entry_keys(rest)[j],
        ) by {
            assert(entry_keys(rest)[i] == keys[i + 1] && entry_keys(rest)[j] == keys[j + 1]);
        }
        lemma_get_at_lower_bound(rest, key);
        lemma_lower_bound(rest, key);
        if entries[0].0 == key {
            lemma_lt_irreflexive(key);
        } else if bytes_lt(entries[0].0, key) {
            let q = lower_bound(rest, key);
            if q < rest.len() {
                assert(rest[q] == entries[q + 1]);
            }
        } else {
            // `key` comes before the first key, so before all of them
            lemma_lt_total(entries[0].0, key);
            assert(keys[0] == entries[0].0);
            assert forall|i: int| 0 <= i < rest.len() implies bytes_lt(
                key,
                #[trigger] rest[i].0,
            ) by {
                assert(rest[i].0 == keys[i + 1]);
                assert(bytes_lt(keys[0], keys[i + 1]));
                lemma_lt_transitive(key, keys[0], keys[i + 1]);
            }
            lemma_get_absent_below(rest, key);
        }
    }
}

/// A key that comes before every key of `entries` is not bound in them.
proof fn lemma_get_absent_below(entries: Seq<(Seq<u8>, Bencode)>, key: Seq<u8>)
    requires
        forall|i: int| 0 <= i < entries.len() ==> bytes_lt(key, #[trigger] entries[i].0),
    ensures
        entries_get(entries, key) is None,
    decreases entries.len(),
{
    if entries.len() > 0 {
        let rest = entries.drop_first();
        assert(bytes_lt(key, entries[0].0));
        lemma_lt_irreflexive(key);
        assert forall|i: int| 0 <= i < rest.len() implies bytes_lt(key, #[trigger] rest[i].0) by {
            assert(rest[i] == entries[i + 1]);
        }
        lemma_get_absent_below(rest, key);
    }
}

impl Dict {
    /// Every dictionary keeps its keys strictly ascending.
    #[verifier::type_invariant]
    closed spec fn ordered(&self) -> bool {
        strictly_ascending(entry_keys(self@))
    }

    /// The empty dictionary.
    pub fn new() -> (d: Dict)
        ensures
            d@ == Seq::<(Seq<u8>, Bencode)>::empty(),
    {
        let d = Dict { entries: Vec::new() };
        assert(d@ =~= Seq::<(Seq<u8>, Bencode)>::empty());
        d
    }

    /// The number of entries. The keys of any dictionary are strictly
    /// ascending.
    pub fn len(&self) -> (n: usize)
        ensures
            n == self@.len(),
            strictly_ascending(entry_keys(self@)),
    {
        proof {
            use_type_invariant(self);
        }
        self.entries.len()
    }

    /// The key of the entry at position `i`, counted in ascending key order.
    pub fn key_at(&self, i: usize) -> (k: &Vec<u8>)
        requires
            i < self@.len(),
        ensures
            k@ == self@[i as int].0,
    {
        &self.entries[i].0
    }

    /// The value of the entry at position `i`, counted in ascending key order.
    pub fn value_at(&self, i: usize) -> (v: &Value)
        requires
            i < self@.len(),
        ensures
            v@ == self@[i as int].1,
    {
        &self.entries[i].1
    }

    /// Binds `key` to `value`. A value bound to `key` before is replaced:
    /// the last write wins.
    pub fn insert(&mut self, key: Vec<u8>, value: Value)
        ensures
            final(self)@ == entries_insert(old(self)@, key@, value@),
    {
        proof {
            use_type_invariant(&*self);
        }
        let ghost before = self@;
        let ghost after = entries_insert(before, key@, value@);
        let mut p: usize = 0;
        while p < self.entries.len() && bytes_less(
            self.entries[p].0.as_slice(),
            key.as_slice(),
        )
            invariant
                0 <= p <= self.entries.len(),
                self@ == before,
                forall|i: int| 0 <= i < p ==> bytes_lt(#[trigger] before[i].0, key@),
            decreases self.entries.len() - p,
        {
            p += 1;
        }
        proof {
            lemma_lower_bound_skip(before, key@, p as int);
            lemma_insert_keeps_order(before, key@, value@);
            if (p as int) < before.len() {
                assert(before.skip(p as int)[0] == before[p as int]);
            }
            assert(lower_bound(before, key@) == p);
        }
        let replace = p < self.entries.len() && bytes_equal(
            self.entries[p].0.as_slice(),
            key.as_slice(),
        );
        let ghost target = if replace {
            self.entries@.update(p as int, (key, value))
        } else {
            self.entries@.insert(p as int, (key, value))
        };
        assert forall|d: Dict| #[trigger] d.entries@ == target implies d@ == after by {
            assert(d@ =~= after);
        }
        let mut entries: Vec<(Vec<u8>, Value)> = Vec::new();
        core::mem::swap(&mut self.entries, &mut entries);
        if replace {
            entries.set(p, (key, value));
        } else {
            entries.insert(p, (key, value));
        }
        self.entries = entries;
    }

    /// The value bound to `key`, if there is one.
    pub fn get(&self, key: &[u8]) -> (r: Option<&Value>)
        ensures
            match r {
                Some(v) => entries_get(self@, key@) == Some(v@),
                None => entries_get(self@, key@) is None,
            },
    {
        proof {
            use_type_invariant(self);
        }
        let mut p: usize = 0;
        while p < self.entries.len() && bytes_less(self.entries[p].0.as_slice(), key)
            invariant
                0 <= p <= self.entries.len(),
                forall|i: int| 0 <= i < p ==> bytes_lt(#[trigger] self@[i].0, key@),
            decreases self.entries.len() - p,
        {
            p += 1;
        }
        proof {
            lemma_lower_bound_skip(self@, key@, p as int);
            if (p as int) < self@.len() {
                assert(self@.skip(p as int)[0] == self@[p as int]);
            }
            lemma_get_at_lower_bound(self@, key@);
        }
        if p < self.entries.len() && bytes_equal(self.entries[p].0.as_slice(), key) {
            Some(&self.entries[p].1)
        } else {
            None
        }
    }

    /// Appends an entry whose key comes after every key of the dictionary.
    pub(crate) fn push_entry(&mut self, key: Vec<u8>, value: Value)
        requires
            old(self)@.len() > 0 ==> bytes_lt(old(self)@.last().0, key@),
        ensures
            final(self)@ == old(self)@.push((key@, value@)),
    {
        proof {
            use_type_invariant(&*self);
        }
        let ghost before = self@;
        let ghost after = before.push((key@, value@));
        let ghost target = self.entries@.push((key, value));
        assert forall|d: Dict| #[trigger] d.entries@ == target implies d@ == after
            && strictly_ascending(entry_keys(d@)) by {
            assert(d@ =~= after);
            let keys = entry_keys(before);
            let new_keys = entry_keys(after);
            assert forall|i: int, j: int| 0 <= i < j < new_keys.len() implies bytes_lt(
                #[trigger] new_keys[i],
                #[trigger] new_keys[j],
            ) by {
                if j < keys.len() {
                    assert(new_keys[i] == keys[i] && new_keys[j] == keys[j]);
                } else {
                    assert(new_keys[i] == keys[i]);
                    assert(keys[keys.len() - 1] == before.last().0);
                    if i < keys.len() - 1 {
                        assert(bytes_lt(keys[i], keys[keys.len() - 1]));
                        lemma_lt_transitive(keys[i], before.last().0, key@);
                    }
                }
            }
        }
        let mut entries: Vec<(Vec<u8>, Value)> = Vec::new();
        core::mem::swap(&mut self.entries, &mut entries);
        entries.push((key, value));
        self.entries = entries;
    }
}

/// Copies a byte string.
fn copy_bytes(bytes: &Vec<u8>) -> (out: Vec<u8>)
    ensures
        out@ == bytes@,
{
    let mut out: Vec<u8> = Vec::new();
    let mut i: usize = 0;
    while i < bytes.len()
        invariant
            0 <= i <= bytes.len(),
            out@ == bytes@.subrange(0, i as int),
        decreases bytes.len() - i,
    {
        out.push(bytes[i]);
        i += 1;
        assert(out@ =~= bytes@.subrange(0, i as int));
    }
    assert(bytes@.subrange(0, i as int) =~= bytes@);
    out
}

impl Clone for Value {
    /// A copy of the value, with the same view.
    fn clone(&self) -> (copy: Value)
        ensures
            copy@ == self@,
        decreases self@,
    {
        match self {
            Value::Str(bytes) => Value::Str(copy_bytes(bytes)),
            Value::Int(i) => Value::Int(*i),
            Value::List(items) => {
                assert(self@->List_0 == values_view(*items));
                let mut copies: Vec<Value> = Vec::new();
                let mut i: usize = 0;
                while i < items.len()
                    invariant
                        0 <= i <= items.len(),
                        copies@.len() == i,
                        self@ is List,
                        self@->List_0 == values_view(*items),
                        forall|j: int| 0 <= j < i ==> (#[trigger] copies@[j])@ == items@[j]@,
                    decreases items.len() - i,
                {
                    assert(values_view(*items)[i as int] == items@[i as int]@);
                    copies.push(items[i].clone());
                    i += 1;
                }
                assert(values_view(copies) =~= values_view(*items));
                Value::List(copies)
            },
            Value::Dict(dict) => {
                assert(self@->Dict_0 == dict@);
                Value::Dict(dict.clone())
            },
        }
    }
}

impl Clone for Dict {
    /// A copy of the dictionary, with the same view.
    fn clone(&self) -> (copy: Dict)
        ensures
            copy@ == self@,
        decreases self@,
    {
        proof {
            use_type_invariant(self);
        }
        let mut copy = Dict::new();
        let mut i: usize = 0;
        while i < self.entries.len()
            invariant
                0 <= i <= self.entries.len(),
                strictly_ascending(entry_keys(self@)),
                copy@ == self@.subrange(0, i as int),
            decreases self.entries.len() - i,
        {
            proof {
                if i > 0 {
                    assert(entry_keys(self@)[i - 1] == self@[i - 1].0);
                    assert(entry_keys(self@)[i as int] == self@[i as int].0);
                }
            }
            assert(self@[i as int].1 == self.entries[i as int].1@);
            let key = copy_bytes(&self.entries[i].0);
            let value = self.entries[i].1.clone();
            copy.push_entry(key, value);
            i += 1;
            assert(copy@ =~= self@.subrange(0, i as int));
        }
        assert(self@.subrange(0, i as int) =~= self@);
        copy
    }
}

} // verus!
