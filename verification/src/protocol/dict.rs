//! A bencode dictionary: string keys kept in strictly increasing byte order.

use vstd::prelude::*;
use vstd::utf8::*;

use crate::protocol::bytes_order::{
    bytes_lt, compare_bytes, lemma_bytes_lt_asymmetric, lemma_bytes_lt_irreflexive,
    lemma_bytes_lt_total, lemma_bytes_lt_transitive, BytesOrder,
};
use crate::protocol::{Bencode, BencodeValue};

verus! {

broadcast use vstd::utf8::encode_utf8_decode_utf8;

/// The bytes of a key, as it is stored (UTF-8).
pub open spec fn key_bytes(key: Seq<char>) -> Seq<u8> {
    encode_utf8(key)
}

/// The keys of `entries` appear in strictly increasing byte order.
pub open spec fn keys_sorted(entries: Seq<(String, Bencode)>) -> bool {
    forall|i: int, j: int|
        0 <= i < j < entries.len() ==> bytes_lt(
            #[trigger] key_bytes(entries[i].0@),
            #[trigger] key_bytes(entries[j].0@),
        )
}

/// The map that a sequence of entries stands for.
pub open spec fn entries_map(entries: Seq<(String, Bencode)>) -> Map<Seq<char>, BencodeValue>
    decreases entries,
{
    if entries.len() == 0 {
        Map::empty()
    } else {
        let last = entries[entries.len() - 1];
        entries_map(entries.subrange(0, entries.len() - 1)).insert(last.0@, last.1.value())
    }
}

/// A dictionary of bencode values keyed by strings.
#[derive(Debug, PartialEq)]
pub struct BencodeDict {
    entries: Vec<(String, Bencode)>,
}

impl BencodeDict {
    #[verifier::type_invariant]
    spec fn sorted(self) -> bool {
        keys_sorted(self.entries@)
    }

    /// The entries, in increasing key order.
    pub closed spec fn entries_seq(self) -> Seq<(String, Bencode)> {
        self.entries@
    }

    /// The map that this dictionary stands for.
    pub open spec fn map_of(self) -> Map<Seq<char>, BencodeValue>
        decreases self,
    {
        entries_map(self.entries_seq())
    }

    /// An empty dictionary.
    pub fn new() -> (d: Self)
        ensures
            d.map_of() == Map::<Seq<char>, BencodeValue>::empty(),
            d.entries_seq().len() == 0,
    {
        BencodeDict { entries: Vec::new() }
    }

    /// The number of entries.
    pub fn len(&self) -> (n: usize)
        ensures
            n == self.entries_seq().len(),
            n == self.map_of().len(),
    {
        proof {
            use_type_invariant(self);
            lemma_entries_map(self.entries@);
        }
        self.entries.len()
    }

    /// The `i`-th entry in increasing key order.
    pub fn entry_at(&self, i: usize) -> (e: (&String, &Bencode))
        requires
            i < self.entries_seq().len(),
        ensures
            *e.0 == self.entries_seq()[i as int].0,
            *e.1 == self.entries_seq()[i as int].1,
    {
        let entry = &self.entries[i];
        (&entry.0, &entry.1)
    }

    /// A copy of this dictionary, with the same model.
    pub fn duplicate(&self) -> (r: BencodeDict)
        ensures
            r.map_of() == self.map_of(),
            r.entries_seq().len() == self.entries_seq().len(),
        decreases self,
    {
        proof {
            use_type_invariant(self);
        }
        let mut copy: Vec<(String, Bencode)> = Vec::new();
        let mut i: usize = 0;
        while i < self.entries.len()
            invariant
                i <= self.entries@.len(),
                keys_sorted(self.entries@),
                copy@.len() == i,
                forall|j: int|
                    0 <= j < i ==> (#[trigger] copy@[j]).0 == self.entries@[j].0
                        && copy@[j].1.value() == self.entries@[j].1.value(),
            decreases self.entries@.len() - i,
        {
            proof {
                vstd::std_specs::vec::axiom_vec_index_decreases(self.entries, i as int);
            }
            let entry = &self.entries[i];
            let key = entry.0.clone();
            let value = entry.1.duplicate();
            copy.push((key, value));
            i = i + 1;
        }
        proof {
            assert forall|a: int, b: int| 0 <= a < b < copy@.len() implies bytes_lt(
                #[trigger] key_bytes(copy@[a].0@),
                #[trigger] key_bytes(copy@[b].0@),
            ) by {
                assert(copy@[a].0 == self.entries@[a].0);
                assert(copy@[b].0 == self.entries@[b].0);
            }
            lemma_entries_map_pointwise(copy@, self.entries@);
        }
        BencodeDict { entries: copy }
    }

    /// Finds the position of `key`: the first entry whose key does not sort before it.
    fn find(&self, key: &[u8]) -> (r: (usize, bool))
        ensures
            r.0 <= self.entries_seq().len(),
            forall|i: int| 0 <= i < r.0 ==> bytes_lt(#[trigger] key_bytes(self.entries_seq()[i].0@), key@),
            r.0 < self.entries_seq().len() ==> !bytes_lt(key_bytes(self.entries_seq()[r.0 as int].0@), key@),
            r.1 <==> (r.0 < self.entries_seq().len() && key_bytes(self.entries_seq()[r.0 as int].0@) == key@),
    {
        proof {
            use_type_invariant(self);
        }
        let mut j: usize = 0;
        while j < self.entries.len()
            invariant
                j <= self.entries@.len(),
                forall|i: int| 0 <= i < j ==> bytes_lt(#[trigger] key_bytes(self.entries@[i].0@), key@),
            decreases self.entries@.len() - j,
        {
            let k: &str = self.entries[j].0.as_str();
            match compare_bytes(k.as_bytes(), key) {
                BytesOrder::Less => {},
                BytesOrder::Equal => {
                    proof { lemma_bytes_lt_irreflexive(key@); }
                    return (j, true);
                },
                BytesOrder::Greater => {
                    proof { lemma_bytes_lt_asymmetric(key@, key_bytes(self.entries@[j as int].0@)); }
                    return (j, false);
                },
            }
            j = j + 1;
        }
        (j, false)
    }

    /// Stores `value` under `key`, returning the value that was stored there before.
    pub fn insert(&mut self, key: String, value: Bencode) -> (old_value: Option<Bencode>)
        ensures
            final(self).map_of() == old(self).map_of().insert(key@, value.value()),
            keys_sorted(final(self).entries_seq()),
            old_value is None <==> !old(self).map_of().dom().contains(key@),
            old_value matches Some(v) ==> v.value() == old(self).map_of()[key@],
    {
        proof {
            use_type_invariant(&*self);
            lemma_entries_map(self.entries@);
        }
        let ghost old_entries = self.entries@;
        let (j, found) = self.find(key.as_str().as_bytes());
        if found {
            proof {
                assert(old_entries[j as int].0@ == key@) by {
                    assert(decode_utf8(encode_utf8(old_entries[j as int].0@)) == old_entries[j as int].0@);
                    assert(decode_utf8(encode_utf8(key@)) == key@);
                }
                lemma_sorted_remove(old_entries, j as int);
                lemma_sorted_update(old_entries, j as int, (key, value));
            }
            let mut entries: Vec<(String, Bencode)> = Vec::new();
            std::mem::swap(&mut entries, &mut self.entries);
            let (_old_key, old_val) = entries.remove(j);
            entries.insert(j, (key, value));
            assert(entries@ =~= old_entries.update(j as int, (key, value)));
            self.entries = entries;
            proof {
                lemma_map_after_store(old_entries, self.entries@, j as int, key, value, true);
            }
            Some(old_val)
        } else {
            proof {
                lemma_sorted_insert(old_entries, j as int, (key, value));
                assert forall|i: int| 0 <= i < old_entries.len() implies old_entries[i].0@ != key@ by {
                    lemma_bytes_lt_irreflexive(key_bytes(key@));
                    if i > j {
                        assert(bytes_lt(key_bytes(old_entries[j as int].0@), key_bytes(old_entries[i].0@)));
                        lemma_bytes_lt_total(key_bytes(old_entries[j as int].0@), key_bytes(key@));
                    }
                }
            }
            let mut entries: Vec<(String, Bencode)> = Vec::new();
            std::mem::swap(&mut entries, &mut self.entries);
            entries.insert(j, (key, value));
            self.entries = entries;
            proof {
                lemma_map_after_store(old_entries, self.entries@, j as int, key, value, false);
                lemma_entries_map(old_entries);
            }
            None
        }
    }

    /// Looks up the value stored under `key`.
    pub fn get(&self, key: &str) -> (r: Option<&Bencode>)
        ensures
            r is None <==> !self.map_of().dom().contains(key@),
            r matches Some(v) ==> v.value() == self.map_of()[key@],
    {
        proof {
            use_type_invariant(self);
            lemma_entries_map(self.entries@);
        }
        let (j, found) = self.find(key.as_bytes());
        if found {
            assert(self.entries@[j as int].0@ == key@) by {
                assert(decode_utf8(encode_utf8(self.entries@[j as int].0@)) == self.entries@[j as int].0@);
                assert(decode_utf8(encode_utf8(key@)) == key@);
            }
            Some(&self.entries[j].1)
        } else {
            proof {
                if self.map_of().dom().contains(key@) {
                    let i = choose|i: int| 0 <= i < self.entries@.len() && self.entries@[i].0@ == key@;
                    lemma_bytes_lt_irreflexive(key_bytes(key@));
                    if i > j {
                        assert(bytes_lt(
                            key_bytes(self.entries@[j as int].0@),
                            key_bytes(self.entries@[i].0@),
                        ));
                    }
                }
            }
            None
        }
    }
}

/// What a read gives back of a write: after storing `value` under `key`, the dictionary holds
/// `value` under `key`, and every other key is present, with its value, exactly when it was
/// before.
pub proof fn lemma_read_after_write(
    before: BencodeDict,
    after: BencodeDict,
    key: Seq<char>,
    value: BencodeValue,
    other: Seq<char>,
)
    requires
        after.map_of() == before.map_of().insert(key, value),
    ensures
        after.map_of().dom().contains(key),
        after.map_of()[key] == value,
        other != key ==> (after.map_of().dom().contains(other) <==> before.map_of().dom().contains(
            other,
        )),
        other != key && before.map_of().dom().contains(other) ==> after.map_of()[other]
            == before.map_of()[other],
{
}

/// The entries of a dictionary are smaller than the dictionary, as far as recursion goes.
pub broadcast proof fn lemma_entries_seq_decreases(d: BencodeDict)
    ensures
        #![trigger d.entries_seq()]
        decreases_to!(d => d.entries_seq()),
{
    assert(decreases_to!(d => d.entries));
}

/// Removing an entry keeps the keys sorted.
proof fn lemma_sorted_remove(entries: Seq<(String, Bencode)>, j: int)
    requires
        keys_sorted(entries),
        0 <= j < entries.len(),
    ensures
        keys_sorted(entries.remove(j)),
{
    let r = entries.remove(j);
    assert forall|a: int, b: int| 0 <= a < b < r.len() implies bytes_lt(
        #[trigger] key_bytes(r[a].0@),
        #[trigger] key_bytes(r[b].0@),
    ) by {
        let a0 = if a < j { a } else { a + 1 };
        let b0 = if b < j { b } else { b + 1 };
        assert(r[a] == entries[a0]);
        assert(r[b] == entries[b0]);
    }
}

/// Replacing an entry by one with the same key keeps the keys sorted.
proof fn lemma_sorted_update(entries: Seq<(String, Bencode)>, j: int, e: (String, Bencode))
    requires
        keys_sorted(entries),
        0 <= j < entries.len(),
        e.0@ == entries[j].0@,
    ensures
        keys_sorted(entries.update(j, e)),
{
    let r = entries.update(j, e);
    assert forall|a: int, b: int| 0 <= a < b < r.len() implies bytes_lt(
        #[trigger] key_bytes(r[a].0@),
        #[trigger] key_bytes(r[b].0@),
    ) by {
        assert(key_bytes(r[a].0@) == key_bytes(entries[a].0@));
        assert(key_bytes(r[b].0@) == key_bytes(entries[b].0@));
    }
}

/// Inserting an entry at its place in the order keeps the keys sorted.
proof fn lemma_sorted_insert(entries: Seq<(String, Bencode)>, j: int, e: (String, Bencode))
    requires
        keys_sorted(entries),
        0 <= j <= entries.len(),
        forall|i: int| 0 <= i < j ==> bytes_lt(#[trigger] key_bytes(entries[i].0@), key_bytes(e.0@)),
        j < entries.len() ==> !bytes_lt(key_bytes(entries[j].0@), key_bytes(e.0@)),
        j < entries.len() ==> key_bytes(entries[j].0@) != key_bytes(e.0@),
    ensures
        keys_sorted(entries.insert(j, e)),
{
    let r = entries.insert(j, e);
    if j < entries.len() {
        lemma_bytes_lt_total(key_bytes(entries[j].0@), key_bytes(e.0@));
    }
    assert forall|a: int, b: int| 0 <= a < b < r.len() implies bytes_lt(
        #[trigger] key_bytes(r[a].0@),
        #[trigger] key_bytes(r[b].0@),
    ) by {
        if a < j && b < j {
            assert(r[a] == entries[a] && r[b] == entries[b]);
        } else if a < j && b == j {
            assert(r[a] == entries[a] && r[b] == e);
        } else if a < j {
            assert(r[a] == entries[a] && r[b] == entries[b - 1]);
        } else if a == j {
            assert(r[a] == e && r[b] == entries[b - 1]);
            if b - 1 > j {
                lemma_bytes_lt_transitive(key_bytes(e.0@), key_bytes(entries[j].0@), key_bytes(entries[b - 1].0@));
            }
        } else {
            assert(r[a] == entries[a - 1] && r[b] == entries[b - 1]);
        }
    }
}

/// The map after storing `key` at position `j`, either replacing the entry there or inserting
/// a new one.
proof fn lemma_map_after_store(
    entries: Seq<(String, Bencode)>,
    stored: Seq<(String, Bencode)>,
    j: int,
    key: String,
    value: Bencode,
    replaced: bool,
)
    requires
        keys_sorted(entries),
        keys_sorted(stored),
        replaced ==> 0 <= j < entries.len() && entries[j].0@ == key@ && stored == entries.update(j, (key, value)),
        !replaced ==> 0 <= j <= entries.len() && stored == entries.insert(j, (key, value))
            && forall|i: int| 0 <= i < entries.len() ==> entries[i].0@ != key@,
    ensures
        entries_map(stored) == entries_map(entries).insert(key@, value.value()),
{
    lemma_entries_map(entries);
    lemma_entries_map(stored);
    let m0 = entries_map(entries);
    let m1 = entries_map(stored);
    let m2 = m0.insert(key@, value.value());
    assert(stored[j] == (key, value));
    assert forall|k: Seq<char>| #[trigger] m1.dom().contains(k) <==> m2.dom().contains(k) by {
        if m1.dom().contains(k) && k != key@ {
            let i = choose|i: int| 0 <= i < stored.len() && stored[i].0@ == k;
            let i0 = if replaced || i < j { i } else { i - 1 };
            assert(stored[i] == entries[i0]);
        }
        if m2.dom().contains(k) && k != key@ {
            let i = choose|i: int| 0 <= i < entries.len() && entries[i].0@ == k;
            let i1 = if replaced || i < j { i } else { i + 1 };
            assert(stored[i1] == entries[i]);
        }
    }
    assert forall|k: Seq<char>| #[trigger] m1.dom().contains(k) implies m1[k] == m2[k] by {
        if k != key@ {
            let i = choose|i: int| 0 <= i < stored.len() && stored[i].0@ == k;
            let i0 = if replaced || i < j { i } else { i - 1 };
            assert(stored[i] == entries[i0]);
            assert(m1[stored[i].0@] == stored[i].1.value());
            assert(m0[entries[i0].0@] == entries[i0].1.value());
        } else {
            assert(m1[stored[j].0@] == stored[j].1.value());
        }
    }
    assert(m1 =~= m2);
}

/// Entries with the same keys and the same models of values, position by position, stand for
/// the same map.
proof fn lemma_entries_map_pointwise(a: Seq<(String, Bencode)>, b: Seq<(String, Bencode)>)
    requires
        a.len() == b.len(),
        forall|i: int|
            0 <= i < a.len() ==> (#[trigger] a[i]).0@ == b[i].0@ && a[i].1.value() == b[i].1.value(),
    ensures
        entries_map(a) == entries_map(b),
    decreases a.len(),
{
    if a.len() > 0 {
        let n = a.len() - 1;
        lemma_entries_map_pointwise(a.subrange(0, n), b.subrange(0, n));
    }
}

/// What the map of a sequence of entries with strictly increasing keys holds.
pub proof fn lemma_entries_map(entries: Seq<(String, Bencode)>)
    requires
        keys_sorted(entries),
    ensures
        forall|k: Seq<char>|
            #[trigger] entries_map(entries).dom().contains(k) <==> exists|i: int|
                0 <= i < entries.len() && entries[i].0@ == k,
        forall|i: int|
            0 <= i < entries.len() ==> #[trigger] entries_map(entries)[entries[i].0@]
                == entries[i].1.value(),
        entries_map(entries).dom().finite(),
        entries_map(entries).len() == entries.len(),
    decreases entries.len(),
{
    if entries.len() > 0 {
        let n = entries.len() - 1;
        let prefix = entries.subrange(0, n);
        assert(keys_sorted(prefix)) by {
            assert forall|i: int, j: int| 0 <= i < j < prefix.len() implies bytes_lt(
                #[trigger] key_bytes(prefix[i].0@),
                #[trigger] key_bytes(prefix[j].0@),
            ) by {
                assert(prefix[i] == entries[i]);
                assert(prefix[j] == entries[j]);
            }
        }
        lemma_entries_map(prefix);
        let last = entries[n];
        assert(!entries_map(prefix).dom().contains(last.0@)) by {
            if entries_map(prefix).dom().contains(last.0@) {
                let i = choose|i: int| 0 <= i < prefix.len() && prefix[i].0@ == last.0@;
                assert(prefix[i] == entries[i]);
                assert(bytes_lt(key_bytes(entries[i].0@), key_bytes(entries[n].0@)));
                lemma_bytes_lt_irreflexive(key_bytes(last.0@));
            }
        }
        assert forall|k: Seq<char>|
            #[trigger] entries_map(entries).dom().contains(k) <==> exists|i: int|
                0 <= i < entries.len() && entries[i].0@ == k by {
            if entries_map(entries).dom().contains(k) {
                if k != last.0@ {
                    let i = choose|i: int| 0 <= i < prefix.len() && prefix[i].0@ == k;
                    assert(prefix[i] == entries[i]);
                }
            }
            if exists|i: int| 0 <= i < entries.len() && entries[i].0@ == k {
                let i = choose|i: int| 0 <= i < entries.len() && entries[i].0@ == k;
                if i < n {
                    assert(prefix[i] == entries[i]);
                }
            }
        }
        assert forall|i: int|
            0 <= i < entries.len() implies #[trigger] entries_map(entries)[entries[i].0@]
                == entries[i].1.value() by {
            if i < n {
                assert(prefix[i] == entries[i]);
                assert(bytes_lt(key_bytes(entries[i].0@), key_bytes(entries[n].0@)));
                if entries[i].0@ == last.0@ {
                    lemma_bytes_lt_irreflexive(key_bytes(last.0@));
                }
            }
        }
    }
}

} // verus!
