//! The bencode value type and its mathematical model.

use vstd::prelude::*;

pub mod ascii;
pub mod bytes_order;
pub mod decoder;
pub mod dict;
pub mod encoding;
pub mod debug_form;
pub mod pretty;

pub use dict::BencodeDict;

verus! {

/// A decoded bencode value.
#[derive(Debug, PartialEq)]
pub enum Bencode {
    /// Integers are represented by an 'i' followed by the number in base 10 followed by an 'e'.
    /// For example i3e corresponds to 3 and i-3e corresponds to -3.
    /// i-0e is invalid.
    /// All encodings with a leading zero, such as i03e, are invalid, other than i0e, which of
    /// course corresponds to 0.
    Integer(i64),
    /// Lists are encoded as an 'l' followed by their elements (also bencoded) followed by an 'e'.
    /// For example l4:spam4:eggse corresponds to ['spam', 'eggs'].
    List(Vec<Bencode>),
    /// Byte strings are encoded as their length in base 10, a ':' and the raw bytes.
    String(Vec<u8>),
    /// Dictionaries are encoded as a 'd' followed by a list of alternating keys and their
    /// corresponding values followed by an 'e'.
    /// For example, d3:cow3:moo4:spam4:eggse corresponds to {'cow': 'moo', 'spam': 'eggs'}
    /// and d4:spaml1:a1:bee corresponds to {'spam': ['a', 'b']}.
    /// Keys must be strings and appear in sorted order (sorted as raw strings, not alphanumerics).
    Dictionary(BencodeDict),
}

/// The mathematical model of a bencode value.
pub enum BencodeValue {
    Integer(int),
    List(Seq<BencodeValue>),
    String(Seq<u8>),
    Dictionary(Map<Seq<char>, BencodeValue>),
}

impl Bencode {
    /// The model of a value.
    pub open spec fn value(self) -> BencodeValue
        decreases self,
    {
        match self {
            Bencode::Integer(n) => BencodeValue::Integer(n as int),
            Bencode::List(items) => BencodeValue::List(values_of(items@)),
            Bencode::String(bytes) => BencodeValue::String(bytes@),
            Bencode::Dictionary(d) => BencodeValue::Dictionary(d.map_of()),
        }
    }
}

/// The models of a sequence of values, in order.
pub open spec fn values_of(items: Seq<Bencode>) -> Seq<BencodeValue>
    decreases items,
{
    if items.len() == 0 {
        Seq::empty()
    } else {
        values_of(items.subrange(0, items.len() - 1)).push(items[items.len() - 1].value())
    }
}

/// Sequences of values with the same models, position by position, have the same models.
pub proof fn lemma_values_of_pointwise(a: Seq<Bencode>, b: Seq<Bencode>)
    requires
        a.len() == b.len(),
        forall|i: int| 0 <= i < a.len() ==> (#[trigger] a[i]).value() == b[i].value(),
    ensures
        values_of(a) == values_of(b),
    decreases a.len(),
{
    if a.len() > 0 {
        let n = a.len() - 1;
        lemma_values_of_pointwise(a.subrange(0, n), b.subrange(0, n));
    }
}

/// The models of a sequence of values, position by position.
pub proof fn lemma_values_of_index(a: Seq<Bencode>)
    ensures
        values_of(a).len() == a.len(),
        forall|i: int| 0 <= i < a.len() ==> #[trigger] values_of(a)[i] == a[i].value(),
    decreases a.len(),
{
    if a.len() > 0 {
        let n = a.len() - 1;
        lemma_values_of_index(a.subrange(0, n));
        assert forall|i: int| 0 <= i < a.len() implies #[trigger] values_of(a)[i] == a[i].value() by {
            if i < n {
                assert(a.subrange(0, n)[i] == a[i]);
            }
        }
    }
}

impl Bencode {
    /// A copy of this value, with the same model.
    pub fn duplicate(&self) -> (r: Bencode)
        ensures
            r.value() == self.value(),
        decreases self,
    {
        match self {
            Bencode::Integer(n) => Bencode::Integer(*n),
            Bencode::String(bytes) => {
                let copy = vstd::slice::slice_to_vec(bytes.as_slice());
                Bencode::String(copy)
            },
            Bencode::List(items) => {
                let mut copy: Vec<Bencode> = Vec::new();
                let mut i: usize = 0;
                while i < items.len()
                    invariant
                        *self == Bencode::List(*items),
                        i <= items@.len(),
                        copy@.len() == i,
                        forall|j: int| 0 <= j < i ==> (#[trigger] copy@[j]).value() == items@[j].value(),
                    decreases items@.len() - i,
                {
                    proof {
                        vstd::std_specs::vec::axiom_vec_index_decreases(*items, i as int);
                        assert(decreases_to!(*self => (*self)->List_0));
                        assert(decreases_to!(*self => items[i as int]));
                    }
                    let element = items[i].duplicate();
                    copy.push(element);
                    i = i + 1;
                }
                proof {
                    lemma_values_of_pointwise(copy@, items@);
                }
                Bencode::List(copy)
            },
            Bencode::Dictionary(d) => Bencode::Dictionary(d.duplicate()),
        }
    }
}

impl Clone for Bencode {
    fn clone(&self) -> (r: Self)
        ensures
            r.value() == self.value(),
    {
        self.duplicate()
    }
}

impl View for Bencode {
    type V = BencodeValue;

    open spec fn view(&self) -> BencodeValue {
        self.value()
    }
}

} // verus!
