//! A compact, one-line description of bencode values: `Integer(3)`, `String("spam")`,
//! `List([Integer(1), Integer(2)])`, `Dictionary({"cow": String("moo")})`.

use vstd::prelude::*;
use vstd::utf8::{decode_utf8, valid_utf8};

use crate::protocol::Bencode;
use crate::text::{
    decimal_text, digits_text, is_decimal_of, lemma_decimal_text_is_decimal,
    lemma_digits_text_is_decimal, push_decimal, push_digits, push_str, str_debug, str_debug_text,
    string_from_chars, string_from_utf8,
};

verus! {

broadcast use crate::protocol::dict::lemma_entries_seq_decreases;

/// Bytes in decimal, separated by a comma and a space.
pub open spec fn spaced_byte_list(bytes: Seq<u8>) -> Seq<char>
    decreases bytes.len(),
{
    if bytes.len() == 0 {
        Seq::empty()
    } else if bytes.len() == 1 {
        digits_text(bytes[0] as nat)
    } else {
        spaced_byte_list(bytes.drop_last()) + seq![',', ' '] + digits_text(bytes.last() as nat)
    }
}

/// The description of a value. A byte string that is valid UTF-8 is shown as quoted text, any
/// other as the list of its bytes.
pub open spec fn debug_text(b: Bencode) -> Seq<char>
    decreases b, 0nat,
{
    match b {
        Bencode::Integer(n) => "Integer("@ + decimal_text(n as int) + seq![')'],
        Bencode::String(bytes) => "String("@ + (if valid_utf8(bytes@) {
            str_debug_text(decode_utf8(bytes@))
        } else {
            seq!['['] + spaced_byte_list(bytes@) + seq![']']
        }) + seq![')'],
        Bencode::List(items) => "List(["@ + debug_items(items@) + seq![']', ')'],
        Bencode::Dictionary(d) => "Dictionary({"@ + debug_entries(d.entries_seq()) + seq!['}', ')'],
    }
}

/// The descriptions of values, separated by a comma and a space.
pub open spec fn debug_items(items: Seq<Bencode>) -> Seq<char>
    decreases items, 0nat,
{
    if items.len() == 0 {
        Seq::empty()
    } else if items.len() == 1 {
        debug_text(items[0])
    } else {
        debug_items(items.subrange(0, items.len() - 1)) + seq![',', ' '] + debug_text(
            items[items.len() - 1],
        )
    }
}

/// The description of a dictionary entry: the quoted key, a colon, and the value's description.
pub open spec fn debug_entry(entry: (String, Bencode)) -> Seq<char>
    decreases entry.1, 1nat,
{
    str_debug_text(entry.0@) + seq![':', ' '] + debug_text(entry.1)
}

/// The descriptions of dictionary entries, separated by a comma and a space.
pub open spec fn debug_entries(entries: Seq<(String, Bencode)>) -> Seq<char>
    decreases entries, 0nat,
{
    if entries.len() == 0 {
        Seq::empty()
    } else if entries.len() == 1 {
        debug_entry(entries[0])
    } else {
        debug_entries(entries.subrange(0, entries.len() - 1)) + seq![',', ' '] + debug_entry(
            entries[entries.len() - 1],
        )
    }
}

/// The description of an integer is `Integer(`, the number in decimal (with a `-` when negative),
/// and `)`; the returned text is the number's part.
pub proof fn lemma_debug_integer(n: i64) -> (number: Seq<char>)
    ensures
        debug_text(Bencode::Integer(n)) == "Integer("@ + number + seq![')'],
        n >= 0 ==> is_decimal_of(number, n as nat),
        n < 0 ==> number.len() >= 2 && number[0] == '-' && is_decimal_of(number.drop_first(), (-n) as nat),
{
    lemma_decimal_text_is_decimal(n as int);
    decimal_text(n as int)
}

/// The byte list in the description of a byte string that is not UTF-8 is the bytes, in order,
/// each in usual decimal, separated by `, `; the returned texts are the bytes' parts.
pub proof fn lemma_debug_byte_list(bytes: Seq<u8>) -> (parts: Seq<Seq<char>>)
    ensures
        parts.len() == bytes.len(),
        forall|i: int| 0 <= i < bytes.len() ==> is_decimal_of(#[trigger] parts[i], bytes[i] as nat),
        spaced_byte_list(bytes) == joined(parts),
    decreases bytes.len(),
{
    if bytes.len() == 0 {
        Seq::empty()
    } else {
        let rest = lemma_debug_byte_list(bytes.drop_last());
        lemma_digits_text_is_decimal(bytes.last() as nat);
        let parts = rest.push(digits_text(bytes.last() as nat));
        assert(parts.drop_last() =~= rest);
        assert forall|i: int| 0 <= i < bytes.len() implies is_decimal_of(#[trigger] parts[i], bytes[i] as nat) by {
            if i < bytes.len() - 1 {
                assert(parts[i] == rest[i]);
                assert(bytes.drop_last()[i] == bytes[i]);
            }
        }
        if bytes.len() == 1 {
            assert(rest.len() == 0);
        }
        parts
    }
}

/// Texts joined with `, ` between them.
pub open spec fn joined(parts: Seq<Seq<char>>) -> Seq<char>
    decreases parts.len(),
{
    if parts.len() == 0 {
        Seq::empty()
    } else if parts.len() == 1 {
        parts[0]
    } else {
        joined(parts.drop_last()) + seq![',', ' '] + parts.last()
    }
}

/// Appends bytes in decimal, separated by a comma and a space.
fn push_spaced_byte_list(out: &mut Vec<char>, bytes: &[u8])
    ensures
        final(out)@ == old(out)@ + spaced_byte_list(bytes@),
{
    let ghost start = out@;
    let mut i: usize = 0;
    while i < bytes.len()
        invariant
            i <= bytes@.len(),
            out@ == start + spaced_byte_list(bytes@.take(i as int)),
        decreases bytes@.len() - i,
    {
        if i > 0 {
            out.push(',');
            out.push(' ');
        }
        push_digits(out, bytes[i] as u64);
        assert(bytes@.take(i + 1).drop_last() =~= bytes@.take(i as int));
        assert(out@ =~= start + spaced_byte_list(bytes@.take(i + 1)));
        i = i + 1;
    }
    assert(bytes@.take(bytes@.len() as int) =~= bytes@);
}

impl Bencode {
    /// Appends the description of this value.
    fn write_debug(&self, out: &mut Vec<char>)
        ensures
            final(out)@ == old(out)@ + debug_text(*self),
        decreases self,
    {
        let ghost start = out@;
        match self {
            Bencode::Integer(value) => {
                push_str(out, "Integer(");
                push_decimal(out, *value);
                out.push(')');
            },
            Bencode::String(bytes) => {
                push_str(out, "String(");
                match string_from_utf8(vstd::slice::slice_to_vec(bytes.as_slice())) {
                    Some(text) => {
                        let quoted = str_debug(text.as_str());
                        push_str(out, quoted.as_str());
                    },
                    None => {
                        out.push('[');
                        push_spaced_byte_list(out, bytes.as_slice());
                        out.push(']');
                    },
                }
                out.push(')');
            },
            Bencode::List(items) => {
                push_str(out, "List([");
                let ghost open = out@;
                let n = items.len();
                let mut i: usize = 0;
                while i < n
                    invariant
                        *self == Bencode::List(*items),
                        n == items@.len(),
                        i <= n,
                        out@ == open + debug_items(items@.take(i as int)),
                    decreases n - i,
                {
                    let ghost before = out@;
                    proof {
                        vstd::std_specs::vec::axiom_vec_index_decreases(*items, i as int);
                        assert(decreases_to!(*self => (*self)->List_0));
                        assert(decreases_to!(*self => items[i as int]));
                    }
                    if i > 0 {
                        out.push(',');
                        out.push(' ');
                    }
                    items[i].write_debug(out);
                    proof {
                        assert(items@.take(i + 1).subrange(0, i as int) =~= items@.take(i as int));
                        assert(items@.take(i + 1)[i as int] == items@[i as int]);
                        assert(out@ =~= open + debug_items(items@.take(i + 1)));
                    }
                    i = i + 1;
                }
                assert(items@.take(n as int) =~= items@);
                out.push(']');
                out.push(')');
            },
            Bencode::Dictionary(d) => {
                push_str(out, "Dictionary({");
                let ghost open = out@;
                let ghost entries = d.entries_seq();
                let n = d.len();
                let mut i: usize = 0;
                while i < n
                    invariant
                        *self == Bencode::Dictionary(*d),
                        entries == d.entries_seq(),
                        n == entries.len(),
                        i <= n,
                        out@ == open + debug_entries(entries.take(i as int)),
                    decreases n - i,
                {
                    let ghost before = out@;
                    let (key, value) = d.entry_at(i);
                    proof {
                        assert(decreases_to!(*self => (*self)->Dictionary_0));
                        assert(decreases_to!(*d => d.entries_seq()));
                        assert(decreases_to!(*self => entries[i as int].1));
                    }
                    if i > 0 {
                        out.push(',');
                        out.push(' ');
                    }
                    let quoted = str_debug(key.as_str());
                    push_str(out, quoted.as_str());
                    out.push(':');
                    out.push(' ');
                    value.write_debug(out);
                    proof {
                        let sep = if i > 0 { seq![',', ' '] } else { Seq::<char>::empty() };
                        assert(out@ =~= before + sep + debug_entry(entries[i as int]));
                        assert(entries.take(i + 1).subrange(0, i as int) =~= entries.take(i as int));
                        assert(entries.take(i + 1)[i as int] == entries[i as int]);
                        assert(out@ =~= open + debug_entries(entries.take(i + 1)));
                    }
                    i = i + 1;
                }
                assert(entries.take(n as int) =~= entries);
                out.push('}');
                out.push(')');
            },
        }
    }

    /// A one-line description of this value: `Integer(n)`, `String(..)` with the text quoted
    /// (or, when the bytes are not UTF-8, their list), `List([..])` or `Dictionary({..})`, the
    /// parts separated by a comma and a space.
    pub fn debug_string(&self) -> (s: String)
        ensures
            s@ == debug_text(*self),
    {
        let mut out: Vec<char> = Vec::new();
        self.write_debug(&mut out);
        assert(out@ =~= debug_text(*self));
        string_from_chars(out)
    }
}

} // verus!
