//! A readable, JSON-like rendering of bencode values.

use vstd::prelude::*;
use vstd::utf8::{decode_utf8, valid_utf8};

use crate::protocol::Bencode;
use crate::text::{
    char_is_control, decimal_text, digits_text, is_control_char, push_decimal, push_digits,
    string_from_chars, string_from_utf8,
};

verus! {

broadcast use crate::protocol::dict::lemma_entries_seq_decreases;

/// The JSON escape of one character.
pub open spec fn escaped_char(c: char) -> Seq<char> {
    if c == '"' {
        seq!['\\', '"']
    } else if c == '\\' {
        seq!['\\', '\\']
    } else if c == '\n' {
        seq!['\\', 'n']
    } else if c == '\r' {
        seq!['\\', 'r']
    } else if c == '\t' {
        seq!['\\', 't']
    } else if is_control_char(c) {
        seq!['\\', 'u', '0', '0', hex_digit((c as u32) / 16), hex_digit((c as u32) % 16)]
    } else {
        seq![c]
    }
}

/// A lower-case hexadecimal digit.
pub open spec fn hex_digit(d: u32) -> char {
    if d < 10 {
        ((d + 48) as u8) as char
    } else {
        ((d + 87) as u8) as char
    }
}

/// The escapes of the characters, in order.
pub open spec fn escaped_chars(s: Seq<char>) -> Seq<char>
    decreases s.len(),
{
    if s.len() == 0 {
        Seq::empty()
    } else {
        escaped_chars(s.drop_last()) + escaped_char(s.last())
    }
}

/// A JSON string literal.
pub open spec fn quoted(s: Seq<char>) -> Seq<char> {
    seq!['"'] + escaped_chars(s) + seq!['"']
}

/// Two spaces per level of indentation.
pub open spec fn pad(indent: nat) -> Seq<char> {
    Seq::new(2 * indent, |i: int| ' ')
}

/// Bytes in decimal, separated by commas.
pub open spec fn byte_list(bytes: Seq<u8>) -> Seq<char>
    decreases bytes.len(),
{
    if bytes.len() == 0 {
        Seq::empty()
    } else if bytes.len() == 1 {
        digits_text(bytes[0] as nat)
    } else {
        byte_list(bytes.drop_last()) + seq![','] + digits_text(bytes.last() as nat)
    }
}

/// How deeply lists and dictionaries nest in a value.
pub open spec fn nesting(b: Bencode) -> nat
    decreases b,
{
    match b {
        Bencode::List(items) => 1 + max_nesting(items@),
        Bencode::Dictionary(d) => 1 + max_entry_nesting(d.entries_seq()),
        _ => 0,
    }
}

/// The deepest nesting among values.
pub open spec fn max_nesting(items: Seq<Bencode>) -> nat
    decreases items,
{
    if items.len() == 0 {
        0
    } else {
        let rest = max_nesting(items.subrange(0, items.len() - 1));
        let last = nesting(items[items.len() - 1]);
        if rest < last { last } else { rest }
    }
}

/// The deepest nesting among the values of entries.
pub open spec fn max_entry_nesting(entries: Seq<(String, Bencode)>) -> nat
    decreases entries,
{
    if entries.len() == 0 {
        0
    } else {
        let rest = max_entry_nesting(entries.subrange(0, entries.len() - 1));
        let last = nesting(entries[entries.len() - 1].1);
        if rest < last { last } else { rest }
    }
}

/// The rendering of a value whose first line is indented by `indent` levels.
pub open spec fn pretty(b: Bencode, indent: nat) -> Seq<char>
    decreases b, 0nat,
{
    match b {
        Bencode::Integer(n) => decimal_text(n as int),
        Bencode::String(bytes) => if valid_utf8(bytes@) {
            quoted(decode_utf8(bytes@))
        } else {
            seq!['['] + byte_list(bytes@) + seq![']']
        },
        Bencode::List(items) => if items@.len() == 0 {
            seq!['[', ']']
        } else {
            seq!['[', '\n'] + item_lines(items@, indent) + pad(indent) + seq![']']
        },
        Bencode::Dictionary(d) => if d.entries_seq().len() == 0 {
            seq!['{', '}']
        } else {
            seq!['{', '\n'] + entry_lines(d.entries_seq(), indent) + pad(indent) + seq!['}']
        },
    }
}

/// The line of a list element, with or without a trailing comma.
pub open spec fn item_line(item: Bencode, indent: nat, comma: bool) -> Seq<char>
    decreases item, 1nat,
{
    pad(indent + 2) + pretty(item, indent + 2) + (if comma { seq![','] } else { Seq::empty() })
        + seq!['\n']
}

/// The lines of list elements, each followed by a comma.
pub open spec fn items_with_commas(items: Seq<Bencode>, indent: nat) -> Seq<char>
    decreases items, 0nat,
{
    if items.len() == 0 {
        Seq::empty()
    } else {
        items_with_commas(items.subrange(0, items.len() - 1), indent) + item_line(
            items[items.len() - 1],
            indent,
            true,
        )
    }
}

/// The lines of list elements: a comma after each but the last.
pub open spec fn item_lines(items: Seq<Bencode>, indent: nat) -> Seq<char>
    decreases items, 0nat,
{
    if items.len() == 0 {
        Seq::empty()
    } else {
        items_with_commas(items.subrange(0, items.len() - 1), indent) + item_line(
            items[items.len() - 1],
            indent,
            false,
        )
    }
}

/// The line of a dictionary entry, with or without a trailing comma.
pub open spec fn entry_line(entry: (String, Bencode), indent: nat, comma: bool) -> Seq<char>
    decreases entry.1, 1nat,
{
    pad(indent + 2) + quoted(entry.0@) + seq![':', ' '] + pretty(entry.1, indent + 2) + (if comma {
        seq![',']
    } else {
        Seq::empty()
    }) + seq!['\n']
}

/// The lines of dictionary entries, each followed by a comma.
pub open spec fn entries_with_commas(entries: Seq<(String, Bencode)>, indent: nat) -> Seq<char>
    decreases entries, 0nat,
{
    if entries.len() == 0 {
        Seq::empty()
    } else {
        entries_with_commas(entries.subrange(0, entries.len() - 1), indent) + entry_line(
            entries[entries.len() - 1],
            indent,
            true,
        )
    }
}

/// The lines of dictionary entries: a comma after each but the last.
pub open spec fn entry_lines(entries: Seq<(String, Bencode)>, indent: nat) -> Seq<char>
    decreases entries, 0nat,
{
    if entries.len() == 0 {
        Seq::empty()
    } else {
        entries_with_commas(entries.subrange(0, entries.len() - 1), indent) + entry_line(
            entries[entries.len() - 1],
            indent,
            false,
        )
    }
}

/// Appends two spaces per level of indentation.
fn push_pad(out: &mut Vec<char>, indent: usize)
    ensures
        final(out)@ == old(out)@ + pad(indent as nat),
{
    let ghost start = out@;
    let mut i: usize = 0;
    while i < indent
        invariant
            i <= indent,
            out@ == start + pad(i as nat),
        decreases indent - i,
    {
        out.push(' ');
        out.push(' ');
        assert(pad((i + 1) as nat) =~= pad(i as nat) + seq![' ', ' ']);
        i = i + 1;
    }
}

/// Appends a lower-case hexadecimal digit.
fn hex_char(d: u32) -> (c: char)
    requires
        d < 16,
    ensures
        c == hex_digit(d),
{
    let b = d as u8;
    if b < 10 {
        (b + 48) as char
    } else {
        (b + 87) as char
    }
}

/// Appends `s` as a JSON string literal.
fn escape_json_string(out: &mut Vec<char>, s: &str)
    ensures
        final(out)@ == old(out)@ + quoted(s@),
{
    broadcast use vstd::string::group_string_axioms;

    let ghost start = out@;
    out.push('"');
    for c in it: s.chars()
        invariant
            it.seq() == s@,
            out@ == start + seq!['"'] + escaped_chars(it.seq().take(it.index())),
    {
        let ghost before = out@;
        assert(it.seq().take(it.index() + 1).drop_last() =~= it.seq().take(it.index() as int));
        if c == '"' {
            out.push('\\');
            out.push('"');
        } else if c == '\\' {
            out.push('\\');
            out.push('\\');
        } else if c == '\n' {
            out.push('\\');
            out.push('n');
        } else if c == '\r' {
            out.push('\\');
            out.push('r');
        } else if c == '\t' {
            out.push('\\');
            out.push('t');
        } else if char_is_control(c) {
            let code = c as u32;
            out.push('\\');
            out.push('u');
            out.push('0');
            out.push('0');
            out.push(hex_char(code / 16));
            out.push(hex_char(code % 16));
        } else {
            out.push(c);
        }
        assert(out@ =~= before + escaped_char(c));
    }
    assert(s@.take(s@.len() as int) =~= s@);
    out.push('"');
}

/// Appends bytes in decimal, separated by commas.
fn push_byte_list(out: &mut Vec<char>, bytes: &[u8])
    ensures
        final(out)@ == old(out)@ + byte_list(bytes@),
{
    let ghost start = out@;
    let mut i: usize = 0;
    while i < bytes.len()
        invariant
            i <= bytes@.len(),
            out@ == start + byte_list(bytes@.take(i as int)),
        decreases bytes@.len() - i,
    {
        let ghost before = out@;
        if i > 0 {
            out.push(',');
        }
        push_digits(out, bytes[i] as u64);
        assert(bytes@.take(i + 1).drop_last() =~= bytes@.take(i as int));
        if i == 0 {
            assert(out@ =~= start + byte_list(bytes@.take(i + 1)));
        } else {
            assert(out@ =~= start + byte_list(bytes@.take(i + 1)));
        }
        i = i + 1;
    }
    assert(bytes@.take(bytes@.len() as int) =~= bytes@);
}

/// The nesting of an element is at most the deepest among all elements.
proof fn lemma_max_nesting(items: Seq<Bencode>, i: int)
    requires
        0 <= i < items.len(),
    ensures
        nesting(items[i]) <= max_nesting(items),
    decreases items.len(),
{
    let n = items.len() - 1;
    if i < n {
        lemma_max_nesting(items.subrange(0, n), i);
        assert(items.subrange(0, n)[i] == items[i]);
    }
}

/// The nesting of an entry's value is at most the deepest among all entries.
proof fn lemma_max_entry_nesting(entries: Seq<(String, Bencode)>, i: int)
    requires
        0 <= i < entries.len(),
    ensures
        nesting(entries[i].1) <= max_entry_nesting(entries),
    decreases entries.len(),
{
    let n = entries.len() - 1;
    if i < n {
        lemma_max_entry_nesting(entries.subrange(0, n), i);
        assert(entries.subrange(0, n)[i] == entries[i]);
    }
}

impl Bencode {
    /// Appends the rendering of this value, its first line indented by `indent` levels: a list or
    /// dictionary opens on this line, puts each element on a line of its own indented two levels
    /// more, with a comma after each but the last, and closes on a line indented by `indent`.
    #[verifier::rlimit(30)]
    pub fn write_pretty(&self, out: &mut Vec<char>, indent: usize)
        requires
            indent + 2 * nesting(*self) <= usize::MAX,
        ensures
            final(out)@ == old(out)@ + pretty(*self, indent as nat),
        decreases self,
    {
        let ghost start = out@;
        match self {
            Bencode::Integer(value) => {
                push_decimal(out, *value);
            },
            Bencode::String(bytes) => {
                match string_from_utf8(vstd::slice::slice_to_vec(bytes.as_slice())) {
                    Some(text) => {
                        escape_json_string(out, text.as_str());
                    },
                    None => {
                        out.push('[');
                        push_byte_list(out, bytes.as_slice());
                        out.push(']');
                    },
                }
            },
            Bencode::List(items) => {
                if items.len() == 0 {
                    out.push('[');
                    out.push(']');
                    return;
                }
                out.push('[');
                out.push('\n');
                let ghost open = out@;
                let n = items.len();
                let mut i: usize = 0;
                while i < n
                    invariant
                        *self == Bencode::List(*items),
                        n == items@.len(),
                        n > 0,
                        i <= n,
                        indent + 2 * nesting(*self) <= usize::MAX,
                        i < n ==> out@ == open + items_with_commas(items@.take(i as int), indent as nat),
                        i == n ==> out@ == open + item_lines(items@, indent as nat),
                    decreases n - i,
                {
                    let ghost before = out@;
                    proof {
                        vstd::std_specs::vec::axiom_vec_index_decreases(*items, i as int);
                        assert(decreases_to!(*self => (*self)->List_0));
                        assert(decreases_to!(*self => items[i as int]));
                        lemma_max_nesting(items@, i as int);
                    }
                    push_pad(out, indent + 2);
                    items[i].write_pretty(out, indent + 2);
                    if i + 1 < n {
                        out.push(',');
                    }
                    out.push('\n');
                    proof {
                        assert(items@.take(i + 1).subrange(0, i as int) =~= items@.take(i as int));
                        assert(items@.take(i + 1)[i as int] == items@[i as int]);
                        if i + 1 < n {
                            assert(out@ =~= before + item_line(items@[i as int], indent as nat, true));
                        } else {
                            assert(out@ =~= before + item_line(items@[i as int], indent as nat, false));
                            assert(items@.subrange(0, i as int) =~= items@.take(i as int));
                        }
                    }
                    i = i + 1;
                }
                push_pad(out, indent);
                out.push(']');
            },
            Bencode::Dictionary(d) => {
                let n = d.len();
                if n == 0 {
                    out.push('{');
                    out.push('}');
                    return;
                }
                out.push('{');
                out.push('\n');
                let ghost open = out@;
                let ghost entries = d.entries_seq();
                let mut i: usize = 0;
                while i < n
                    invariant
                        *self == Bencode::Dictionary(*d),
                        entries == d.entries_seq(),
                        n == entries.len(),
                        n > 0,
                        i <= n,
                        indent + 2 * nesting(*self) <= usize::MAX,
                        i < n ==> out@ == open + entries_with_commas(entries.take(i as int), indent as nat),
                        i == n ==> out@ == open + entry_lines(entries, indent as nat),
                    decreases n - i,
                {
                    let ghost before = out@;
                    let (key, value) = d.entry_at(i);
                    proof {
                        assert(decreases_to!(*self => (*self)->Dictionary_0));
                        assert(decreases_to!(*d => d.entries_seq()));
                        assert(decreases_to!(*self => entries[i as int].1));
                        lemma_max_entry_nesting(entries, i as int);
                    }
                    push_pad(out, indent + 2);
                    escape_json_string(out, key.as_str());
                    out.push(':');
                    out.push(' ');
                    value.write_pretty(out, indent + 2);
                    if i + 1 < n {
                        out.push(',');
                    }
                    out.push('\n');
                    proof {
                        assert(entries.take(i + 1).subrange(0, i as int) =~= entries.take(i as int));
                        assert(entries.take(i + 1)[i as int] == entries[i as int]);
                        if i + 1 < n {
                            assert(out@ =~= before + entry_line(entries[i as int], indent as nat, true));
                        } else {
                            assert(out@ =~= before + entry_line(entries[i as int], indent as nat, false));
                            assert(entries.subrange(0, i as int) =~= entries.take(i as int));
                        }
                    }
                    i = i + 1;
                }
                push_pad(out, indent);
                out.push('}');
            },
        }
    }

    /// A readable, JSON-like rendering of this value.
    pub fn to_pretty_string(&self) -> (s: String)
        requires
            2 * nesting(*self) <= usize::MAX,
        ensures
            s@ == pretty(*self, 0),
    {
        let mut out: Vec<char> = Vec::new();
        self.write_pretty(&mut out, 0);
        assert(out@ =~= pretty(*self, 0));
        string_from_chars(out)
    }
}

/// All the first `k` characters of `t` are spaces.
pub open spec fn starts_with_spaces(t: Seq<char>, k: nat) -> bool {
    k <= t.len() && forall|j: int| 0 <= j < k ==> #[trigger] t[j] == ' '
}

/// The lines of entries, each followed by a comma, start with the first line's indentation.
proof fn lemma_entries_with_commas_start(entries: Seq<(String, Bencode)>, indent: nat)
    requires
        entries.len() > 0,
    ensures
        starts_with_spaces(entries_with_commas(entries, indent), 2 * indent + 4),
    decreases entries.len(),
{
    let n = entries.len() - 1;
    let prefix = entries.subrange(0, n);
    let line = entry_line(entries[n], indent, true);
    let all = entries_with_commas(entries, indent);
    if n == 0 {
        assert(entries_with_commas(prefix, indent) =~= Seq::<char>::empty());
        assert(all =~= line);
        assert forall|j: int| 0 <= j < 2 * indent + 4 implies #[trigger] all[j] == ' ' by {
            assert(line[j] == pad(indent + 2)[j]);
        }
    } else {
        lemma_entries_with_commas_start(prefix, indent);
        let first = entries_with_commas(prefix, indent);
        assert forall|j: int| 0 <= j < 2 * indent + 4 implies #[trigger] all[j] == ' ' by {
            assert(all[j] == first[j]);
        }
    }
}

/// The lines of entries start with the first line's indentation and end with a line break.
proof fn lemma_entry_lines_shape(entries: Seq<(String, Bencode)>, indent: nat)
    requires
        entries.len() > 0,
    ensures
        starts_with_spaces(entry_lines(entries, indent), 2 * indent + 4),
        entry_lines(entries, indent).last() == '\n',
{
    let n = entries.len() - 1;
    let prefix = entries.subrange(0, n);
    let line = entry_line(entries[n], indent, false);
    let all = entry_lines(entries, indent);
    assert(all.last() == line.last());
    if n == 0 {
        assert(entries_with_commas(prefix, indent) =~= Seq::<char>::empty());
        assert(all =~= line);
        assert forall|j: int| 0 <= j < 2 * indent + 4 implies #[trigger] all[j] == ' ' by {
            assert(line[j] == pad(indent + 2)[j]);
        }
    } else {
        lemma_entries_with_commas_start(prefix, indent);
        let first = entries_with_commas(prefix, indent);
        assert forall|j: int| 0 <= j < 2 * indent + 4 implies #[trigger] all[j] == ' ' by {
            assert(all[j] == first[j]);
        }
    }
}

/// The lines of list elements, each followed by a comma, start with the first line's indentation.
proof fn lemma_items_with_commas_start(items: Seq<Bencode>, indent: nat)
    requires
        items.len() > 0,
    ensures
        starts_with_spaces(items_with_commas(items, indent), 2 * indent + 4),
    decreases items.len(),
{
    let n = items.len() - 1;
    let prefix = items.subrange(0, n);
    let line = item_line(items[n], indent, true);
    let all = items_with_commas(items, indent);
    if n == 0 {
        assert(items_with_commas(prefix, indent) =~= Seq::<char>::empty());
        assert(all =~= line);
        assert forall|j: int| 0 <= j < 2 * indent + 4 implies #[trigger] all[j] == ' ' by {
            assert(line[j] == pad(indent + 2)[j]);
        }
    } else {
        lemma_items_with_commas_start(prefix, indent);
        let first = items_with_commas(prefix, indent);
        assert forall|j: int| 0 <= j < 2 * indent + 4 implies #[trigger] all[j] == ' ' by {
            assert(all[j] == first[j]);
        }
    }
}

/// The lines of list elements start with the first line's indentation and end with a line break.
proof fn lemma_item_lines_shape(items: Seq<Bencode>, indent: nat)
    requires
        items.len() > 0,
    ensures
        starts_with_spaces(item_lines(items, indent), 2 * indent + 4),
        item_lines(items, indent).last() == '\n',
{
    let n = items.len() - 1;
    let prefix = items.subrange(0, n);
    let line = item_line(items[n], indent, false);
    let all = item_lines(items, indent);
    assert(all.last() == line.last());
    if n == 0 {
        assert(items_with_commas(prefix, indent) =~= Seq::<char>::empty());
        assert(all =~= line);
        assert forall|j: int| 0 <= j < 2 * indent + 4 implies #[trigger] all[j] == ' ' by {
            assert(line[j] == pad(indent + 2)[j]);
        }
    } else {
        lemma_items_with_commas_start(prefix, indent);
        let first = items_with_commas(prefix, indent);
        assert forall|j: int| 0 <= j < 2 * indent + 4 implies #[trigger] all[j] == ' ' by {
            assert(all[j] == first[j]);
        }
    }
}

/// A non-empty list or dictionary rendered at indent `n` opens with its bracket (`[` or `{`) and
/// a line break, indents its first element by `2n + 4` spaces, and closes on a line of its own: a
/// line break, exactly `2n` spaces, then the closing bracket (`]` or `}`).
pub proof fn lemma_pretty_brackets(b: Bencode, n: nat)
    requires
        (b is List && b->List_0@.len() > 0) || (b is Dictionary && b->Dictionary_0.entries_seq().len()
            > 0),
    ensures
        ({
            let t = pretty(b, n);
            let open = if b is List { '[' } else { '{' };
            let close = if b is List { ']' } else { '}' };
            &&& t.len() >= 4 * n + 7
            &&& t[0] == open
            &&& t[1] == '\n'
            &&& forall|j: int| 2 <= j < 2 * n + 6 ==> #[trigger] t[j] == ' '
            &&& t[t.len() - 1] == close
            &&& t[t.len() - 2 * n - 2] == '\n'
            &&& forall|j: int| t.len() - 2 * n - 1 <= j < t.len() - 1 ==> #[trigger] t[j] == ' '
        }),
{
    let t = pretty(b, n);
    let body = if b is List {
        item_lines(b->List_0@, n)
    } else {
        entry_lines(b->Dictionary_0.entries_seq(), n)
    };
    if b is List {
        lemma_item_lines_shape(b->List_0@, n);
    } else {
        lemma_entry_lines_shape(b->Dictionary_0.entries_seq(), n);
    }
    let open = if b is List { '[' } else { '{' };
    let close = if b is List { ']' } else { '}' };
    assert(t =~= seq![open, '\n'] + body + pad(n) + seq![close]);
    assert forall|j: int| 2 <= j < 2 * n + 6 implies #[trigger] t[j] == ' ' by {
        assert(t[j] == body[j - 2]);
    }
    assert(t[t.len() - 2 * n - 2] == body.last());
    assert forall|j: int| t.len() - 2 * n - 1 <= j < t.len() - 1 implies #[trigger] t[j] == ' ' by {
        assert(t[j] == pad(n)[j - (2 + body.len())]);
    }
}

/// The value of a hexadecimal digit, in either case.
pub open spec fn hex_value(c: char) -> int {
    let n = c as u32;
    if 48 <= n <= 57 {
        n - 48
    } else if 97 <= n <= 102 {
        n - 87
    } else if 65 <= n <= 70 {
        n - 55
    } else {
        0
    }
}

/// The character that a JSON escape `\x` stands for, when `x` makes one of the short escapes.
pub open spec fn short_escape(x: char) -> Option<char> {
    if x == '"' {
        Some('"')
    } else if x == '\\' {
        Some('\\')
    } else if x == '/' {
        Some('/')
    } else if x == 'n' {
        Some('\n')
    } else if x == 'r' {
        Some('\r')
    } else if x == 't' {
        Some('\t')
    } else if x == 'b' {
        Some('\u{8}')
    } else if x == 'f' {
        Some('\u{c}')
    } else {
        None
    }
}

/// The text that the body of a JSON string literal stands for: each escape read back as its
/// character, every other character as itself.
pub open spec fn json_unescape(t: Seq<char>) -> Seq<char>
    decreases t.len(),
{
    if t.len() == 0 {
        Seq::empty()
    } else if t.len() >= 6 && t[0] == '\\' && t[1] == 'u' {
        seq![(hex_value(t[2]) * 4096 + hex_value(t[3]) * 256 + hex_value(t[4]) * 16 + hex_value(t[5])) as char]
            + json_unescape(t.skip(6))
    } else if t.len() >= 2 && t[0] == '\\' && short_escape(t[1]) is Some {
        seq![short_escape(t[1])->0] + json_unescape(t.skip(2))
    } else {
        seq![t[0]] + json_unescape(t.skip(1))
    }
}

proof fn lemma_hex_value(d: u32)
    requires
        d < 16,
    ensures
        hex_value(hex_digit(d)) == d,
{
}

/// The escapes of the characters, read from the front.
proof fn lemma_escaped_chars_front(s: Seq<char>)
    requires
        s.len() > 0,
    ensures
        escaped_chars(s) == escaped_char(s[0]) + escaped_chars(s.drop_first()),
    decreases s.len(),
{
    if s.len() == 1 {
        assert(s.drop_last() =~= Seq::<char>::empty());
        assert(s.drop_first() =~= Seq::<char>::empty());
        assert(escaped_chars(s) =~= escaped_char(s[0]) + escaped_chars(s.drop_first()));
    } else {
        lemma_escaped_chars_front(s.drop_last());
        assert(s.drop_first().drop_last() =~= s.drop_last().drop_first());
        assert(s.drop_first().last() == s.last());
        assert(s.drop_last()[0] == s[0]);
        assert(escaped_chars(s) =~= escaped_char(s[0]) + escaped_chars(s.drop_first()));
    }
}

/// Reading back the escape of one character gives the character.
proof fn lemma_unescape_one(c: char, t: Seq<char>)
    ensures
        json_unescape(escaped_char(c) + t) == seq![c] + json_unescape(t),
{
    let e = escaped_char(c);
    let u = e + t;
    if e.len() == 1 {
        assert(u.skip(1) =~= t);
    } else if e.len() == 2 {
        assert(u.skip(2) =~= t);
    } else {
        let code = c as u32;
        lemma_hex_value(code / 16);
        lemma_hex_value(code % 16);
        assert(u[2] == '0' && u[3] == '0');
        assert(hex_value(u[4]) * 16 + hex_value(u[5]) == code);
        assert(u.skip(6) =~= t);
        let v: int = code as int;
        assert((v as char) == c);
    }
}

/// Reading back the escapes of a text gives the text.
proof fn lemma_unescape_escaped(s: Seq<char>)
    ensures
        json_unescape(escaped_chars(s)) == s,
    decreases s.len(),
{
    if s.len() > 0 {
        lemma_escaped_chars_front(s);
        lemma_unescape_one(s[0], escaped_chars(s.drop_first()));
        lemma_unescape_escaped(s.drop_first());
        assert(seq![s[0]] + s.drop_first() =~= s);
    }
}

/// No escape holds a control character.
proof fn lemma_escaped_no_control(s: Seq<char>)
    ensures
        forall|i: int| 0 <= i < escaped_chars(s).len() ==> !is_control_char(#[trigger] escaped_chars(s)[i]),
    decreases s.len(),
{
    if s.len() > 0 {
        lemma_escaped_no_control(s.drop_last());
        let a = escaped_chars(s.drop_last());
        let e = escaped_char(s.last());
        assert forall|i: int| 0 <= i < escaped_chars(s).len() implies !is_control_char(
            #[trigger] escaped_chars(s)[i],
        ) by {
            if i < a.len() {
                assert(escaped_chars(s)[i] == a[i]);
            } else {
                assert(escaped_chars(s)[i] == e[i - a.len()]);
                let code = s.last() as u32;
                if e.len() == 6 {
                    assert(code / 16 < 16 && code % 16 < 16);
                }
            }
        }
    }
}

/// The JSON string literal of a text is quoted, holds no control character, and reading it
/// back gives the text.
pub proof fn lemma_json_string_round_trip(s: Seq<char>)
    ensures
        quoted(s).len() >= 2,
        quoted(s)[0] == '"',
        quoted(s).last() == '"',
        forall|i: int| 0 <= i < quoted(s).len() ==> !is_control_char(#[trigger] quoted(s)[i]),
        json_unescape(quoted(s).subrange(1, quoted(s).len() - 1)) == s,
{
    let q = quoted(s);
    let body = escaped_chars(s);
    lemma_escaped_no_control(s);
    lemma_unescape_escaped(s);
    assert(q.subrange(1, q.len() - 1) =~= body);
    assert forall|i: int| 0 <= i < q.len() implies !is_control_char(#[trigger] q[i]) by {
        if 1 <= i < q.len() - 1 {
            assert(q[i] == body[i - 1]);
        }
    }
}

} // verus!
