//! Conversions between bytes and text.

use vstd::prelude::*;
use vstd::utf8::{decode_utf8, valid_utf8};

verus! {

/// `String::from_utf8` of std: by its documentation it returns the string when the bytes are
/// valid UTF-8 and an error otherwise. Here: `Some` exactly on valid UTF-8, holding the decoded
/// characters.
#[verifier::external_body]
pub(crate) fn string_from_utf8(bytes: Vec<u8>) -> (r: Option<String>)
    ensures
        r is Some <==> valid_utf8(bytes@),
        r matches Some(s) ==> s@ == decode_utf8(bytes@),
{
    String::from_utf8(bytes).ok()
}

/// `char::to_string` of std, on the character whose code is the byte: by its documentation a
/// string of that one character.
#[verifier::external_body]
pub(crate) fn char_string(b: u8) -> (s: String)
    ensures
        s@ == seq![b as char],
{
    char::from(b).to_string()
}

/// `String::from_iter` of std over characters: by its documentation the string of those
/// characters in order.
#[verifier::external_body]
pub(crate) fn string_from_chars(chars: Vec<char>) -> (s: String)
    ensures
        s@ == chars@,
{
    String::from_iter(chars)
}

/// `char::is_control` of std: by its documentation, whether the character is in the Unicode
/// general category Cc, which is the code points 0 to 0x1F and 0x7F to 0x9F.
#[verifier::external_body]
pub(crate) fn char_is_control(c: char) -> (r: bool)
    ensures
        r == is_control_char(c),
{
    c.is_control()
}

/// The Unicode general category Cc.
pub open spec fn is_control_char(c: char) -> bool {
    (c as u32) <= 0x1f || (0x7f <= (c as u32) && (c as u32) <= 0x9f)
}

/// The character of a decimal digit.
pub open spec fn digit_char(d: nat) -> char {
    ((d + 48) as u8) as char
}

/// The decimal digits of a natural number, most significant first, without leading zeros.
pub open spec fn digits_text(n: nat) -> Seq<char>
    decreases n,
{
    if n < 10 {
        seq![digit_char(n)]
    } else {
        digits_text(n / 10).push(digit_char(n % 10))
    }
}

/// A decimal digit character, `0` to `9`.
pub open spec fn is_digit_char(c: char) -> bool {
    48 <= (c as u32) <= 57
}

/// The number that a text of decimal digit characters writes.
pub open spec fn text_decimal_value(t: Seq<char>) -> nat
    decreases t.len(),
{
    if t.len() == 0 {
        0
    } else {
        (text_decimal_value(t.drop_last()) * 10 + ((t.last() as u32) - 48)) as nat
    }
}

/// `t` is the usual decimal writing of `n`: digits only, at least one, no leading zero unless the
/// number is zero, and reading them gives `n`.
pub open spec fn is_decimal_of(t: Seq<char>, n: nat) -> bool {
    &&& t.len() >= 1
    &&& forall|i: int| 0 <= i < t.len() ==> #[trigger] is_digit_char(t[i])
    &&& (t[0] == '0' ==> t.len() == 1)
    &&& text_decimal_value(t) == n
}

/// The decimal text of a number is its usual decimal writing.
pub proof fn lemma_digits_text_is_decimal(n: nat)
    ensures
        is_decimal_of(digits_text(n), n),
    decreases n,
{
    let t = digits_text(n);
    if n >= 10 {
        lemma_digits_text_is_decimal(n / 10);
        let prefix = digits_text(n / 10);
        assert(t.drop_last() =~= prefix);
        assert(t[0] == prefix[0]);
        let d: nat = n % 10;
        assert(((d + 48) as u8) as u32 == d + 48);
        assert(t.last() == digit_char(d));
        assert((digit_char(d) as u32) == d + 48);
        assert(text_decimal_value(t) == text_decimal_value(prefix) * 10 + d);
        assert((n / 10) * 10 + n % 10 == n);
        assert forall|i: int| 0 <= i < t.len() implies #[trigger] is_digit_char(t[i]) by {
            if i < prefix.len() {
                assert(t[i] == prefix[i]);
            }
        }
        if t[0] == '0' {
            assert(prefix.len() == 1);
            assert(prefix.drop_last() =~= Seq::<char>::empty());
            assert(text_decimal_value(prefix.drop_last()) == 0);
            assert(('0' as u32) == 48);
            assert(text_decimal_value(prefix) == 0);
        }
    } else {
        assert(((n + 48) as u8) as u32 == n + 48);
        assert((digit_char(n) as u32) == n + 48);
        assert(t.drop_last() =~= Seq::<char>::empty());
        assert(text_decimal_value(t.drop_last()) == 0);
    }
}

/// An integer in decimal, with a `-` before negative ones.
pub open spec fn decimal_text(n: int) -> Seq<char> {
    if n < 0 {
        seq!['-'] + digits_text((-n) as nat)
    } else {
        digits_text(n as nat)
    }
}

/// The decimal text of an integer is a `-` and the usual decimal writing of its magnitude when it
/// is negative, and the usual decimal writing of the number otherwise.
pub proof fn lemma_decimal_text_is_decimal(n: int)
    ensures
        n >= 0 ==> is_decimal_of(decimal_text(n), n as nat),
        n < 0 ==> decimal_text(n).len() >= 2 && decimal_text(n)[0] == '-' && is_decimal_of(
            decimal_text(n).drop_first(),
            (-n) as nat,
        ),
{
    if n < 0 {
        lemma_digits_text_is_decimal((-n) as nat);
        assert(decimal_text(n).drop_first() =~= digits_text((-n) as nat));
    } else {
        lemma_digits_text_is_decimal(n as nat);
    }
}

/// Appends the decimal digits of `n`.
pub fn push_digits(out: &mut Vec<char>, n: u64)
    ensures
        final(out)@ == old(out)@ + digits_text(n as nat),
    decreases n,
{
    if n >= 10 {
        push_digits(out, n / 10);
    }
    let d = (n % 10) as u8;
    out.push((d + 48) as char);
    assert(digits_text(n as nat) == if n < 10 {
        seq![digit_char(n as nat)]
    } else {
        digits_text((n / 10) as nat).push(digit_char((n % 10) as nat))
    });
}

/// Appends `n` in decimal.
pub fn push_decimal(out: &mut Vec<char>, n: i64)
    ensures
        final(out)@ == old(out)@ + decimal_text(n as int),
{
    if n < 0 {
        out.push('-');
        let magnitude: u64 = ((-(n + 1)) as u64) + 1;
        push_digits(out, magnitude);
    } else {
        push_digits(out, n as u64);
    }
}

/// `String::from_utf8_lossy` of std: by its documentation, on valid UTF-8 the same as
/// `from_utf8`, and otherwise the text with each invalid sequence replaced by U+FFFD. Here: the
/// result is named `utf8_lossy` of the bytes and equals the decoded text on valid UTF-8; what the
/// replacement gives on invalid bytes is left unsaid.
#[verifier::external_body]
pub(crate) fn string_from_utf8_lossy(bytes: &[u8]) -> (s: String)
    ensures
        s@ == utf8_lossy(bytes@),
        valid_utf8(bytes@) ==> s@ == decode_utf8(bytes@),
{
    String::from_utf8_lossy(bytes).into_owned()
}

/// What `String::from_utf8_lossy` gives for the bytes.
pub uninterp spec fn utf8_lossy(bytes: Seq<u8>) -> Seq<char>;

/// `<str as Debug>::fmt` of std: the text in double quotes with its special characters escaped as
/// `char::escape_debug` does. Which characters that escapes rests on Unicode tables, so the result
/// is only named, `str_debug_text` of the characters; nothing more is claimed of it.
#[verifier::external_body]
pub(crate) fn str_debug(s: &str) -> (r: String)
    ensures
        r@ == str_debug_text(s@),
{
    format!("{:?}", s)
}

/// What `<str as Debug>::fmt` writes for the text.
pub uninterp spec fn str_debug_text(s: Seq<char>) -> Seq<char>;

/// Appends the characters of `s`.
pub fn push_str(out: &mut Vec<char>, s: &str)
    ensures
        final(out)@ == old(out)@ + s@,
{
    broadcast use vstd::string::group_string_axioms;

    let ghost start = out@;
    for c in it: s.chars()
        invariant
            it.seq() == s@,
            out@ == start + it.seq().take(it.index()),
    {
        out.push(c);
        assert(it.seq().take(it.index() + 1) =~= it.seq().take(it.index() as int).push(c));
    }
    assert(s@.take(s@.len() as int) =~= s@);
}

/// The characters whose codes are the bytes, one per byte.
pub open spec fn latin1(bytes: Seq<u8>) -> Seq<char> {
    bytes.map_values(|b: u8| b as char)
}

/// The string of the characters whose codes are the bytes, one per byte.
pub fn latin1_string(bytes: &[u8]) -> (s: String)
    ensures
        s@ == latin1(bytes@),
{
    let mut out: Vec<char> = Vec::new();
    let mut i: usize = 0;
    while i < bytes.len()
        invariant
            i <= bytes@.len(),
            out@ == latin1(bytes@.take(i as int)),
        decreases bytes@.len() - i,
    {
        out.push(bytes[i] as char);
        assert(latin1(bytes@.take(i + 1)) =~= latin1(bytes@.take(i as int)).push(bytes@[i as int] as char));
        i = i + 1;
    }
    assert(bytes@.take(bytes@.len() as int) =~= bytes@);
    string_from_chars(out)
}

/// The decimal digits of `n` as a string.
pub fn digits_string(n: u64) -> (s: String)
    ensures
        s@ == digits_text(n as nat),
{
    let mut out: Vec<char> = Vec::new();
    push_digits(&mut out, n);
    assert(out@ =~= digits_text(n as nat));
    string_from_chars(out)
}

} // verus!
