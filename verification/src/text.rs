//! Text that messages and names are made of.

use vstd::prelude::*;
use vstd::string::StringExecFns;
use vstd::utf8;

verus! {

/// [`String::from_utf8`] accepts exactly the byte strings that are UTF-8, and
/// the string it makes holds the characters that the bytes encode. The bytes
/// that it hands back inside its error are dropped.
#[verifier::external_body]
pub(crate) fn utf8_text(bytes: Vec<u8>) -> (text: Option<String>)
    ensures
        match text {
            Some(text) => utf8::valid_utf8(bytes@) && text@ == utf8::decode_utf8(bytes@),
            None => !utf8::valid_utf8(bytes@),
        },
{
    String::from_utf8(bytes).ok()
}

/// The characters of ASCII bytes.
pub open spec fn ascii_chars(bytes: Seq<u8>) -> Seq<char> {
    Seq::new(bytes.len(), |i: int| bytes[i] as char)
}

/// ASCII bytes are the UTF-8 bytes of their characters.
pub proof fn lemma_ascii(bytes: Seq<u8>)
    requires
        forall|i: int| 0 <= i < bytes.len() ==> #[trigger] bytes[i] < 128,
    ensures
        utf8::valid_utf8(bytes),
        utf8::decode_utf8(bytes) == ascii_chars(bytes),
        utf8::encode_utf8(ascii_chars(bytes)) == bytes,
{
    let chars = ascii_chars(bytes);
    assert(utf8::is_ascii_chars(chars)) by {
        assert forall|i: int| 0 <= i < chars.len() implies '\0' <= #[trigger] chars[i]
            <= '\u{7f}' by {
            assert(bytes[i] < 128);
        }
    }
    utf8::is_ascii_chars_encode_utf8(chars);
    assert forall|i: int| 0 <= i < bytes.len() implies utf8::encode_utf8(chars)[i] == bytes[i] by {
        assert(bytes[i] < 128);
        assert(chars[i] as u8 == bytes[i]);
    }
    assert(utf8::encode_utf8(chars) =~= bytes);
    utf8::encode_utf8_valid_utf8(chars);
    utf8::encode_utf8_decode_utf8(chars);
}

/// The text of ASCII bytes.
pub fn ascii_text(bytes: Vec<u8>) -> (text: String)
    requires
        forall|i: int| 0 <= i < bytes@.len() ==> #[trigger] bytes@[i] < 128,
    ensures
        text@ == ascii_chars(bytes@),
{
    proof {
        lemma_ascii(bytes@);
    }
    utf8_text(bytes).unwrap()
}

/// The character of one decimal digit.
pub open spec fn digit(n: nat) -> char {
    (48 + n) as char
}

/// The decimal digits of a natural number, without leading zeros.
pub open spec fn digits(n: nat) -> Seq<char>
    decreases n,
{
    if n < 10 {
        seq![digit(n)]
    } else {
        digits(n / 10).push(digit(n % 10))
    }
}

/// The decimal text of an integer, with a minus sign before a negative one.
pub open spec fn decimal(i: int) -> Seq<char> {
    if i < 0 {
        seq!['-'] + digits((-i) as nat)
    } else {
        digits(i as nat)
    }
}

/// Whether a character is a decimal digit.
pub open spec fn is_digit(c: char) -> bool {
    '0' <= c <= '9'
}

pub proof fn lemma_digits_are_digits(n: nat)
    ensures
        digits(n).len() >= 1,
        n >= 10 ==> digits(n).len() >= 2,
        forall|i: int| 0 <= i < digits(n).len() ==> is_digit(#[trigger] digits(n)[i]),
    decreases n,
{
    if n >= 10 {
        lemma_digits_are_digits(n / 10);
    }
}

/// Two natural numbers with the same digits are the same number.
pub proof fn lemma_digits_injective(a: nat, b: nat)
    requires
        digits(a) == digits(b),
    ensures
        a == b,
    decreases a,
{
    lemma_digits_are_digits(a);
    lemma_digits_are_digits(b);
    assert(digits(a).last() == digit(a % 10));
    assert(digits(b).last() == digit(b % 10));
    assert(a % 10 == b % 10);
    if a >= 10 {
        assert(digits(a).drop_last() =~= digits(a / 10));
        assert(digits(b).drop_last() =~= digits(b / 10));
        lemma_digits_injective(a / 10, b / 10);
    }
}

/// A minus sign stands only at the front, and only before digits.
pub proof fn lemma_decimal_shape(i: int)
    ensures
        decimal(i).len() >= 1,
        forall|k: int| 0 < k < decimal(i).len() ==> is_digit(#[trigger] decimal(i)[k]),
        is_digit(decimal(i)[0]) || decimal(i)[0] == '-' && decimal(i).len() >= 2,
{
    lemma_digits_are_digits(if i < 0 { (-i) as nat } else { i as nat });
}

/// Two integers with the same decimal text are the same integer.
pub proof fn lemma_decimal_injective(a: int, b: int)
    requires
        decimal(a) == decimal(b),
    ensures
        a == b,
{
    let da = digits(if a < 0 { (-a) as nat } else { a as nat });
    let db = digits(if b < 0 { (-b) as nat } else { b as nat });
    lemma_digits_are_digits(if a < 0 { (-a) as nat } else { a as nat });
    lemma_digits_are_digits(if b < 0 { (-b) as nat } else { b as nat });
    if a < 0 {
        assert(decimal(a)[0] == '-');
        assert(decimal(a).skip(1) =~= da);
    } else {
        assert(is_digit(decimal(a)[0]));
    }
    if b < 0 {
        assert(decimal(b)[0] == '-');
        assert(decimal(b).skip(1) =~= db);
    } else {
        assert(is_digit(decimal(b)[0]));
    }
    lemma_digits_injective(
        if a < 0 { (-a) as nat } else { a as nat },
        if b < 0 { (-b) as nat } else { b as nat },
    );
}

/// Adds the decimal digits of a natural number.
fn push_digits(bytes: &mut Vec<u8>, n: u64)
    requires
        forall|i: int| 0 <= i < old(bytes)@.len() ==> #[trigger] old(bytes)@[i] < 128,
    ensures
        forall|i: int| 0 <= i < final(bytes)@.len() ==> #[trigger] final(bytes)@[i] < 128,
        ascii_chars(final(bytes)@) == ascii_chars(old(bytes)@) + digits(n as nat),
    decreases n,
{
    if n >= 10 {
        push_digits(bytes, n / 10);
    }
    let ghost before = bytes@;
    let d: u8 = 48 + (n % 10) as u8;
    bytes.push(d);
    proof {
        assert(d as char == digit((n % 10) as nat));
        assert(ascii_chars(bytes@) =~= ascii_chars(before).push(d as char));
        if n >= 10 {
            assert(digits(n as nat) == digits((n / 10) as nat).push(d as char));
        }
        assert(ascii_chars(bytes@) =~= ascii_chars(old(bytes)@) + digits(n as nat));
    }
}

/// Appends the decimal text of an integer.
pub fn push_decimal(text: &mut String, i: i64)
    ensures
        final(text)@ == old(text)@ + decimal(i as int),
{
    let mut bytes: Vec<u8> = Vec::new();
    if i < 0 {
        bytes.push(45);
        assert(ascii_chars(bytes@) =~= seq!['-']);
        push_digits(&mut bytes, (-(i + 1)) as u64 + 1);
    } else {
        assert(ascii_chars(bytes@) =~= Seq::<char>::empty());
        push_digits(&mut bytes, i as u64);
        assert(ascii_chars(bytes@) =~= digits(i as nat));
    }
    let number = ascii_text(bytes);
    text.append(number.as_str());
}

} // verus!
