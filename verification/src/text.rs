//! Putting texts together.

use vstd::prelude::*;
use vstd::string::*;

use crate::bytes::{decimal, NEWLINE};

verus! {

/// The digit for a number below sixteen.
pub open spec fn digit(d: int) -> Seq<char> {
    if d == 0 {
        "0"@
    } else if d == 1 {
        "1"@
    } else if d == 2 {
        "2"@
    } else if d == 3 {
        "3"@
    } else if d == 4 {
        "4"@
    } else if d == 5 {
        "5"@
    } else if d == 6 {
        "6"@
    } else if d == 7 {
        "7"@
    } else if d == 8 {
        "8"@
    } else if d == 9 {
        "9"@
    } else if d == 10 {
        "a"@
    } else if d == 11 {
        "b"@
    } else if d == 12 {
        "c"@
    } else if d == 13 {
        "d"@
    } else if d == 14 {
        "e"@
    } else {
        "f"@
    }
}

/// The digit for a number below sixteen.
fn digit_str(d: u64) -> (r: &'static str)
    requires
        d < 16,
    ensures
        r@ == digit(d as int),
{
    if d == 0 {
        "0"
    } else if d == 1 {
        "1"
    } else if d == 2 {
        "2"
    } else if d == 3 {
        "3"
    } else if d == 4 {
        "4"
    } else if d == 5 {
        "5"
    } else if d == 6 {
        "6"
    } else if d == 7 {
        "7"
    } else if d == 8 {
        "8"
    } else if d == 9 {
        "9"
    } else if d == 10 {
        "a"
    } else if d == 11 {
        "b"
    } else if d == 12 {
        "c"
    } else if d == 13 {
        "d"
    } else if d == 14 {
        "e"
    } else {
        "f"
    }
}

/// A number in decimal.
pub open spec fn in_decimal(n: nat) -> Seq<char>
    decreases n,
{
    if n < 10 {
        digit(n as int)
    } else {
        in_decimal(n / 10) + digit((n % 10) as int)
    }
}

/// A byte in hexadecimal, with no leading zero.
pub open spec fn in_hex(b: u8) -> Seq<char> {
    if b < 16 {
        digit(b as int)
    } else {
        digit(b as int / 16) + digit(b as int % 16)
    }
}

/// Adds a number in decimal.
pub fn push_decimal(s: &mut String, n: u64)
    ensures
        final(s)@ == old(s)@ + in_decimal(n as nat),
    decreases n,
{
    if n < 10 {
        s.append(digit_str(n));
    } else {
        push_decimal(s, n / 10);
        s.append(digit_str(n % 10));
        assert(s@ =~= old(s)@ + in_decimal(n as nat));
    }
}

/// Adds a byte in hexadecimal.
pub fn push_hex(s: &mut String, b: u8)
    ensures
        final(s)@ == old(s)@ + in_hex(b),
{
    if b < 16 {
        s.append(digit_str(b as u64));
    } else {
        s.append(digit_str((b / 16) as u64));
        s.append(digit_str((b % 16) as u64));
        assert(s@ =~= old(s)@ + in_hex(b));
    }
}

/// `String::push`: the given character is added at the end.
pub assume_specification[ String::push ](s: &mut String, c: char)
    ensures
        final(s)@ == old(s)@.push(c),
;

/// A newline at the end of valid UTF-8 is one character at the end of its text.
pub proof fn lemma_newline_at_the_end(b: Seq<u8>)
    requires
        b.len() > 0,
        b.last() == NEWLINE,
        vstd::utf8::valid_utf8(b),
    ensures
        vstd::utf8::valid_utf8(b.drop_last()),
        vstd::utf8::decode_utf8(b) == vstd::utf8::decode_utf8(b.drop_last()).push('\n'),
    decreases b.len(),
{
    let n = vstd::utf8::length_of_first_scalar(b);
    let rest = vstd::utf8::pop_first_scalar(b);
    let less = b.drop_last();
    if n == b.len() {
        assert(n == 1);
        assert(10u8 & 0x7fu8 == 10u8) by (bit_vector);
        assert(rest =~= Seq::<u8>::empty());
        assert(less =~= Seq::<u8>::empty());
        assert(vstd::utf8::decode_first_scalar(b) == 10);
        assert(vstd::utf8::decode_utf8(b) =~= vstd::utf8::decode_utf8(less).push('\n'));
    } else {
        assert(rest.last() == NEWLINE);
        lemma_newline_at_the_end(rest);
        assert(vstd::utf8::valid_first_scalar(less));
        assert(vstd::utf8::pop_first_scalar(less) =~= rest.drop_last());
        assert(vstd::utf8::decode_utf8(b) =~= vstd::utf8::decode_utf8(less).push('\n'));
    }
}

/// What `String::from_utf8_lossy` makes of a byte string.
pub uninterp spec fn lossy(bytes: Seq<u8>) -> Seq<char>;

/// The text that a byte string encodes, or what stands for it where it encodes
/// none.
pub open spec fn text_of(bytes: Seq<u8>) -> Seq<char> {
    if vstd::utf8::valid_utf8(bytes) {
        vstd::utf8::decode_utf8(bytes)
    } else {
        lossy(bytes)
    }
}

/// The text that a byte string encodes, or what stands for it.
pub fn to_text(bytes: &[u8]) -> (r: String)
    ensures
        r@ == text_of(bytes@),
{
    from_utf8_lossy(bytes)
}

/// `String::from_utf8_lossy`: a text that depends on the bytes alone. Of bytes
/// that are valid UTF-8 it is the text that they encode. How other bytes are
/// replaced is left unsaid.
#[verifier::external_body]
fn from_utf8_lossy(bytes: &[u8]) -> (r: String)
    ensures
        r@ == lossy(bytes@),
        vstd::utf8::valid_utf8(bytes@) ==> r@ == vstd::utf8::decode_utf8(bytes@),
{
    String::from_utf8_lossy(bytes).into_owned()
}

/// How `Debug` of a text writes it, in quotes.
pub uninterp spec fn quoted(text: Seq<char>) -> Seq<char>;

/// `Debug` of `str`: a text that depends on the given one alone. Which
/// characters are escaped, and how, is left unsaid.
#[verifier::external_body]
pub(crate) fn quote(text: &str) -> (r: String)
    ensures
        r@ == quoted(text@),
{
    format!("{:?}", text)
}

/// Numbers in texts have the digits that they have in bytes.
pub proof fn law_decimal_text(n: nat)
    ensures
        in_decimal(n).len() == decimal(n).len(),
        forall|i: int|
            0 <= i < in_decimal(n).len() ==> #[trigger] in_decimal(n)[i] as u32
                == decimal(n)[i] as u32,
    decreases n,
{
    law_digit((n % 10) as int);
    if n >= 10 {
        law_decimal_text(n / 10);
        let less = in_decimal(n / 10);
        assert forall|i: int| 0 <= i < in_decimal(n).len() implies #[trigger] in_decimal(
            n,
        )[i] as u32 == decimal(n)[i] as u32 by {
            if i < less.len() {
                assert(in_decimal(n)[i] == less[i]);
                assert(decimal(n)[i] == decimal(n / 10)[i]);
            }
        }
    }
}

/// The digits: from `0` to `9`, then from `a` to `f`.
pub proof fn law_digit(d: int)
    requires
        0 <= d < 16,
    ensures
        digit(d).len() == 1,
        digit(d)[0] as u32 == if d < 10 {
            48 + d
        } else {
            87 + d
        },
{
    reveal_strlit("0");
    reveal_strlit("1");
    reveal_strlit("2");
    reveal_strlit("3");
    reveal_strlit("4");
    reveal_strlit("5");
    reveal_strlit("6");
    reveal_strlit("7");
    reveal_strlit("8");
    reveal_strlit("9");
    reveal_strlit("a");
    reveal_strlit("b");
    reveal_strlit("c");
    reveal_strlit("d");
    reveal_strlit("e");
    reveal_strlit("f");
}

/// A byte in hexadecimal: one digit below sixteen, and two from there on.
pub proof fn law_hex(b: u8)
    ensures
        b < 16 ==> in_hex(b) == digit(b as int),
        b >= 16 ==> in_hex(b).len() == 2 && in_hex(b)[0] == digit(b as int / 16)[0] && in_hex(b)[1]
            == digit(b as int % 16)[0],
{
    law_digit(b as int / 16);
    law_digit(b as int % 16);
}

/// The text of valid UTF-8 is the one that it encodes; for other bytes it is
/// what stands for them.
pub proof fn law_text_of_bytes(bytes: Seq<u8>)
    ensures
        vstd::utf8::valid_utf8(bytes) ==> text_of(bytes) == vstd::utf8::decode_utf8(bytes),
        !vstd::utf8::valid_utf8(bytes) ==> text_of(bytes) == lossy(bytes),
{
}

} // verus!
