//! Searching, comparing and numbering in byte strings.

use vstd::prelude::*;

verus! {

/// `/`
pub const SLASH: u8 = 47;

/// `\`
pub const BACKSLASH: u8 = 92;

/// The line feed.
pub const NEWLINE: u8 = 10;

/// The bytes of a text that is all ASCII.
pub open spec fn ascii(text: Seq<char>) -> Seq<u8> {
    Seq::new(text.len(), |i: int| text[i] as u8)
}

/// The bytes of a text that is all ASCII.
pub fn ascii_bytes(text: &str) -> (r: &[u8])
    requires
        vstd::utf8::is_ascii_chars(text@),
    ensures
        r@ == ascii(text@),
{
    proof {
        vstd::utf8::is_ascii_chars_encode_utf8(text@);
    }
    let r = text.as_bytes();
    assert(r@ =~= ascii(text@));
    r
}

/// The position of the first `b` in `s` at or after `from`; the length of `s`
/// where there is none.
pub open spec fn seek(s: Seq<u8>, b: u8, from: int) -> int
    decreases s.len() - from,
{
    if from >= s.len() || from < 0 {
        s.len() as int
    } else if s[from] == b {
        from
    } else {
        seek(s, b, from + 1)
    }
}

/// What `seek` finds is a `b`, and none stands before it.
pub proof fn lemma_seek(s: Seq<u8>, b: u8, from: int)
    requires
        0 <= from <= s.len(),
    ensures
        from <= seek(s, b, from) <= s.len(),
        seek(s, b, from) < s.len() ==> s[seek(s, b, from)] == b,
        forall|j: int| from <= j < seek(s, b, from) ==> s[j] != b,
    decreases s.len() - from,
{
    if from < s.len() && s[from] != b {
        lemma_seek(s, b, from + 1);
    }
}

/// A `b` with none before it is what `seek` finds.
pub proof fn lemma_seek_is(s: Seq<u8>, b: u8, from: int, at: int)
    requires
        0 <= from <= at <= s.len(),
        at < s.len() ==> s[at] == b,
        forall|j: int| from <= j < at ==> s[j] != b,
    ensures
        seek(s, b, from) == at,
    decreases at - from,
{
    if from < at {
        lemma_seek_is(s, b, from + 1, at);
    }
}

/// The position of the first `b` in `s` at or after `from`, if there is one.
pub fn position(s: &[u8], b: u8, from: usize) -> (r: Option<usize>)
    requires
        from <= s@.len(),
    ensures
        match r {
            Some(i) => i < s@.len() && i == seek(s@, b, from as int),
            None => seek(s@, b, from as int) == s@.len(),
        },
{
    let mut i: usize = from;
    while i < s.len()
        invariant
            from <= i <= s@.len(),
            seek(s@, b, from as int) == seek(s@, b, i as int),
        decreases s@.len() - i,
    {
        if s[i] == b {
            return Some(i);
        }
        i = i + 1;
    }
    None
}

/// Whether two byte strings are equal.
pub fn same(a: &[u8], b: &[u8]) -> (r: bool)
    ensures
        r == (a@ == b@),
{
    if a.len() != b.len() {
        return false;
    }
    let mut i: usize = 0;
    while i < a.len()
        invariant
            i <= a@.len(),
            a@.len() == b@.len(),
            forall|j: int| 0 <= j < i ==> a@[j] == b@[j],
        decreases a@.len() - i,
    {
        if a[i] != b[i] {
            return false;
        }
        i = i + 1;
    }
    assert(a@ =~= b@);
    true
}

/// A number written in decimal, as ASCII digits, with no leading zeros.
pub open spec fn decimal(n: nat) -> Seq<u8>
    decreases n,
{
    if n < 10 {
        seq![(48 + n) as u8]
    } else {
        decimal(n / 10).push((48 + n % 10) as u8)
    }
}

/// Whether every byte is an ASCII digit.
pub open spec fn all_digits(s: Seq<u8>) -> bool {
    forall|i: int| 0 <= i < s.len() ==> 48 <= #[trigger] s[i] <= 57
}

/// The number that a string of ASCII digits stands for.
pub open spec fn number(s: Seq<u8>) -> nat
    decreases s.len(),
{
    if s.len() == 0 {
        0
    } else {
        number(s.drop_last()) * 10 + (s.last() - 48) as nat
    }
}

/// What `s` says after an optional plus sign.
pub open spec fn unsigned_part(s: Seq<u8>) -> Seq<u8> {
    if s.len() > 0 && s[0] == 43 {
        s.skip(1)
    } else {
        s
    }
}

/// The number that `s` is a numeral of: digits, after an optional plus sign.
pub open spec fn numeral(s: Seq<u8>) -> Option<nat> {
    let digits = unsigned_part(s);
    if digits.len() > 0 && all_digits(digits) {
        Some(number(digits))
    } else {
        None
    }
}

/// Numbers are written with at least one digit, and with few.
pub proof fn lemma_decimal_len(n: nat, k: nat)
    requires
        n < vstd::arithmetic::power::pow(10, k),
        k > 0,
    ensures
        1 <= decimal(n).len() <= k,
    decreases k,
{
    vstd::arithmetic::power::lemma_pow1(10);
    if k > 1 && n >= 10 {
        assert(vstd::arithmetic::power::pow(10, k) == 10 * vstd::arithmetic::power::pow(
            10,
            (k - 1) as nat,
        )) by {
            reveal(vstd::arithmetic::power::pow);
        }
        lemma_decimal_len(n / 10, (k - 1) as nat);
    }
}

/// A machine word takes at most twenty digits.
pub proof fn lemma_decimal_word(n: u64)
    ensures
        1 <= decimal(n as nat).len() <= 20,
{
    assert(vstd::arithmetic::power::pow(10, 20) == 100000000000000000000) by {
        reveal(vstd::arithmetic::power::pow);
        reveal_with_fuel(vstd::arithmetic::power::pow, 21);
    }
    lemma_decimal_len(n as nat, 20);
}

/// What is written in decimal is made of digits and reads back as it was.
pub proof fn law_decimal_reads_back(n: nat)
    ensures
        all_digits(decimal(n)),
        decimal(n).len() > 0,
        number(decimal(n)) == n,
        numeral(decimal(n)) == Some(n),
    decreases n,
{
    if n < 10 {
        assert(decimal(n).drop_last() =~= Seq::<u8>::empty());
        assert(number(decimal(n).drop_last()) == 0);
    } else {
        law_decimal_reads_back(n / 10);
        assert(decimal(n).drop_last() =~= decimal(n / 10));
    }
}

/// Digits are valid UTF-8.
pub proof fn lemma_digits_are_utf8(s: Seq<u8>)
    requires
        all_digits(s),
    ensures
        vstd::utf8::valid_utf8(s),
{
    let text = Seq::new(s.len(), |i: int| s[i] as char);
    vstd::utf8::is_ascii_chars_encode_utf8(text);
    assert(vstd::utf8::encode_utf8(text) =~= s);
    vstd::utf8::encode_utf8_valid_utf8(text);
}

/// A number written in decimal.
pub fn to_decimal(n: u64) -> (r: Vec<u8>)
    ensures
        r@ == decimal(n as nat),
    decreases n,
{
    if n < 10 {
        let mut r: Vec<u8> = Vec::new();
        r.push((48 + n) as u8);
        assert(r@ =~= decimal(n as nat));
        r
    } else {
        let mut r = to_decimal(n / 10);
        r.push((48 + n % 10) as u8);
        r
    }
}

/// The number that `s` is a numeral of, where there is one and it fits.
pub fn parse(s: &[u8]) -> (r: Option<usize>)
    ensures
        match r {
            Some(n) => numeral(s@) == Some(n as nat),
            None => numeral(s@) is None || numeral(s@)->Some_0 > usize::MAX,
        },
{
    let start: usize = if s.len() > 0 && s[0] == 43 {
        1
    } else {
        0
    };
    let ghost digits = unsigned_part(s@);
    assert(digits =~= s@.skip(start as int));
    if start == s.len() {
        return None;
    }
    let mut n: usize = 0;
    let mut i: usize = start;
    while i < s.len()
        invariant
            start <= i <= s@.len(),
            start < s@.len(),
            digits == s@.skip(start as int),
            digits == unsigned_part(s@),
            forall|j: int| 0 <= j < i - start ==> 48 <= #[trigger] digits[j] <= 57,
            n == number(digits.take(i - start)),
        decreases s@.len() - i,
    {
        let b: u8 = s[i];
        assert(b == digits[i - start]);
        if b < 48 || b > 57 {
            return None;
        }
        let d: usize = (b - 48) as usize;
        assert(digits.take(i + 1 - start).drop_last() =~= digits.take(i - start));
        assert(number(digits.take(i + 1 - start)) == n * 10 + d);
        if n > (usize::MAX - d) / 10 {
            assert(n * 10 + d > usize::MAX);
            proof {
                if all_digits(digits) {
                    lemma_number_grows(digits, i + 1 - start);
                }
            }
            return None;
        }
        n = n * 10 + d;
        i = i + 1;
    }
    assert(digits.take(i - start) =~= digits);
    Some(n)
}

/// More digits make no smaller number.
proof fn lemma_number_grows(s: Seq<u8>, i: int)
    requires
        0 <= i <= s.len(),
        all_digits(s),
    ensures
        number(s.take(i)) <= number(s),
    decreases s.len(),
{
    if i == s.len() {
        assert(s.take(i) =~= s);
    } else {
        assert(s.drop_last().take(i) =~= s.take(i));
        lemma_number_grows(s.drop_last(), i);
    }
}

/// Bytes handed out one after another.
pub struct ByteSource {
    bytes: Vec<u8>,
    next: usize,
}

impl View for ByteSource {
    type V = Seq<u8>;

    /// The bytes still to come.
    closed spec fn view(&self) -> Seq<u8> {
        self.bytes@.skip(self.next as int)
    }
}

impl ByteSource {
    #[verifier::type_invariant]
    spec fn inside(&self) -> bool {
        self.next <= self.bytes@.len()
    }

    /// A source of the given bytes.
    pub fn new(bytes: Vec<u8>) -> (r: ByteSource)
        ensures
            r@ == bytes@,
    {
        let r = ByteSource { bytes, next: 0 };
        assert(r@ =~= bytes@);
        r
    }

    /// The next byte, if any is left.
    pub fn next(&mut self) -> (r: Option<u8>)
        ensures
            match r {
                Some(b) => old(self)@.len() > 0 && b == old(self)@[0] && final(self)@ == old(
                    self,
                )@.skip(1),
                None => old(self)@.len() == 0 && final(self)@ == old(self)@,
            },
    {
        proof {
            use_type_invariant(&*self);
        }
        if self.next < self.bytes.len() {
            let b: u8 = self.bytes[self.next];
            let ghost before = self@;
            self.next = self.next + 1;
            assert(self@ =~= before.skip(1));
            Some(b)
        } else {
            None
        }
    }

    /// How many bytes are left.
    pub fn len(&self) -> (r: usize)
        ensures
            r == self@.len(),
    {
        proof {
            use_type_invariant(self);
        }
        self.bytes.len() - self.next
    }
}

/// A u16, most significant byte first.
pub open spec fn be16(n: u16) -> Seq<u8> {
    seq![(n / 256) as u8, (n % 256) as u8]
}

/// A u32, most significant byte first.
pub open spec fn be32(n: u32) -> Seq<u8> {
    be16((n / 65536) as u16) + be16((n % 65536) as u16)
}

/// The u16 that stands at a position.
pub open spec fn u16_at(b: Seq<u8>, at: int) -> u16 {
    (b[at] * 256 + b[at + 1]) as u16
}

/// The u32 that stands at a position.
pub open spec fn u32_at(b: Seq<u8>, at: int) -> u32 {
    (u16_at(b, at) * 65536 + u16_at(b, at + 2)) as u32
}

/// Adds a u16, most significant byte first.
pub fn push_u16(out: &mut Vec<u8>, n: u16)
    ensures
        final(out)@ == old(out)@ + be16(n),
{
    out.push((n / 256) as u8);
    out.push((n % 256) as u8);
    assert(out@ =~= old(out)@ + be16(n));
}

/// Adds a u32, most significant byte first.
pub fn push_u32(out: &mut Vec<u8>, n: u32)
    ensures
        final(out)@ == old(out)@ + be32(n),
{
    push_u16(out, (n / 65536) as u16);
    push_u16(out, (n % 65536) as u16);
    assert(out@ =~= old(out)@ + be32(n));
}

/// The u16 that stands at a position.
pub fn get_u16(b: &[u8], at: usize) -> (r: u16)
    requires
        at + 2 <= b@.len(),
    ensures
        r == u16_at(b@, at as int),
{
    b[at] as u16 * 256 + b[at + 1] as u16
}

/// The u32 that stands at a position.
pub fn get_u32(b: &[u8], at: usize) -> (r: u32)
    requires
        at + 4 <= b@.len(),
    ensures
        r == u32_at(b@, at as int),
{
    assert(b.len() == b@.len());
    get_u16(b, at) as u32 * 65536 + get_u16(b, at + 2) as u32
}

/// Where a u16 was written, it is read.
pub proof fn lemma_u16_reads_back(b: Seq<u8>, at: int, n: u16)
    requires
        0 <= at,
        at + 2 <= b.len(),
        b[at] == be16(n)[0],
        b[at + 1] == be16(n)[1],
    ensures
        u16_at(b, at) == n,
{
}

/// Where a u32 was written, it is read.
pub proof fn lemma_u32_reads_back(b: Seq<u8>, at: int, n: u32)
    requires
        0 <= at,
        at + 4 <= b.len(),
        b.subrange(at, at + 4) == be32(n),
    ensures
        u32_at(b, at) == n,
{
    let w = b.subrange(at, at + 4);
    assert(b[at] == w[0] && b[at + 1] == w[1] && b[at + 2] == w[2] && b[at + 3] == w[3]);
    lemma_u16_reads_back(b, at, (n / 65536) as u16);
    lemma_u16_reads_back(b, at + 2, (n % 65536) as u16);
}

/// Numbers are written digit by digit: one more digit at the end is ten times
/// the number, and that digit; and they are read the same way.
pub proof fn law_digits(n: nat, s: Seq<u8>, d: nat)
    requires
        d < 10,
    ensures
        decimal(d) == seq![(48 + d) as u8],
        n > 0 ==> decimal(10 * n + d) == decimal(n).push((48 + d) as u8),
        number(Seq::empty()) == 0,
        number(s.push((48 + d) as u8)) == 10 * number(s) + d,
{
    assert(s.push((48 + d) as u8).drop_last() =~= s);
    if n > 0 {
        assert((10 * n + d) / 10 == n);
        assert((10 * n + d) % 10 == d);
    }
}

/// What is a numeral: one digit or more, after a plus sign or without.
pub proof fn law_numerals(s: Seq<u8>)
    ensures
        s.len() > 0 && (forall|i: int| 0 <= i < s.len() ==> 48 <= #[trigger] s[i] <= 57) ==> numeral(s)
            == Some(number(s)) && numeral(seq![43u8] + s) == Some(number(s)),
        s.len() == 0 ==> numeral(s) is None && numeral(seq![43u8] + s) is None,
        (exists|i: int| 0 <= i < s.len() && !(48 <= #[trigger] s[i] <= 57)) ==> numeral(seq![43u8] + s)
            is None && (s[0] != 43 ==> numeral(s) is None),
{
    assert((seq![43u8] + s).skip(1) =~= s);
    if s.len() > 0 && (forall|i: int| 0 <= i < s.len() ==> 48 <= #[trigger] s[i] <= 57) {
        assert(all_digits(s));
        assert(48 <= s[0]);
    }
    if exists|i: int| 0 <= i < s.len() && !(48 <= #[trigger] s[i] <= 57) {
        let i = choose|i: int| 0 <= i < s.len() && !(48 <= #[trigger] s[i] <= 57);
        assert(!(48 <= s[i] <= 57));
        assert(!all_digits(s));
    }
}

/// The bytes of numbers, most significant first, and the numbers that bytes
/// stand for.
pub proof fn law_big_endian(n: u16, m: u32, b: Seq<u8>, at: int)
    requires
        0 <= at,
        at + 4 <= b.len(),
    ensures
        be16(n).len() == 2 && n == be16(n)[0] * 256 + be16(n)[1],
        be32(m).len() == 4 && m == be32(m)[0] * 16777216 + be32(m)[1] * 65536 + be32(m)[2] * 256
            + be32(m)[3],
        u16_at(b, at) == b[at] * 256 + b[at + 1],
        u32_at(b, at) == b[at] * 16777216 + b[at + 1] * 65536 + b[at + 2] * 256 + b[at + 3],
{
}

/// The bytes of ASCII text are its characters, one by one.
pub proof fn law_ascii(text: Seq<char>)
    ensures
        ascii(text).len() == text.len(),
        forall|i: int| 0 <= i < text.len() ==> #[trigger] ascii(text)[i] == text[i] as u8,
{
}

} // verus!
