//! Decimal text for sizes: the form in which the index stores them.
use crate::model::SizeWrapper;
use vstd::arithmetic::div_mod::lemma_fundamental_div_mod;
use vstd::prelude::*;

verus! {

/// The decimal digit character for `d`, which is below ten.
pub open spec fn digit_char(d: nat) -> char {
    ('0' as u8 + d as u8) as char
}

/// The value of a decimal digit character.
pub open spec fn digit_value(c: char) -> nat {
    (c as u32 - '0' as u32) as nat
}

pub open spec fn is_digit(c: char) -> bool {
    '0' <= c && c <= '9'
}

/// The decimal text of `n`, without leading zeros.
pub open spec fn decimal_of(n: nat) -> Seq<char>
    decreases n,
{
    if n < 10 {
        seq![digit_char(n)]
    } else {
        decimal_of(n / 10).push(digit_char(n % 10))
    }
}

/// The number that a run of decimal digits denotes.
pub open spec fn digits_value(s: Seq<char>) -> nat
    decreases s.len(),
{
    if s.len() == 0 {
        0
    } else {
        10 * digits_value(s.drop_last()) + digit_value(s.last())
    }
}

pub open spec fn all_digits(s: Seq<char>) -> bool {
    forall|i: int| 0 <= i < s.len() ==> is_digit(#[trigger] s[i])
}

/// `s` without a leading `+`.
pub open spec fn unsigned_part(s: Seq<char>) -> Seq<char> {
    if s.len() > 0 && s[0] == '+' {
        s.drop_first()
    } else {
        s
    }
}

/// The unsigned number that `s` denotes: an optional `+`, then one or more
/// decimal digits, with a value that fits in 64 bits.
pub open spec fn parse_decimal(s: Seq<char>) -> Option<u64> {
    let d = unsigned_part(s);
    if d.len() > 0 && all_digits(d) && digits_value(d) <= u64::MAX {
        Some(digits_value(d) as u64)
    } else {
        None
    }
}

pub proof fn lemma_digit_char(d: nat)
    requires
        d < 10,
    ensures
        is_digit(digit_char(d)),
        digit_value(digit_char(d)) == d,
{
    assert(('0' as u8 + d as u8) as char as u32 == '0' as u32 + d);
}

pub proof fn lemma_decimal_of(n: nat)
    ensures
        all_digits(decimal_of(n)),
        decimal_of(n).len() > 0,
        digits_value(decimal_of(n)) == n,
    decreases n,
{
    if n >= 10 {
        lemma_decimal_of(n / 10);
        lemma_fundamental_div_mod(n as int, 10);
        let s = decimal_of(n);
        assert(s.drop_last() == decimal_of(n / 10));
        lemma_digit_char((n % 10) as nat);
        assert(s.last() == digit_char((n % 10) as nat));
        assert(digits_value(s) == 10 * digits_value(decimal_of(n / 10)) + digit_value(s.last()));
    } else {
        lemma_digit_char(n);
        let s = decimal_of(n);
        assert(s.drop_last() =~= Seq::<char>::empty());
        assert(digits_value(s) == 10 * digits_value(s.drop_last()) + digit_value(s.last()));
    }
}

/// A digit run denotes at least what any of its prefixes denotes.
pub proof fn lemma_digits_grow(s: Seq<char>, i: int)
    requires
        0 <= i <= s.len(),
    ensures
        digits_value(s.subrange(0, i)) <= digits_value(s),
    decreases s.len() - i,
{
    if i < s.len() {
        lemma_digits_grow(s, i + 1);
        assert(s.subrange(0, i + 1).drop_last() == s.subrange(0, i));
    } else {
        assert(s.subrange(0, i) == s);
    }
}

/// Stored sizes read back as written, for every 64-bit value.
pub proof fn lemma_size_round_trip(n: u64)
    ensures
        parse_decimal(decimal_of(n as nat)) == Some(n),
{
    lemma_decimal_of(n as nat);
    let s = decimal_of(n as nat);
    assert(is_digit(s[0]));
}

/// The decimal text of `n`.
pub fn decimal_text(n: u64) -> (r: String)
    ensures
        r@ == decimal_of(n as nat),
    decreases n,
{
    if n < 10 {
        let mut r = String::new();
        r.push(('0' as u8 + n as u8) as char);
        assert(r@ =~= seq![digit_char(n as nat)]);
        r
    } else {
        let mut r = decimal_text(n / 10);
        r.push(('0' as u8 + (n % 10) as u8) as char);
        r
    }
}

/// The number that `s` denotes, if it is an optional `+` and decimal digits
/// with a value that fits in 64 bits.
pub fn parse_size(s: &str) -> (r: Option<u64>)
    ensures
        r == parse_decimal(s@),
{
    let chars = crate::text::chars_of(s);
    let mut start: usize = 0;
    if chars.len() > 0 && chars[0] == '+' {
        start = 1;
    }
    let ghost d = unsigned_part(s@);
    assert(d == s@.subrange(start as int, s@.len() as int));
    if start == chars.len() {
        return None;
    }
    let mut acc: u64 = 0;
    let mut i: usize = start;
    while i < chars.len()
        invariant
            chars@ == s@,
            start <= i <= chars.len(),
            d == s@.subrange(start as int, s@.len() as int),
            d == unsigned_part(s@),
            all_digits(d.subrange(0, i - start)),
            acc == digits_value(d.subrange(0, i - start)),
        decreases chars.len() - i,
    {
        let c = chars[i];
        let ghost pre = d.subrange(0, i - start);
        let ghost next = d.subrange(0, i - start + 1);
        assert(next.drop_last() == pre);
        assert(d[i - start] == c);
        if !('0' <= c && c <= '9') {
            assert(!is_digit(d[i - start]));
            assert(!all_digits(d));
            return None;
        }
        let v: u64 = (c as u32 - '0' as u32) as u64;
        if acc > (u64::MAX - v) / 10 {
            proof {
                lemma_digits_grow(d, i - start + 1);
                assert(10 * acc + v > u64::MAX) by (nonlinear_arith)
                    requires
                        acc > (u64::MAX - v) / 10,
                        v <= 9,
                ;
                assert(digits_value(next) == 10 * acc + v);
                assert(digits_value(d) > u64::MAX);
            }
            return None;
        }
        acc = acc * 10 + v;
        i = i + 1;
    }
    assert(d.subrange(0, i - start) == d);
    Some(acc)
}

impl SizeWrapper {
    /// The decimal text under which the index stores this size.
    pub fn to_text(&self) -> (r: String)
        ensures
            r@ == decimal_of(self.0 as nat),
    {
        decimal_text(self.0)
    }

    /// Reads a size back from its stored text.
    pub fn from_text(s: &str) -> (r: Option<SizeWrapper>)
        ensures
            r matches Some(w) ==> parse_decimal(s@) == Some(w.0),
            r is None <==> parse_decimal(s@) is None,
    {
        match parse_size(s) {
            Some(v) => Some(SizeWrapper(v)),
            None => None,
        }
    }
}

} // verus!
