//! Numbers in decimal digits.

use crate::text::{chars_of, string_of};
use vstd::prelude::*;

verus! {

/// The character of a decimal digit.
pub open spec fn digit_char(d: nat) -> char {
    if d == 0 {
        '0'
    } else if d == 1 {
        '1'
    } else if d == 2 {
        '2'
    } else if d == 3 {
        '3'
    } else if d == 4 {
        '4'
    } else if d == 5 {
        '5'
    } else if d == 6 {
        '6'
    } else if d == 7 {
        '7'
    } else if d == 8 {
        '8'
    } else {
        '9'
    }
}

/// The decimal digit that a character stands for, where it is one.
pub open spec fn digit_of(c: char) -> Option<nat> {
    if c == '0' {
        Some(0)
    } else if c == '1' {
        Some(1)
    } else if c == '2' {
        Some(2)
    } else if c == '3' {
        Some(3)
    } else if c == '4' {
        Some(4)
    } else if c == '5' {
        Some(5)
    } else if c == '6' {
        Some(6)
    } else if c == '7' {
        Some(7)
    } else if c == '8' {
        Some(8)
    } else if c == '9' {
        Some(9)
    } else {
        None
    }
}

/// A number in decimal digits, without needless zeros.
pub open spec fn nat_text(n: nat) -> Seq<char>
    decreases n,
{
    if n < 10 {
        seq![digit_char(n)]
    } else {
        nat_text(n / 10).push(digit_char(n % 10))
    }
}

/// The number that decimal digits stand for, read after a number `acc`.
pub open spec fn digits_value(digits: Seq<char>, acc: nat) -> nat
    decreases digits.len(),
{
    if digits.len() == 0 {
        acc
    } else {
        digits_value(
            digits.skip(1),
            acc * 10 + match digit_of(digits[0]) {
                Some(d) => d,
                None => 0,
            },
        )
    }
}

/// Whether every character is a decimal digit.
pub open spec fn all_digits(digits: Seq<char>) -> bool {
    forall|i: int| 0 <= i < digits.len() ==> digit_of(#[trigger] digits[i]) is Some
}

/// One more digit at the end multiplies by ten and adds the digit.
pub proof fn lemma_digits_push(digits: Seq<char>, acc: nat, d: nat)
    requires
        d < 10,
    ensures
        digits_value(digits.push(digit_char(d)), acc) == digits_value(digits, acc) * 10 + d,
    decreases digits.len(),
{
    let more = digits.push(digit_char(d));
    if digits.len() == 0 {
        assert(more.skip(1) =~= Seq::<char>::empty());
        assert(digits_value(more.skip(1), acc * 10 + d) == acc * 10 + d);
    } else {
        assert(more.skip(1) =~= digits.skip(1).push(digit_char(d)));
        let next = acc * 10 + match digit_of(digits[0]) {
            Some(x) => x,
            None => 0,
        };
        lemma_digits_push(digits.skip(1), next, d);
    }
}

/// The digits of a number are digits, and stand for the number.
pub proof fn lemma_nat_text(n: nat)
    ensures
        nat_text(n).len() >= 1,
        all_digits(nat_text(n)),
        digits_value(nat_text(n), 0) == n,
    decreases n,
{
    if n < 10 {
        let t = nat_text(n);
        assert(t.skip(1) =~= Seq::<char>::empty());
        assert(digits_value(t.skip(1), n) == n);
    } else {
        lemma_nat_text(n / 10);
        lemma_digits_push(nat_text(n / 10), 0, n % 10);
        let front = nat_text(n / 10);
        let t = nat_text(n);
        assert forall|i: int| 0 <= i < t.len() implies digit_of(#[trigger] t[i]) is Some by {
            if i < front.len() {
                assert(t[i] == front[i]);
            }
        }
    }
}

/// The character of a decimal digit.
pub fn digit(d: u8) -> (c: char)
    requires
        d < 10,
    ensures
        c == digit_char(d as nat),
{
    if d == 0 {
        '0'
    } else if d == 1 {
        '1'
    } else if d == 2 {
        '2'
    } else if d == 3 {
        '3'
    } else if d == 4 {
        '4'
    } else if d == 5 {
        '5'
    } else if d == 6 {
        '6'
    } else if d == 7 {
        '7'
    } else if d == 8 {
        '8'
    } else {
        '9'
    }
}

/// The decimal digit that a character stands for, where it is one.
pub fn digit_value(c: char) -> (r: Option<u8>)
    ensures
        match r {
            Some(d) => digit_of(c) == Some(d as nat) && d < 10,
            None => digit_of(c) is None,
        },
{
    if c == '0' {
        Some(0)
    } else if c == '1' {
        Some(1)
    } else if c == '2' {
        Some(2)
    } else if c == '3' {
        Some(3)
    } else if c == '4' {
        Some(4)
    } else if c == '5' {
        Some(5)
    } else if c == '6' {
        Some(6)
    } else if c == '7' {
        Some(7)
    } else if c == '8' {
        Some(8)
    } else if c == '9' {
        Some(9)
    } else {
        None
    }
}

/// Writes the digits of a number.
pub fn write_digits(buf: &mut Vec<char>, n: u128)
    ensures
        final(buf)@ == old(buf)@ + nat_text(n as nat),
    decreases n,
{
    if n >= 10 {
        write_digits(buf, n / 10);
    }
    let d = (n % 10) as u8;
    buf.push(digit(d));
    proof {
        if n >= 10 {
            assert(final(buf)@ =~= old(buf)@ + nat_text(n as nat));
        } else {
            assert(final(buf)@ =~= old(buf)@ + nat_text(n as nat));
        }
    }
}

/// What is read after a number is at least that number.
pub proof fn lemma_digits_grow(digits: Seq<char>, acc: nat)
    ensures
        digits_value(digits, acc) >= acc,
    decreases digits.len(),
{
    if digits.len() > 0 {
        let next = acc * 10 + match digit_of(digits[0]) {
            Some(d) => d,
            None => 0,
        };
        lemma_digits_grow(digits.skip(1), next);
    }
}

/// A whole number in decimal digits, with a minus sign before it where it
/// is negative.
pub open spec fn int_text(n: int) -> Seq<char> {
    if n < 0 {
        seq!['-'] + nat_text((-n) as nat)
    } else {
        nat_text(n as nat)
    }
}

/// The digits of a text that may begin with a sign.
pub open spec fn unsigned_part(s: Seq<char>) -> Seq<char> {
    if s.len() > 0 && (s[0] == '-' || s[0] == '+') {
        s.skip(1)
    } else {
        s
    }
}

/// The whole number that a text stands for: decimal digits, at least one,
/// with a sign before them or none.
pub open spec fn int_of_text(s: Seq<char>) -> Option<int> {
    let digits = unsigned_part(s);
    if digits.len() == 0 || !all_digits(digits) {
        None
    } else if s[0] == '-' {
        Some(-(digits_value(digits, 0) as int))
    } else {
        Some(digits_value(digits, 0) as int)
    }
}

/// The number of 64 bits that a text stands for, or nothing where the text
/// is no number or the number does not fit.
pub open spec fn i64_of_text(text: Seq<char>) -> Option<i64> {
    match int_of_text(text) {
        Some(v) => if i64::MIN <= v <= i64::MAX {
            Some(v as i64)
        } else {
            None
        },
        None => None,
    }
}

/// The text of a number of 64 bits.
pub open spec fn text_of_i64(n: i64) -> Seq<char> {
    int_text(n as int)
}

/// The text of a number stands for the number.
pub proof fn lemma_int_text(n: int)
    ensures
        int_of_text(int_text(n)) == Some(n),
{
    let s = int_text(n);
    if n < 0 {
        lemma_nat_text((-n) as nat);
        assert(s[0] == '-');
        assert(s.skip(1) =~= nat_text((-n) as nat));
    } else {
        lemma_nat_text(n as nat);
        let digits = nat_text(n as nat);
        assert(digit_of(digits[0]) is Some);
        assert(s[0] != '-' && s[0] != '+');
    }
}

/// The text of a number of 64 bits is read back.
pub proof fn lemma_i64_text(n: i64)
    ensures
        i64_of_text(text_of_i64(n)) == Some(n),
{
    lemma_int_text(n as int);
}

/// The text of a number of 64 bits.
pub fn format_i64(n: i64) -> (r: String)
    ensures
        r@ == text_of_i64(n),
        i64_of_text(r@) == Some(n),
{
    let mut buf: Vec<char> = Vec::new();
    if n < 0 {
        buf.push('-');
        write_digits(&mut buf, (-(n as i128)) as u128);
    } else {
        write_digits(&mut buf, n as u128);
    }
    proof {
        assert(buf@ =~= text_of_i64(n));
        lemma_i64_text(n);
    }
    let r = string_of(&buf, 0, buf.len());
    proof {
        assert(buf@.subrange(0, buf@.len() as int) =~= buf@);
    }
    r
}

/// The number of 64 bits that the characters stand for.
pub fn parse_i64_chars(chars: &Vec<char>) -> (r: Option<i64>)
    ensures
        r == i64_of_text(chars@),
{
    let len = chars.len();
    let ghost s = chars@;
    let mut start: usize = 0;
    let mut negative = false;
    if len > 0 && chars[0] == '-' {
        negative = true;
        start = 1;
    } else if len > 0 && chars[0] == '+' {
        start = 1;
    }
    let ghost digits = unsigned_part(s);
    proof {
        assert(digits =~= s.skip(start as int));
    }
    if start >= len {
        return None;
    }
    let limit: u128 = (i64::MAX as u128) + 1;
    let mut acc: u128 = 0;
    let mut over = false;
    let mut i: usize = start;
    while i < len
        invariant
            s == chars@,
            len == s.len(),
            start <= i <= len,
            digits == s.skip(start as int),
            digits == unsigned_part(s),
            forall|j: int| start <= j < i ==> digit_of(#[trigger] s[j]) is Some,
            limit == (i64::MAX as u128) + 1,
            acc <= limit,
            !over ==> digits_value(digits, 0) == digits_value(s.skip(i as int), acc as nat),
            over ==> digits_value(digits, 0) > limit,
        decreases len - i,
    {
        let c = chars[i];
        proof {
            assert(s.skip(i as int)[0] == c);
            assert(s.skip(i as int).skip(1) =~= s.skip(i + 1));
        }
        match digit_value(c) {
            Some(d) => {
                if !over {
                    let next = acc * 10 + d as u128;
                    if next > limit {
                        proof {
                            lemma_digits_grow(s.skip(i + 1), next as nat);
                        }
                        over = true;
                    } else {
                        acc = next;
                    }
                }
            },
            None => {
                proof {
                    assert(digits[i - start] == c);
                    assert(!all_digits(digits));
                }
                return None;
            },
        }
        i = i + 1;
    }
    proof {
        assert(s.skip(len as int) =~= Seq::<char>::empty());
        assert forall|j: int| 0 <= j < digits.len() implies digit_of(#[trigger] digits[j])
            is Some by {
            assert(digits[j] == s[j + start]);
        }
    }
    if over {
        return None;
    }
    if negative {
        if acc == limit {
            Some(i64::MIN)
        } else {
            Some(-(acc as i64))
        }
    } else {
        if acc == limit {
            None
        } else {
            Some(acc as i64)
        }
    }
}

/// The number of 64 bits that a text stands for.
pub fn parse_i64(text: &str) -> (r: Option<i64>)
    ensures
        r == i64_of_text(text@),
{
    let chars = chars_of(text);
    parse_i64_chars(&chars)
}

} // verus!
