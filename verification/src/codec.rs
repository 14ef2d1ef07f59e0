//! The written form of a storage: what a file holds of it. Every item is
//! written so that it can be told where it ends: a number in decimal digits
//! with a semicolon behind it, a text as its length and then its characters.

use crate::assoc::{distinct_keys, has_key, key_index, lemma_map_of_index, lemma_map_of_push, map_of};
use crate::clock::Timestamp;
use crate::decimal::{
    all_digits, digit_of, digit_value, digits_value, lemma_nat_text, nat_text, write_digits,
};
use crate::operation::{log_view, log_wf, text_view, Op, Operation};
use crate::storage::{db_wf, Db, InMemoryStorage};
use crate::table::{ids_of, Row};
use crate::taskmap::{with_pair, Pair, TaskMap};
use crate::text::{chars_of, string_of};
use vstd::prelude::*;

verus! {

/// Reads decimal digits up to a semicolon, after a number `acc`: the number
/// read and what follows the semicolon, or nothing where another character
/// comes first or the semicolon is missing.
pub open spec fn read_number(s: Seq<char>, acc: nat) -> Option<(nat, Seq<char>)>
    decreases s.len(),
{
    if s.len() == 0 {
        None
    } else if s[0] == ';' {
        Some((acc, s.skip(1)))
    } else {
        match digit_of(s[0]) {
            Some(d) => read_number(s.skip(1), acc * 10 + d),
            None => None,
        }
    }
}

/// Reads a number: at least one decimal digit, then a semicolon.
pub open spec fn number(s: Seq<char>) -> Option<(nat, Seq<char>)> {
    if s.len() > 0 && s[0] == ';' {
        None
    } else {
        read_number(s, 0)
    }
}

/// The written form of a number.
pub open spec fn enc_number(n: nat) -> Seq<char> {
    nat_text(n).push(';')
}

/// Reads a number that is at most `max`.
pub open spec fn bounded(s: Seq<char>, max: nat) -> Option<(nat, Seq<char>)> {
    match number(s) {
        Some((n, rest)) => if n <= max {
            Some((n, rest))
        } else {
            None
        },
        None => None,
    }
}

/// Digits before what follows are read as the number they stand for.
pub proof fn lemma_read_digits(digits: Seq<char>, tail: Seq<char>, acc: nat)
    requires
        all_digits(digits),
    ensures
        read_number(digits + tail, acc) == read_number(tail, digits_value(digits, acc)),
    decreases digits.len(),
{
    if digits.len() == 0 {
        assert(digits + tail =~= tail);
    } else {
        let s = digits + tail;
        assert(s[0] == digits[0]);
        assert(digit_of(digits[0]) is Some);
        assert(s.skip(1) =~= digits.skip(1) + tail);
        assert forall|i: int| 0 <= i < digits.skip(1).len() implies digit_of(
            #[trigger] digits.skip(1)[i],
        ) is Some by {
            assert(digits.skip(1)[i] == digits[i + 1]);
        }
        lemma_read_digits(digits.skip(1), tail, acc * 10 + digit_of(digits[0]).unwrap());
    }
}

/// A written number is read back, and what follows it is left.
pub proof fn lemma_number(n: nat, tail: Seq<char>)
    ensures
        number(enc_number(n) + tail) == Some((n, tail)),
{
    lemma_nat_text(n);
    let digits = nat_text(n);
    let rest = seq![';'] + tail;
    assert(enc_number(n) + tail =~= digits + rest);
    lemma_read_digits(digits, rest, 0);
    assert(rest.skip(1) =~= tail);
    assert((digits + rest)[0] == digits[0]);
    assert(digit_of(digits[0]) is Some);
}

/// What is read is at least what was read before.
pub proof fn lemma_read_grows(s: Seq<char>, acc: nat)
    ensures
        read_number(s, acc) matches Some((n, rest)) ==> n >= acc && rest.len() < s.len(),
    decreases s.len(),
{
    if s.len() > 0 && s[0] != ';' {
        match digit_of(s[0]) {
            Some(d) => {
                lemma_read_grows(s.skip(1), acc * 10 + d);
            },
            None => {},
        }
    }
}

/// Writes a number.
pub fn write_number(buf: &mut Vec<char>, n: u128)
    ensures
        final(buf)@ == old(buf)@ + enc_number(n as nat),
{
    write_digits(buf, n);
    buf.push(';');
    proof {
        assert(final(buf)@ =~= old(buf)@ + enc_number(n as nat));
    }
}

/// Reads a number from the place `pos` on: the number and the place behind
/// it.
pub fn read_number_at(text: &Vec<char>, pos: usize) -> (r: Option<(u128, usize)>)
    requires
        pos <= text@.len(),
    ensures
        match r {
            Some((n, next)) => pos < next <= text@.len() && bounded(
                text@.skip(pos as int),
                u128::MAX as nat,
            ) == Some((n as nat, text@.skip(next as int))),
            None => bounded(text@.skip(pos as int), u128::MAX as nat) is None,
        },
{
    let len = text.len();
    let ghost s = text@.skip(pos as int);
    if pos >= len {
        return None;
    }
    if text[pos] == ';' {
        return None;
    }
    let mut acc: u128 = 0;
    let mut i: usize = pos;
    while i < len
        invariant
            len == text@.len(),
            pos <= i <= len,
            s == text@.skip(pos as int),
            number(s) == read_number(text@.skip(i as int), acc as nat),
            i == pos ==> text@[pos as int] != ';',
        decreases len - i,
    {
        let c = text[i];
        proof {
            assert(text@.skip(i as int)[0] == c);
            assert(text@.skip(i as int).skip(1) =~= text@.skip(i + 1));
        }
        if c == ';' {
            return Some((acc, i + 1));
        }
        match digit_value(c) {
            Some(d) => {
                if acc > (u128::MAX - d as u128) / 10 {
                    proof {
                        lemma_read_grows(text@.skip(i + 1), (acc * 10 + d) as nat);
                    }
                    return None;
                }
                acc = acc * 10 + d as u128;
            },
            None => {
                return None;
            },
        }
        i = i + 1;
    }
    proof {
        assert(text@.skip(len as int) =~= Seq::<char>::empty());
    }
    None
}

/// The written form of a text: its length, then its characters.
pub open spec fn enc_text(t: Seq<char>) -> Seq<char> {
    enc_number(t.len()) + t
}

/// Reads a text: the text and what follows it.
pub open spec fn text_field(s: Seq<char>) -> Option<(Seq<char>, Seq<char>)> {
    match number(s) {
        Some((n, rest)) => if n <= rest.len() {
            Some((rest.take(n as int), rest.skip(n as int)))
        } else {
            None
        },
        None => None,
    }
}

/// The written form of a text that may be missing.
pub open spec fn enc_opt(t: Option<Seq<char>>) -> Seq<char> {
    match t {
        Some(t) => seq!['+'] + enc_text(t),
        None => seq!['-'],
    }
}

/// Reads a text that may be missing.
pub open spec fn opt_field(s: Seq<char>) -> Option<(Option<Seq<char>>, Seq<char>)> {
    if s.len() == 0 {
        None
    } else if s[0] == '-' {
        Some((None, s.skip(1)))
    } else if s[0] == '+' {
        match text_field(s.skip(1)) {
            Some((t, rest)) => Some((Some(t), rest)),
            None => None,
        }
    } else {
        None
    }
}

/// The written form of a number with a sign.
pub open spec fn enc_int(v: int) -> Seq<char> {
    if v < 0 {
        seq!['-'] + enc_number((-v) as nat)
    } else {
        seq!['+'] + enc_number(v as nat)
    }
}

/// Reads a number with a sign.
pub open spec fn int_field(s: Seq<char>) -> Option<(int, Seq<char>)> {
    if s.len() == 0 {
        None
    } else if s[0] == '-' {
        match number(s.skip(1)) {
            Some((n, rest)) => Some((-(n as int), rest)),
            None => None,
        }
    } else if s[0] == '+' {
        match number(s.skip(1)) {
            Some((n, rest)) => Some((n as int, rest)),
            None => None,
        }
    } else {
        None
    }
}

/// Reads a number with a sign that fits in 64 bits.
pub open spec fn i64_field(s: Seq<char>) -> Option<(i64, Seq<char>)> {
    match int_field(s) {
        Some((v, rest)) => if i64::MIN <= v <= i64::MAX {
            Some((v as i64, rest))
        } else {
            None
        },
        None => None,
    }
}

/// A written text is read back, and what follows it is left.
pub proof fn lemma_text(t: Seq<char>, tail: Seq<char>)
    ensures
        text_field(enc_text(t) + tail) == Some((t, tail)),
{
    let rest = t + tail;
    assert(enc_text(t) + tail =~= enc_number(t.len()) + rest);
    lemma_number(t.len(), rest);
    assert(rest.take(t.len() as int) =~= t);
    assert(rest.skip(t.len() as int) =~= tail);
}

/// A written text that may be missing is read back.
pub proof fn lemma_opt(t: Option<Seq<char>>, tail: Seq<char>)
    ensures
        opt_field(enc_opt(t) + tail) == Some((t, tail)),
{
    let s = enc_opt(t) + tail;
    match t {
        Some(text) => {
            assert(s[0] == '+');
            assert(s.skip(1) =~= enc_text(text) + tail);
            lemma_text(text, tail);
        },
        None => {
            assert(s[0] == '-');
            assert(s.skip(1) =~= tail);
        },
    }
}

/// A written number with a sign is read back.
pub proof fn lemma_int(v: int, tail: Seq<char>)
    ensures
        int_field(enc_int(v) + tail) == Some((v, tail)),
{
    let s = enc_int(v) + tail;
    if v < 0 {
        assert(s[0] == '-');
        assert(s.skip(1) =~= enc_number((-v) as nat) + tail);
        lemma_number((-v) as nat, tail);
    } else {
        assert(s[0] == '+');
        assert(s.skip(1) =~= enc_number(v as nat) + tail);
        lemma_number(v as nat, tail);
    }
}

/// Writes a text.
pub fn write_text(buf: &mut Vec<char>, s: &str)
    ensures
        final(buf)@ == old(buf)@ + enc_text(s@),
{
    let mut chars = chars_of(s);
    write_number(buf, chars.len() as u128);
    buf.append(&mut chars);
    proof {
        assert(final(buf)@ =~= old(buf)@ + enc_text(s@));
    }
}

/// Writes a text that may be missing.
pub fn write_opt(buf: &mut Vec<char>, s: &Option<String>)
    ensures
        final(buf)@ == old(buf)@ + enc_opt(
            match *s {
                Some(t) => Some(t@),
                None => None,
            },
        ),
{
    match s {
        Some(t) => {
            buf.push('+');
            write_text(buf, t.as_str());
            proof {
                assert(final(buf)@ =~= old(buf)@ + (seq!['+'] + enc_text(t@)));
            }
        },
        None => {
            buf.push('-');
            proof {
                assert(final(buf)@ =~= old(buf)@ + seq!['-']);
            }
        },
    }
}

/// Writes a number with a sign.
pub fn write_int(buf: &mut Vec<char>, v: i64)
    ensures
        final(buf)@ == old(buf)@ + enc_int(v as int),
{
    if v < 0 {
        buf.push('-');
        write_number(buf, (-(v as i128)) as u128);
        proof {
            assert(final(buf)@ =~= old(buf)@ + (seq!['-'] + enc_number((-v) as nat)));
        }
    } else {
        buf.push('+');
        write_number(buf, v as u128);
        proof {
            assert(final(buf)@ =~= old(buf)@ + (seq!['+'] + enc_number(v as nat)));
        }
    }
}

/// Reads a text from the place `pos` on: the text and the place behind it.
pub fn read_text_at(text: &Vec<char>, pos: usize) -> (r: Option<(String, usize)>)
    requires
        pos <= text@.len(),
    ensures
        match r {
            Some((t, next)) => pos < next <= text@.len() && text_field(text@.skip(pos as int))
                == Some((t@, text@.skip(next as int))),
            None => text_field(text@.skip(pos as int)) is None,
        },
{
    let len = text.len();
    let (n, start) = match read_number_at(text, pos) {
        Some(found) => found,
        None => {
            proof {
                let s = text@.skip(pos as int);
                lemma_read_grows(s, 0);
                if number(s) is Some {
                    let (n, rest) = number(s).unwrap();
                    assert(n > u128::MAX);
                    assert(rest.len() < s.len());
                    assert(s.len() <= len);
                    assert(n > rest.len());
                }
            }
            return None;
        },
    };
    let left = len - start;
    if n > left as u128 {
        return None;
    }
    let end = start + n as usize;
    let t = string_of(text, start, end);
    proof {
        let rest = text@.skip(start as int);
        assert(rest.take(n as int) =~= text@.subrange(start as int, end as int));
        assert(rest.skip(n as int) =~= text@.skip(end as int));
    }
    Some((t, end))
}

/// Reads a text that may be missing from the place `pos` on.
pub fn read_opt_at(text: &Vec<char>, pos: usize) -> (r: Option<(Option<String>, usize)>)
    requires
        pos <= text@.len(),
    ensures
        match r {
            Some((t, next)) => pos < next <= text@.len() && opt_field(text@.skip(pos as int))
                == Some((
                match t {
                    Some(x) => Some(x@),
                    None => None,
                },
                text@.skip(next as int),
            )),
            None => opt_field(text@.skip(pos as int)) is None,
        },
{
    if pos >= text.len() {
        return None;
    }
    let c = text[pos];
    proof {
        assert(text@.skip(pos as int)[0] == c);
        assert(text@.skip(pos as int).skip(1) =~= text@.skip(pos + 1));
    }
    if c == '-' {
        Some((None, pos + 1))
    } else if c == '+' {
        match read_text_at(text, pos + 1) {
            Some((t, next)) => Some((Some(t), next)),
            None => None,
        }
    } else {
        None
    }
}

/// Reads a number with a sign from the place `pos` on.
pub fn read_int_at(text: &Vec<char>, pos: usize) -> (r: Option<(i64, usize)>)
    requires
        pos <= text@.len(),
    ensures
        match r {
            Some((v, next)) => pos < next <= text@.len() && i64_field(text@.skip(pos as int))
                == Some((v, text@.skip(next as int))),
            None => i64_field(text@.skip(pos as int)) is None,
        },
{
    if pos >= text.len() {
        return None;
    }
    let c = text[pos];
    proof {
        assert(text@.skip(pos as int)[0] == c);
        assert(text@.skip(pos as int).skip(1) =~= text@.skip(pos + 1));
    }
    if c != '-' && c != '+' {
        return None;
    }
    let (n, next) = match read_number_at(text, pos + 1) {
        Some(found) => found,
        None => {
            return None;
        },
    };
    if c == '+' {
        if n > i64::MAX as u128 {
            return None;
        }
        Some((n as i64, next))
    } else {
        if n > (i64::MAX as u128) + 1 {
            return None;
        }
        if n == (i64::MAX as u128) + 1 {
            Some((i64::MIN, next))
        } else {
            Some((-(n as i64), next))
        }
    }
}

/// The written form of the properties of a list, one after the other: each
/// as its name and its value.
pub open spec fn enc_pair_items(pairs: Seq<Pair>) -> Seq<char>
    decreases pairs.len(),
{
    if pairs.len() == 0 {
        Seq::empty()
    } else {
        enc_pair_items(pairs.drop_last()) + (enc_text(pairs.last().0) + enc_text(pairs.last().1))
    }
}

/// The written form of a property bag: the number of its properties, then
/// the properties.
pub open spec fn enc_pairs(pairs: Seq<Pair>) -> Seq<char> {
    enc_number(pairs.len()) + enc_pair_items(pairs)
}

/// Reads `count` properties and sets them, one after the other, in the
/// properties `acc`.
pub open spec fn read_pairs(s: Seq<char>, count: nat, acc: Seq<Pair>) -> Option<
    (Seq<Pair>, Seq<char>),
>
    decreases count,
{
    if count == 0 {
        Some((acc, s))
    } else {
        match text_field(s) {
            Some((k, s1)) => match text_field(s1) {
                Some((v, s2)) => read_pairs(s2, (count - 1) as nat, with_pair(acc, k, Some(v))),
                None => None,
            },
            None => None,
        }
    }
}

/// Reads a property bag.
pub open spec fn pairs_field(s: Seq<char>) -> Option<(Seq<Pair>, Seq<char>)> {
    match number(s) {
        Some((n, rest)) => read_pairs(rest, n, Seq::empty()),
        None => None,
    }
}

/// The written form of properties begins with that of the first.
pub proof fn lemma_pair_items_front(pairs: Seq<Pair>)
    requires
        pairs.len() > 0,
    ensures
        enc_pair_items(pairs) == (enc_text(pairs[0].0) + enc_text(pairs[0].1)) + enc_pair_items(
            pairs.skip(1),
        ),
    decreases pairs.len(),
{
    let front = pairs.drop_last();
    let one = enc_text(pairs.last().0) + enc_text(pairs.last().1);
    if pairs.len() == 1 {
        assert(front =~= Seq::<Pair>::empty());
        assert(pairs.skip(1) =~= Seq::<Pair>::empty());
        assert(enc_pair_items(pairs) =~= one + enc_pair_items(pairs.skip(1)));
    } else {
        lemma_pair_items_front(front);
        assert(front.skip(1) =~= pairs.skip(1).drop_last());
        assert(pairs.skip(1).last() == pairs.last());
        assert(front[0] == pairs[0]);
        let first = enc_text(pairs[0].0) + enc_text(pairs[0].1);
        assert(enc_pair_items(pairs) =~= first + enc_pair_items(pairs.skip(1)));
    }
}

/// Written properties with distinct names are read back behind those that
/// were read before them.
pub proof fn lemma_pair_items(pairs: Seq<Pair>, tail: Seq<char>, acc: Seq<Pair>)
    requires
        distinct_keys(acc + pairs),
    ensures
        read_pairs(enc_pair_items(pairs) + tail, pairs.len(), acc) == Some((acc + pairs, tail)),
    decreases pairs.len(),
{
    if pairs.len() == 0 {
        assert(enc_pair_items(pairs) + tail =~= tail);
        assert(acc + pairs =~= acc);
    } else {
        let k = pairs[0].0;
        let v = pairs[0].1;
        let rest = pairs.skip(1);
        lemma_pair_items_front(pairs);
        let s = enc_pair_items(pairs) + tail;
        let s1 = enc_text(v) + (enc_pair_items(rest) + tail);
        let s2 = enc_pair_items(rest) + tail;
        assert(s =~= enc_text(k) + s1);
        lemma_text(k, s1);
        lemma_text(v, s2);
        let all = acc + pairs;
        if has_key(acc, k) {
            let i = crate::assoc::key_index(acc, k);
            assert(all[i] == acc[i]);
            assert(all[acc.len() as int] == pairs[0]);
            assert(all[i].0 != all[acc.len() as int].0);
        }
        let next = acc.push((k, v));
        assert(with_pair(acc, k, Some(v)) == next);
        assert(next + rest =~= all);
        lemma_pair_items(rest, tail, next);
    }
}

/// A written property bag is read back.
pub proof fn lemma_pairs(pairs: Seq<Pair>, tail: Seq<char>)
    requires
        distinct_keys(pairs),
    ensures
        pairs_field(enc_pairs(pairs) + tail) == Some((pairs, tail)),
{
    let rest = enc_pair_items(pairs) + tail;
    assert(enc_pairs(pairs) + tail =~= enc_number(pairs.len()) + rest);
    lemma_number(pairs.len(), rest);
    assert(Seq::<Pair>::empty() + pairs =~= pairs);
    lemma_pair_items(pairs, tail, Seq::empty());
}

/// Writes a property bag.
pub fn write_pairs(buf: &mut Vec<char>, taskmap: &TaskMap)
    ensures
        final(buf)@ == old(buf)@ + enc_pairs(taskmap.pairs()),
{
    let ghost pairs = taskmap.pairs();
    let n = taskmap.len();
    write_number(buf, n as u128);
    let ghost head = buf@;
    let mut i: usize = 0;
    proof {
        assert(pairs.take(0) =~= Seq::<Pair>::empty());
        assert(buf@ =~= head + enc_pair_items(pairs.take(0)));
    }
    while i < n
        invariant
            pairs == taskmap.pairs(),
            n == pairs.len(),
            i <= n,
            buf@ == head + enc_pair_items(pairs.take(i as int)),
        decreases n - i,
    {
        let ghost before = buf@;
        write_text(buf, taskmap.key_at(i).as_str());
        write_text(buf, taskmap.value_at(i).as_str());
        proof {
            assert(pairs.take(i + 1).drop_last() =~= pairs.take(i as int));
            assert(pairs.take(i + 1).last() == pairs[i as int]);
            assert(buf@ =~= head + enc_pair_items(pairs.take(i + 1)));
        }
        i = i + 1;
    }
    proof {
        assert(pairs.take(n as int) =~= pairs);
        assert(buf@ =~= old(buf)@ + enc_pairs(pairs));
    }
}

/// Reads a property bag from the place `pos` on.
pub fn read_pairs_at(text: &Vec<char>, pos: usize) -> (r: Option<(TaskMap, usize)>)
    requires
        pos <= text@.len(),
    ensures
        match r {
            Some((taskmap, next)) => pos < next <= text@.len() && taskmap.wf() && pairs_field(
                text@.skip(pos as int),
            ) == Some((taskmap.pairs(), text@.skip(next as int))),
            None => pairs_field(text@.skip(pos as int)) is None,
        },
{
    let ghost s = text@.skip(pos as int);
    let len = text.len();
    let (n, start) = match read_number_at(text, pos) {
        Some(found) => found,
        None => {
            proof {
                lemma_read_grows(s, 0);
                if number(s) is Some {
                    let (count, rest) = number(s).unwrap();
                    assert(count > u128::MAX);
                    assert(rest.len() < s.len());
                    assert(s.len() <= len);
                    lemma_read_pairs_short(rest, count, Seq::empty());
                }
            }
            return None;
        },
    };
    let mut taskmap = TaskMap::new();
    let mut p: usize = start;
    let mut i: u128 = 0;
    while i < n
        invariant
            start <= p <= text@.len(),
            pos < start,
            i <= n,
            taskmap.wf(),
            s == text@.skip(pos as int),
            pairs_field(s) == read_pairs(text@.skip(p as int), (n - i) as nat, taskmap.pairs()),
        decreases n - i,
    {
        let (k, after_name) = match read_text_at(text, p) {
            Some(found) => found,
            None => {
                return None;
            },
        };
        let (v, after_value) = match read_text_at(text, after_name) {
            Some(found) => found,
            None => {
                return None;
            },
        };
        taskmap.insert(k, v);
        p = after_value;
        i = i + 1;
    }
    Some((taskmap, p))
}

/// More properties than there are characters cannot be read.
pub proof fn lemma_read_pairs_short(s: Seq<char>, count: nat, acc: Seq<Pair>)
    requires
        count > s.len(),
    ensures
        read_pairs(s, count, acc) is None,
    decreases count,
{
    match text_field(s) {
        Some((k, s1)) => {
            lemma_read_grows(s, 0);
            match text_field(s1) {
                Some((v, s2)) => {
                    lemma_read_grows(s1, 0);
                    lemma_read_pairs_short(s2, (count - 1) as nat, with_pair(acc, k, Some(v)));
                },
                None => {},
            }
        },
        None => {},
    }
}

/// The written form of an operation: a letter for its kind, then what it
/// holds.
pub open spec fn enc_op(op: Operation) -> Seq<char> {
    match op {
        Operation::Create { uuid } => seq!['C'] + enc_number(uuid as nat),
        Operation::Delete { uuid, old_task } => seq!['D'] + enc_number(uuid as nat) + enc_pairs(
            old_task.pairs(),
        ),
        Operation::Update { uuid, property, old_value, value, timestamp } => seq!['U']
            + enc_number(uuid as nat) + enc_text(property@) + enc_opt(text_view(old_value))
            + enc_opt(text_view(value)) + enc_int(timestamp.secs as int) + enc_number(
            timestamp.nanos as nat,
        ),
        Operation::UndoPoint => seq!['M'],
    }
}

/// Reads what a change of a property holds.
pub open spec fn update_field(s: Seq<char>) -> Option<(Op, Seq<char>)> {
    match bounded(s, u128::MAX as nat) {
        Some((uuid, s1)) => match text_field(s1) {
            Some((property, s2)) => match opt_field(s2) {
                Some((old_value, s3)) => match opt_field(s3) {
                    Some((value, s4)) => match i64_field(s4) {
                        Some((secs, s5)) => match bounded(s5, u32::MAX as nat) {
                            Some((nanos, rest)) => Some(
                                (
                                    Op::Update {
                                        uuid: uuid as u128,
                                        property,
                                        old_value,
                                        value,
                                        timestamp: Timestamp { secs, nanos: nanos as u32 },
                                    },
                                    rest,
                                ),
                            ),
                            None => None,
                        },
                        None => None,
                    },
                    None => None,
                },
                None => None,
            },
            None => None,
        },
        None => None,
    }
}

/// Reads what a deletion holds.
pub open spec fn delete_field(s: Seq<char>) -> Option<(Op, Seq<char>)> {
    match bounded(s, u128::MAX as nat) {
        Some((uuid, s1)) => match pairs_field(s1) {
            Some((pairs, rest)) => Some(
                (Op::Delete { uuid: uuid as u128, old_task: map_of(pairs) }, rest),
            ),
            None => None,
        },
        None => None,
    }
}

/// Reads an operation.
pub open spec fn op_field(s: Seq<char>) -> Option<(Op, Seq<char>)> {
    if s.len() == 0 {
        None
    } else if s[0] == 'M' {
        Some((Op::UndoPoint, s.skip(1)))
    } else if s[0] == 'C' {
        match bounded(s.skip(1), u128::MAX as nat) {
            Some((uuid, rest)) => Some((Op::Create { uuid: uuid as u128 }, rest)),
            None => None,
        }
    } else if s[0] == 'D' {
        delete_field(s.skip(1))
    } else if s[0] == 'U' {
        update_field(s.skip(1))
    } else {
        None
    }
}

/// What a written change of a property holds is read back.
pub proof fn lemma_update(
    uuid: u128,
    property: Seq<char>,
    old_value: Option<Seq<char>>,
    value: Option<Seq<char>>,
    timestamp: Timestamp,
    tail: Seq<char>,
)
    ensures
        update_field(
            enc_number(uuid as nat) + (enc_text(property) + (enc_opt(old_value) + (enc_opt(value)
                + (enc_int(timestamp.secs as int) + (enc_number(timestamp.nanos as nat)
                + tail))))),
        ) == Some((Op::Update { uuid, property, old_value, value, timestamp }, tail)),
{
    let s5 = enc_number(timestamp.nanos as nat) + tail;
    let s4 = enc_int(timestamp.secs as int) + s5;
    let s3 = enc_opt(value) + s4;
    let s2 = enc_opt(old_value) + s3;
    let s1 = enc_text(property) + s2;
    let s = enc_number(uuid as nat) + s1;
    assert(bounded(s, u128::MAX as nat) == Some((uuid as nat, s1))) by {
        lemma_number(uuid as nat, s1);
    }
    assert(text_field(s1) == Some((property, s2))) by {
        lemma_text(property, s2);
    }
    assert(opt_field(s2) == Some((old_value, s3))) by {
        lemma_opt(old_value, s3);
    }
    assert(opt_field(s3) == Some((value, s4))) by {
        lemma_opt(value, s4);
    }
    assert(i64_field(s4) == Some((timestamp.secs, s5))) by {
        lemma_int(timestamp.secs as int, s5);
    }
    assert(bounded(s5, u32::MAX as nat) == Some((timestamp.nanos as nat, tail))) by {
        lemma_number(timestamp.nanos as nat, tail);
    }
}

/// What a written deletion holds is read back.
pub proof fn lemma_delete(uuid: u128, pairs: Seq<Pair>, tail: Seq<char>)
    requires
        distinct_keys(pairs),
    ensures
        delete_field(enc_number(uuid as nat) + (enc_pairs(pairs) + tail)) == Some(
            (Op::Delete { uuid, old_task: map_of(pairs) }, tail),
        ),
{
    let s1 = enc_pairs(pairs) + tail;
    let s = enc_number(uuid as nat) + s1;
    assert(bounded(s, u128::MAX as nat) == Some((uuid as nat, s1))) by {
        lemma_number(uuid as nat, s1);
    }
    assert(pairs_field(s1) == Some((pairs, tail))) by {
        lemma_pairs(pairs, tail);
    }
}

/// A written operation is read back.
pub proof fn lemma_op(op: Operation, tail: Seq<char>)
    requires
        op.wf(),
    ensures
        op_field(enc_op(op) + tail) == Some((op@, tail)),
{
    let s = enc_op(op) + tail;
    match op {
        Operation::Create { uuid } => {
            assert(s[0] == 'C');
            assert(s.skip(1) =~= enc_number(uuid as nat) + tail);
            lemma_number(uuid as nat, tail);
        },
        Operation::Delete { uuid, old_task } => {
            assert(s[0] == 'D');
            assert(s.skip(1) =~= enc_number(uuid as nat) + (enc_pairs(old_task.pairs()) + tail));
            lemma_delete(uuid, old_task.pairs(), tail);
        },
        Operation::Update { uuid, property, old_value, value, timestamp } => {
            let a = enc_number(uuid as nat);
            let b = enc_text(property@);
            let c = enc_opt(text_view(old_value));
            let d = enc_opt(text_view(value));
            let e = enc_int(timestamp.secs as int);
            let f = enc_number(timestamp.nanos as nat);
            let l1 = seq!['U'] + a;
            let l2 = l1 + b;
            let l3 = l2 + c;
            let l4 = l3 + d;
            let l5 = l4 + e;
            let r5 = f + tail;
            let r4 = e + r5;
            let r3 = d + r4;
            let r2 = c + r3;
            let r1 = b + r2;
            let r0 = a + r1;
            assert(s == (l5 + f) + tail);
            assert((l5 + f) + tail =~= l5 + r5);
            assert(l5 + r5 =~= l4 + r4);
            assert(l4 + r4 =~= l3 + r3);
            assert(l3 + r3 =~= l2 + r2);
            assert(l2 + r2 =~= l1 + r1);
            assert(l1 + r1 =~= seq!['U'] + r0);
            assert((seq!['U'] + r0)[0] == 'U');
            assert((seq!['U'] + r0).skip(1) =~= r0);
            lemma_update(
                uuid,
                property@,
                text_view(old_value),
                text_view(value),
                timestamp,
                tail,
            );
        },
        Operation::UndoPoint => {
            assert(s[0] == 'M');
            assert(s.skip(1) =~= tail);
        },
    }
}

/// Writes an operation.
pub fn write_op(buf: &mut Vec<char>, op: &Operation)
    ensures
        final(buf)@ == old(buf)@ + enc_op(*op),
{
    match op {
        Operation::Create { uuid } => {
            buf.push('C');
            write_number(buf, *uuid);
        },
        Operation::Delete { uuid, old_task } => {
            buf.push('D');
            write_number(buf, *uuid);
            write_pairs(buf, old_task);
        },
        Operation::Update { uuid, property, old_value, value, timestamp } => {
            buf.push('U');
            write_number(buf, *uuid);
            write_text(buf, property.as_str());
            write_opt(buf, old_value);
            write_opt(buf, value);
            write_int(buf, timestamp.secs);
            write_number(buf, timestamp.nanos as u128);
        },
        Operation::UndoPoint => {
            buf.push('M');
        },
    }
    proof {
        assert(final(buf)@ =~= old(buf)@ + enc_op(*op));
    }
}

/// Reads an operation from the place `pos` on.
pub fn read_op_at(text: &Vec<char>, pos: usize) -> (r: Option<(Operation, usize)>)
    requires
        pos <= text@.len(),
    ensures
        match r {
            Some((op, next)) => pos < next <= text@.len() && op.wf() && op_field(
                text@.skip(pos as int),
            ) == Some((op@, text@.skip(next as int))),
            None => op_field(text@.skip(pos as int)) is None,
        },
{
    if pos >= text.len() {
        return None;
    }
    let c = text[pos];
    proof {
        assert(text@.skip(pos as int)[0] == c);
        assert(text@.skip(pos as int).skip(1) =~= text@.skip(pos + 1));
    }
    if c == 'M' {
        return Some((Operation::UndoPoint, pos + 1));
    }
    if c != 'C' && c != 'D' && c != 'U' {
        return None;
    }
    let (uuid, after_uuid) = match read_number_at(text, pos + 1) {
        Some(found) => found,
        None => {
            return None;
        },
    };
    if c == 'C' {
        return Some((Operation::Create { uuid }, after_uuid));
    }
    if c == 'D' {
        return match read_pairs_at(text, after_uuid) {
            Some((old_task, next)) => Some((Operation::Delete { uuid, old_task }, next)),
            None => None,
        };
    }
    let (property, after_property) = match read_text_at(text, after_uuid) {
        Some(found) => found,
        None => {
            return None;
        },
    };
    let (old_value, after_old) = match read_opt_at(text, after_property) {
        Some(found) => found,
        None => {
            return None;
        },
    };
    let (value, after_new) = match read_opt_at(text, after_old) {
        Some(found) => found,
        None => {
            return None;
        },
    };
    let (secs, after_secs) = match read_int_at(text, after_new) {
        Some(found) => found,
        None => {
            return None;
        },
    };
    let (nanos, next) = match read_number_at(text, after_secs) {
        Some(found) => found,
        None => {
            return None;
        },
    };
    if nanos > u32::MAX as u128 {
        return None;
    }
    Some(
        (
            Operation::Update {
                uuid,
                property,
                old_value,
                value,
                timestamp: Timestamp { secs, nanos: nanos as u32 },
            },
            next,
        ),
    )
}

/// The written form of the operations of a log, one after the other.
pub open spec fn enc_op_items(ops: Seq<Operation>) -> Seq<char>
    decreases ops.len(),
{
    if ops.len() == 0 {
        Seq::empty()
    } else {
        enc_op_items(ops.drop_last()) + enc_op(ops.last())
    }
}

/// Reads `count` operations behind the operations `acc`.
pub open spec fn read_ops(s: Seq<char>, count: nat, acc: Seq<Op>) -> Option<(Seq<Op>, Seq<char>)>
    decreases count,
{
    if count == 0 {
        Some((acc, s))
    } else {
        match op_field(s) {
            Some((op, rest)) => read_ops(rest, (count - 1) as nat, acc.push(op)),
            None => None,
        }
    }
}

/// Reads a log: the number of its operations, then the operations.
pub open spec fn ops_field(s: Seq<char>) -> Option<(Seq<Op>, Seq<char>)> {
    match bounded(s, u128::MAX as nat) {
        Some((n, rest)) => read_ops(rest, n, Seq::empty()),
        None => None,
    }
}

/// The written form of a log begins with that of its first operation.
pub proof fn lemma_op_items_front(ops: Seq<Operation>)
    requires
        ops.len() > 0,
    ensures
        enc_op_items(ops) == enc_op(ops[0]) + enc_op_items(ops.skip(1)),
    decreases ops.len(),
{
    let front = ops.drop_last();
    if ops.len() == 1 {
        assert(front =~= Seq::<Operation>::empty());
        assert(ops.skip(1) =~= Seq::<Operation>::empty());
        assert(enc_op_items(ops) =~= enc_op(ops[0]) + enc_op_items(ops.skip(1)));
    } else {
        lemma_op_items_front(front);
        assert(front.skip(1) =~= ops.skip(1).drop_last());
        assert(ops.skip(1).last() == ops.last());
        assert(front[0] == ops[0]);
        assert(enc_op_items(ops) =~= enc_op(ops[0]) + enc_op_items(ops.skip(1)));
    }
}

/// A written log is read back behind the operations that were read before.
pub proof fn lemma_op_items(ops: Seq<Operation>, tail: Seq<char>, acc: Seq<Op>)
    requires
        log_wf(ops),
    ensures
        read_ops(enc_op_items(ops) + tail, ops.len(), acc) == Some((acc + log_view(ops), tail)),
    decreases ops.len(),
{
    if ops.len() == 0 {
        assert(enc_op_items(ops) + tail =~= tail);
        assert(acc + log_view(ops) =~= acc);
    } else {
        let rest = ops.skip(1);
        lemma_op_items_front(ops);
        let s1 = enc_op_items(rest) + tail;
        assert(enc_op_items(ops) + tail =~= enc_op(ops[0]) + s1);
        lemma_op(ops[0], s1);
        assert forall|i: int| 0 <= i < rest.len() implies (#[trigger] rest[i]).wf() by {
            assert(rest[i] == ops[i + 1]);
        }
        lemma_op_items(rest, tail, acc.push(ops[0]@));
        assert(acc.push(ops[0]@) + log_view(rest) =~= acc + log_view(ops));
    }
}

/// The spec-level form of a list of rows.
pub open spec fn rows_view(rows: Seq<(u128, TaskMap)>) -> Seq<Row> {
    rows.map_values(|r: (u128, TaskMap)| (r.0, r.1@))
}

/// The written form of the rows of a list, one after the other: each as
/// the identifier of the task and its property bag.
pub open spec fn enc_row_items(rows: Seq<(u128, TaskMap)>) -> Seq<char>
    decreases rows.len(),
{
    if rows.len() == 0 {
        Seq::empty()
    } else {
        enc_row_items(rows.drop_last()) + (enc_number(rows.last().0 as nat) + enc_pairs(
            rows.last().1.pairs(),
        ))
    }
}

/// Reads `count` rows behind the rows `acc`. A task that has a row already
/// is refused.
pub open spec fn read_rows(s: Seq<char>, count: nat, acc: Seq<Row>) -> Option<
    (Seq<Row>, Seq<char>),
>
    decreases count,
{
    if count == 0 {
        Some((acc, s))
    } else {
        match bounded(s, u128::MAX as nat) {
            Some((uuid, s1)) => if has_key(acc, uuid as u128) {
                None
            } else {
                match pairs_field(s1) {
                    Some((pairs, rest)) => read_rows(
                        rest,
                        (count - 1) as nat,
                        acc.push((uuid as u128, map_of(pairs))),
                    ),
                    None => None,
                }
            },
            None => None,
        }
    }
}

/// Reads the tasks: the number of rows, then the rows.
pub open spec fn rows_field(s: Seq<char>) -> Option<(Seq<Row>, Seq<char>)> {
    match bounded(s, u128::MAX as nat) {
        Some((n, rest)) => read_rows(rest, n, Seq::empty()),
        None => None,
    }
}

/// The written form of rows begins with that of the first.
pub proof fn lemma_row_items_front(rows: Seq<(u128, TaskMap)>)
    requires
        rows.len() > 0,
    ensures
        enc_row_items(rows) == (enc_number(rows[0].0 as nat) + enc_pairs(rows[0].1.pairs()))
            + enc_row_items(rows.skip(1)),
    decreases rows.len(),
{
    let front = rows.drop_last();
    let first = enc_number(rows[0].0 as nat) + enc_pairs(rows[0].1.pairs());
    if rows.len() == 1 {
        assert(front =~= Seq::<(u128, TaskMap)>::empty());
        assert(rows.skip(1) =~= Seq::<(u128, TaskMap)>::empty());
        assert(enc_row_items(rows) =~= first + enc_row_items(rows.skip(1)));
    } else {
        lemma_row_items_front(front);
        assert(front.skip(1) =~= rows.skip(1).drop_last());
        assert(rows.skip(1).last() == rows.last());
        assert(front[0] == rows[0]);
        assert(enc_row_items(rows) =~= first + enc_row_items(rows.skip(1)));
    }
}

/// Written rows of distinct tasks are read back behind the rows that were
/// read before them.
pub proof fn lemma_row_items(rows: Seq<(u128, TaskMap)>, tail: Seq<char>, acc: Seq<Row>)
    requires
        forall|i: int| 0 <= i < rows.len() ==> (#[trigger] rows[i]).1.wf(),
        distinct_keys(acc + rows_view(rows)),
    ensures
        read_rows(enc_row_items(rows) + tail, rows.len(), acc) == Some(
            (acc + rows_view(rows), tail),
        ),
    decreases rows.len(),
{
    if rows.len() == 0 {
        assert(enc_row_items(rows) + tail =~= tail);
        assert(acc + rows_view(rows) =~= acc);
    } else {
        let uuid = rows[0].0;
        let bag = rows[0].1;
        let rest = rows.skip(1);
        lemma_row_items_front(rows);
        let s2 = enc_row_items(rest) + tail;
        let s1 = enc_pairs(bag.pairs()) + s2;
        assert(enc_row_items(rows) + tail =~= enc_number(uuid as nat) + s1);
        lemma_number(uuid as nat, s1);
        lemma_pairs(bag.pairs(), s2);
        let all = acc + rows_view(rows);
        if has_key(acc, uuid) {
            let i = key_index(acc, uuid);
            assert(all[i] == acc[i]);
            assert(all[acc.len() as int] == (uuid, bag@));
            assert(all[i].0 != all[acc.len() as int].0);
        }
        let next = acc.push((uuid, bag@));
        assert(next + rows_view(rest) =~= all);
        assert forall|i: int| 0 <= i < rest.len() implies (#[trigger] rest[i]).1.wf() by {
            assert(rest[i] == rows[i + 1]);
        }
        lemma_row_items(rest, tail, next);
    }
}

/// The written form of one entry of the working set.
pub open spec fn enc_ws_item(item: Option<u128>) -> Seq<char> {
    match item {
        Some(uuid) => seq!['+'] + enc_number(uuid as nat),
        None => seq!['-'],
    }
}

/// Reads one entry of the working set.
pub open spec fn ws_item_field(s: Seq<char>) -> Option<(Option<u128>, Seq<char>)> {
    if s.len() == 0 {
        None
    } else if s[0] == '-' {
        Some((None, s.skip(1)))
    } else if s[0] == '+' {
        match bounded(s.skip(1), u128::MAX as nat) {
            Some((uuid, rest)) => Some((Some(uuid as u128), rest)),
            None => None,
        }
    } else {
        None
    }
}

/// The written form of the entries of a working set, one after the other.
pub open spec fn enc_ws_items(ws: Seq<Option<u128>>) -> Seq<char>
    decreases ws.len(),
{
    if ws.len() == 0 {
        Seq::empty()
    } else {
        enc_ws_items(ws.drop_last()) + enc_ws_item(ws.last())
    }
}

/// Reads `count` entries of a working set behind the entries `acc`.
pub open spec fn read_ws(s: Seq<char>, count: nat, acc: Seq<Option<u128>>) -> Option<
    (Seq<Option<u128>>, Seq<char>),
>
    decreases count,
{
    if count == 0 {
        Some((acc, s))
    } else {
        match ws_item_field(s) {
            Some((item, rest)) => read_ws(rest, (count - 1) as nat, acc.push(item)),
            None => None,
        }
    }
}

/// Reads a working set: the number of its entries, then the entries.
pub open spec fn ws_field(s: Seq<char>) -> Option<(Seq<Option<u128>>, Seq<char>)> {
    match bounded(s, u128::MAX as nat) {
        Some((n, rest)) => read_ws(rest, n, Seq::empty()),
        None => None,
    }
}

/// A written entry of the working set is read back.
pub proof fn lemma_ws_item(item: Option<u128>, tail: Seq<char>)
    ensures
        ws_item_field(enc_ws_item(item) + tail) == Some((item, tail)),
{
    let s = enc_ws_item(item) + tail;
    match item {
        Some(uuid) => {
            assert(s[0] == '+');
            assert(s.skip(1) =~= enc_number(uuid as nat) + tail);
            lemma_number(uuid as nat, tail);
        },
        None => {
            assert(s[0] == '-');
            assert(s.skip(1) =~= tail);
        },
    }
}

/// The written form of a working set begins with that of its first entry.
pub proof fn lemma_ws_items_front(ws: Seq<Option<u128>>)
    requires
        ws.len() > 0,
    ensures
        enc_ws_items(ws) == enc_ws_item(ws[0]) + enc_ws_items(ws.skip(1)),
    decreases ws.len(),
{
    let front = ws.drop_last();
    if ws.len() == 1 {
        assert(front =~= Seq::<Option<u128>>::empty());
        assert(ws.skip(1) =~= Seq::<Option<u128>>::empty());
        assert(enc_ws_items(ws) =~= enc_ws_item(ws[0]) + enc_ws_items(ws.skip(1)));
    } else {
        lemma_ws_items_front(front);
        assert(front.skip(1) =~= ws.skip(1).drop_last());
        assert(ws.skip(1).last() == ws.last());
        assert(front[0] == ws[0]);
        assert(enc_ws_items(ws) =~= enc_ws_item(ws[0]) + enc_ws_items(ws.skip(1)));
    }
}

/// A written working set is read back behind the entries that were read
/// before.
pub proof fn lemma_ws_items(ws: Seq<Option<u128>>, tail: Seq<char>, acc: Seq<Option<u128>>)
    ensures
        read_ws(enc_ws_items(ws) + tail, ws.len(), acc) == Some((acc + ws, tail)),
    decreases ws.len(),
{
    if ws.len() == 0 {
        assert(enc_ws_items(ws) + tail =~= tail);
        assert(acc + ws =~= acc);
    } else {
        let rest = ws.skip(1);
        lemma_ws_items_front(ws);
        let s1 = enc_ws_items(rest) + tail;
        assert(enc_ws_items(ws) + tail =~= enc_ws_item(ws[0]) + s1);
        lemma_ws_item(ws[0], s1);
        lemma_ws_items(rest, tail, acc.push(ws[0]));
        assert(acc.push(ws[0]) + rest =~= acc + ws);
    }
}

/// What a written storage holds: the tasks, the log, the working set and
/// the base version, with nothing behind them; or nothing where the text is
/// not the written form of a storage.
pub open spec fn decode_db(s: Seq<char>) -> Option<Db> {
    match rows_field(s) {
        Some((rows, s1)) => match ops_field(s1) {
            Some((operations, s2)) => match ws_field(s2) {
                Some((working_set, s3)) => match bounded(s3, u128::MAX as nat) {
                    Some((base, s4)) => if s4.len() == 0 && working_set.len() >= 1
                        && working_set[0] is None {
                        Some(
                            Db {
                                tasks: map_of(rows),
                                order: ids_of(rows),
                                operations,
                                working_set,
                                base_version: base as u128,
                            },
                        )
                    } else {
                        None
                    },
                    None => None,
                },
                None => None,
            },
            None => None,
        },
        None => None,
    }
}

/// The written form of a storage: its rows, its log, its working set and
/// its base version, each list with the number of its items before it.
pub open spec fn enc_db(
    rows: Seq<(u128, TaskMap)>,
    ops: Seq<Operation>,
    ws: Seq<Option<u128>>,
    base: u128,
) -> Seq<char> {
    (enc_number(rows.len()) + enc_row_items(rows)) + (enc_number(ops.len()) + enc_op_items(ops))
        + (enc_number(ws.len()) + enc_ws_items(ws)) + enc_number(base as nat)
}

/// A written storage is read back.
pub proof fn lemma_db(
    rows: Seq<(u128, TaskMap)>,
    ops: Seq<Operation>,
    ws: Seq<Option<u128>>,
    base: u128,
)
    requires
        forall|i: int| 0 <= i < rows.len() ==> (#[trigger] rows[i]).1.wf(),
        distinct_keys(rows_view(rows)),
        log_wf(ops),
        ws.len() >= 1,
        ws[0] is None,
        rows.len() <= u128::MAX,
        ops.len() <= u128::MAX,
        ws.len() <= u128::MAX,
    ensures
        decode_db(enc_db(rows, ops, ws, base)) == Some(
            Db {
                tasks: map_of(rows_view(rows)),
                order: ids_of(rows_view(rows)),
                operations: log_view(ops),
                working_set: ws,
                base_version: base,
            },
        ),
{
    let s4 = Seq::<char>::empty();
    let s3 = enc_number(base as nat) + s4;
    let s2b = enc_ws_items(ws) + s3;
    let s2 = enc_number(ws.len()) + s2b;
    let s1b = enc_op_items(ops) + s2;
    let s1 = enc_number(ops.len()) + s1b;
    let s0b = enc_row_items(rows) + s1;
    let s0 = enc_number(rows.len()) + s0b;
    assert(enc_db(rows, ops, ws, base) =~= s0);
    assert(rows_field(s0) == Some((rows_view(rows), s1))) by {
        lemma_number(rows.len(), s0b);
        assert(Seq::<Row>::empty() + rows_view(rows) =~= rows_view(rows));
        lemma_row_items(rows, s1, Seq::empty());
    }
    assert(ops_field(s1) == Some((log_view(ops), s2))) by {
        lemma_number(ops.len(), s1b);
        lemma_op_items(ops, s2, Seq::empty());
        assert(Seq::<Op>::empty() + log_view(ops) =~= log_view(ops));
    }
    assert(ws_field(s2) == Some((ws, s3))) by {
        lemma_number(ws.len(), s2b);
        lemma_ws_items(ws, s3, Seq::empty());
        assert(Seq::<Option<u128>>::empty() + ws =~= ws);
    }
    assert(bounded(s3, u128::MAX as nat) == Some((base as nat, s4))) by {
        lemma_number(base as nat, s4);
    }
}

/// The rows that stand for the tasks of a storage in their order give its
/// tasks and its order.
pub proof fn lemma_rows_of(rows: Seq<Row>, db: Db)
    requires
        db_wf(db),
        rows.len() == db.order.len(),
        forall|i: int|
            0 <= i < rows.len() ==> (#[trigger] rows[i]).0 == db.order[i] && rows[i].1
                == db.tasks[db.order[i]],
    ensures
        distinct_keys(rows),
        map_of(rows) == db.tasks,
        ids_of(rows) == db.order,
{
    assert(ids_of(rows) =~= db.order);
    assert forall|i: int, j: int| 0 <= i < j < rows.len() implies (#[trigger] rows[i]).0 != (
    #[trigger] rows[j]).0 by {
        assert(db.order[i] != db.order[j]);
    }
    assert forall|u: u128| map_of(rows).contains_key(u) <==> db.tasks.contains_key(u) by {
        if has_key(rows, u) {
            let i = key_index(rows, u);
            assert(db.order[i] == u);
            assert(db.order.contains(u));
        }
        if db.tasks.contains_key(u) {
            assert(db.order.contains(u));
            let i = choose|i: int| 0 <= i < db.order.len() && db.order[i] == u;
            assert(rows[i].0 == u);
        }
    }
    assert forall|u: u128| map_of(rows).contains_key(u) implies #[trigger] map_of(rows)[u]
        == db.tasks[u] by {
        let i = key_index(rows, u);
        lemma_map_of_index(rows, i);
    }
    assert(map_of(rows) =~= db.tasks);
}

/// Writes a storage: what it holds now.
pub fn encode(storage: &InMemoryStorage) -> (r: Vec<char>)
    requires
        storage.wf(),
    ensures
        decode_db(r@) == Some(storage.current()),
{
    let ghost db = storage.current();
    proof {
        storage.lemma_wf();
    }
    let mut buf: Vec<char> = Vec::new();
    let n = storage.num_tasks();
    write_number(&mut buf, n as u128);
    let ghost mut rows: Seq<(u128, TaskMap)> = Seq::empty();
    let mut i: usize = 0;
    proof {
        assert(buf@ =~= enc_number(n as nat) + enc_row_items(rows));
    }
    while i < n
        invariant
            storage.wf(),
            db == storage.current(),
            n == db.order.len(),
            i <= n,
            rows.len() == i,
            buf@ == enc_number(n as nat) + enc_row_items(rows),
            forall|j: int|
                0 <= j < i ==> (#[trigger] rows[j]).1.wf() && rows[j].0 == db.order[j]
                    && rows[j].1@ == db.tasks[db.order[j]],
        decreases n - i,
    {
        let uuid = storage.task_uuid_at(i);
        let taskmap = storage.task_at(i);
        write_number(&mut buf, uuid);
        write_pairs(&mut buf, taskmap);
        proof {
            let next = rows.push((uuid, *taskmap));
            assert(next.drop_last() =~= rows);
            assert(buf@ =~= enc_number(n as nat) + enc_row_items(next));
            rows = next;
        }
        i = i + 1;
    }
    let ghost rows_text = buf@;
    let m = storage.num_operations();
    write_number(&mut buf, m as u128);
    let ghost mut ops: Seq<Operation> = Seq::empty();
    let mut k: usize = 0;
    proof {
        assert(buf@ =~= rows_text + (enc_number(m as nat) + enc_op_items(ops)));
        assert(log_view(ops) =~= db.operations.take(0));
    }
    while k < m
        invariant
            storage.wf(),
            db == storage.current(),
            m == db.operations.len(),
            k <= m,
            ops.len() == k,
            log_wf(ops),
            log_view(ops) == db.operations.take(k as int),
            buf@ == rows_text + (enc_number(m as nat) + enc_op_items(ops)),
        decreases m - k,
    {
        let op = storage.operation_at(k);
        write_op(&mut buf, op);
        proof {
            let next = ops.push(*op);
            assert(next.drop_last() =~= ops);
            assert(buf@ =~= rows_text + (enc_number(m as nat) + enc_op_items(next)));
            assert(log_view(next) =~= db.operations.take(k + 1));
            ops = next;
        }
        k = k + 1;
    }
    let ghost ops_text = buf@;
    let w = storage.working_set_len();
    write_number(&mut buf, w as u128);
    let mut j: usize = 0;
    proof {
        assert(db.working_set.take(0) =~= Seq::<Option<u128>>::empty());
        assert(buf@ =~= ops_text + (enc_number(w as nat) + enc_ws_items(db.working_set.take(0))));
    }
    while j < w
        invariant
            db == storage.current(),
            w == db.working_set.len(),
            j <= w,
            buf@ == ops_text + (enc_number(w as nat) + enc_ws_items(db.working_set.take(j as int))),
        decreases w - j,
    {
        let ghost before = buf@;
        match storage.working_set_item(j) {
            Some(uuid) => {
                buf.push('+');
                write_number(&mut buf, uuid);
                proof {
                    assert(buf@ =~= before + enc_ws_item(Some(uuid)));
                }
            },
            None => {
                buf.push('-');
                proof {
                    assert(buf@ =~= before + enc_ws_item(None));
                }
            },
        }
        proof {
            let ws = db.working_set;
            assert(ws.take(j + 1).drop_last() =~= ws.take(j as int));
            assert(ws.take(j + 1).last() == ws[j as int]);
            assert(buf@ =~= ops_text + (enc_number(w as nat) + enc_ws_items(ws.take(j + 1))));
        }
        j = j + 1;
    }
    write_number(&mut buf, storage.base_version());
    proof {
        let ws = db.working_set;
        assert(ws.take(w as int) =~= ws);
        assert(db.operations.take(m as int) =~= db.operations);
        assert(buf@ =~= enc_db(rows, ops, ws, db.base_version));
        let spec_rows = rows_view(rows);
        assert forall|x: int| 0 <= x < spec_rows.len() implies (#[trigger] spec_rows[x]).0
            == db.order[x] && spec_rows[x].1 == db.tasks[db.order[x]] by {
            assert(rows[x].1.wf());
        }
        lemma_rows_of(spec_rows, db);
        lemma_db(rows, ops, ws, db.base_version);
    }
    buf
}

/// Reads a storage. The storage that is read holds what the text says, and
/// no transaction is open in it.
pub fn decode(text: &Vec<char>) -> (r: Option<InMemoryStorage>)
    ensures
        match r {
            Some(storage) => storage.wf() && !storage.in_txn() && decode_db(text@) == Some(
                storage.current(),
            ),
            None => decode_db(text@) is None,
        },
{
    let ghost s = text@;
    proof {
        assert(text@.skip(0) =~= s);
    }
    let mut storage = InMemoryStorage::new();
    storage.begin();
    let (n, start) = match read_number_at(text, 0) {
        Some(found) => found,
        None => {
            return None;
        },
    };
    let ghost mut rows: Seq<Row> = Seq::empty();
    let mut p: usize = start;
    let mut i: u128 = 0;
    proof {
        assert(map_of(rows) =~= storage.current().tasks);
        assert(ids_of(rows) =~= storage.current().order);
    }
    while i < n
        invariant
            s == text@,
            p <= text@.len(),
            i <= n,
            storage.wf(),
            storage.in_txn(),
            distinct_keys(rows),
            map_of(rows) == storage.current().tasks,
            ids_of(rows) == storage.current().order,
            storage.current().operations == Seq::<Op>::empty(),
            rows_field(s) == read_rows(text@.skip(p as int), (n - i) as nat, rows),
        decreases n - i,
    {
        let (uuid, after_uuid) = match read_number_at(text, p) {
            Some(found) => found,
            None => {
                return None;
            },
        };
        if storage.has_task(uuid) {
            return None;
        }
        let (taskmap, after_bag) = match read_pairs_at(text, after_uuid) {
            Some(found) => found,
            None => {
                return None;
            },
        };
        proof {
            lemma_map_of_push(rows, uuid, taskmap@);
            let next = rows.push((uuid, taskmap@));
            assert(ids_of(next) =~= ids_of(rows).push(uuid));
            rows = next;
        }
        storage.set_task(uuid, taskmap);
        p = after_bag;
        i = i + 1;
    }
    let ghost s1 = text@.skip(p as int);
    let (m, ops_start) = match read_number_at(text, p) {
        Some(found) => found,
        None => {
            return None;
        },
    };
    p = ops_start;
    let mut k: u128 = 0;
    while k < m
        invariant
            s == text@,
            p <= text@.len(),
            k <= m,
            storage.wf(),
            storage.in_txn(),
            map_of(rows) == storage.current().tasks,
            ids_of(rows) == storage.current().order,
            rows_field(s) == Some((rows, s1)),
            ops_field(s1) == read_ops(
                text@.skip(p as int),
                (m - k) as nat,
                storage.current().operations,
            ),
        decreases m - k,
    {
        let (op, next) = match read_op_at(text, p) {
            Some(found) => found,
            None => {
                return None;
            },
        };
        storage.add_operation(op);
        p = next;
        k = k + 1;
    }
    let ghost s2 = text@.skip(p as int);
    let (w, ws_start) = match read_number_at(text, p) {
        Some(found) => found,
        None => {
            return None;
        },
    };
    p = ws_start;
    let mut working_set: Vec<Option<u128>> = Vec::new();
    let mut j: u128 = 0;
    while j < w
        invariant
            s == text@,
            p <= text@.len(),
            j <= w,
            rows_field(s) == Some((rows, s1)),
            ops_field(s1) == Some((storage.current().operations, s2)),
            ws_field(s2) == read_ws(text@.skip(p as int), (w - j) as nat, working_set@),
        decreases w - j,
    {
        if p >= text.len() {
            return None;
        }
        let c = text[p];
        proof {
            assert(text@.skip(p as int)[0] == c);
            assert(text@.skip(p as int).skip(1) =~= text@.skip(p + 1));
        }
        if c == '-' {
            working_set.push(None);
            p = p + 1;
        } else if c == '+' {
            let (uuid, next) = match read_number_at(text, p + 1) {
                Some(found) => found,
                None => {
                    return None;
                },
            };
            working_set.push(Some(uuid));
            p = next;
        } else {
            return None;
        }
        j = j + 1;
    }
    let (base, end) = match read_number_at(text, p) {
        Some(found) => found,
        None => {
            return None;
        },
    };
    if end != text.len() {
        return None;
    }
    if working_set.len() == 0 {
        return None;
    }
    if working_set[0].is_some() {
        return None;
    }
    storage.set_working_set(working_set);
    storage.set_base_version(base);
    storage.commit();
    Some(storage)
}

} // verus!
