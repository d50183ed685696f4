//! Natural numbers in decimal notation, as the persisted index writes them:
//! without a sign, and without leading zeros.

use vstd::prelude::*;
use crate::lexer::{lemma_run_bounds, lemma_run_is, run};

verus! {

/// Whether `c` is one of the digits `0` to `9`.
pub open spec fn is_digit(c: char) -> bool {
    '0' <= c && c <= '9'
}

/// The value of the digit `c`.
pub open spec fn digit_value(c: char) -> nat {
    (c as int - 48) as nat
}

/// The digit of the value `d`, which is less than ten.
pub open spec fn digit_char(d: nat) -> char {
    (d + 48) as u8 as char
}

/// The number that the digits `digits` denote.
pub open spec fn value_of(digits: Seq<char>) -> nat
    decreases digits.len(),
{
    if digits.len() == 0 {
        0
    } else {
        value_of(digits.drop_last()) * 10 + digit_value(digits.last())
    }
}

/// The decimal notation of `n`.
pub open spec fn digits(n: nat) -> Seq<char>
    decreases n,
{
    if n < 10 {
        seq![digit_char(n)]
    } else {
        digits(n / 10).push(digit_char(n % 10))
    }
}

/// Whether `digits` is the decimal notation of a number: at least one digit,
/// nothing but digits, and no leading zero but for zero itself.
pub open spec fn canonical(digits: Seq<char>) -> bool {
    &&& digits.len() >= 1
    &&& forall|i: int| 0 <= i < digits.len() ==> is_digit(#[trigger] digits[i])
    &&& digits.len() > 1 ==> digits[0] != '0'
}

/// The number at the start of `s`, no more than `max`, with what follows it:
/// the longest run of digits there, if it is the notation of such a number.
pub open spec fn parse_nat(s: Seq<char>, max: nat) -> Option<(nat, Seq<char>)> {
    let k = run(s, |c: char| is_digit(c)) as int;
    if canonical(s.take(k)) && value_of(s.take(k)) <= max {
        Some((value_of(s.take(k)), s.skip(k)))
    } else {
        None
    }
}

/// The notation of a number is canonical and denotes that number.
pub proof fn lemma_digits(n: nat)
    ensures
        canonical(digits(n)),
        value_of(digits(n)) == n,
    decreases n,
{
    if n < 10 {
        assert(digits(n).drop_last() =~= Seq::<char>::empty());
        assert(value_of(digits(n).drop_last()) == 0);
    } else {
        lemma_digits(n / 10);
        let front = digits(n / 10);
        assert(digits(n).drop_last() =~= front);
        assert(digits(n)[0] == front[0]);
        if front.len() == 1 {
            assert(value_of(front.drop_last()) == 0);
        }
    }
}

/// A canonical run of digits with more than one digit denotes at least ten,
/// and one that does not start with zero denotes at least one.
pub proof fn lemma_value_lower(d: Seq<char>)
    requires
        canonical(d),
    ensures
        d.len() > 1 ==> value_of(d) >= 10,
        d[0] != '0' ==> value_of(d) >= 1,
    decreases d.len(),
{
    let front = d.drop_last();
    if d.len() > 1 {
        assert(front[0] == d[0]);
        assert forall|i: int| 0 <= i < front.len() implies is_digit(#[trigger] front[i]) by {
            assert(front[i] == d[i]);
        }
        lemma_value_lower(front);
    } else {
        assert(value_of(front) == 0);
    }
}

/// A canonical run of digits is the notation of the number that it denotes.
pub proof fn lemma_value_digits(d: Seq<char>)
    requires
        canonical(d),
    ensures
        digits(value_of(d)) == d,
    decreases d.len(),
{
    let front = d.drop_last();
    if d.len() == 1 {
        assert(value_of(front) == 0);
        assert(digits(value_of(d)) =~= d);
    } else {
        assert(front[0] == d[0]);
        assert forall|i: int| 0 <= i < front.len() implies is_digit(#[trigger] front[i]) by {
            assert(front[i] == d[i]);
        }
        lemma_value_lower(front);
        lemma_value_digits(front);
        let v = value_of(d);
        assert(v / 10 == value_of(front));
        assert(v % 10 == digit_value(d.last()));
        assert(digits(v) =~= d);
    }
}

/// The digits up to a place denote no more than the digits up to a later one.
pub proof fn lemma_value_monotone(d: Seq<char>, j: int)
    requires
        0 <= j <= d.len(),
    ensures
        value_of(d.take(j)) <= value_of(d),
    decreases d.len() - j,
{
    if j < d.len() {
        lemma_value_monotone(d, j + 1);
        assert(d.take(j + 1).drop_last() =~= d.take(j));
    } else {
        assert(d.take(j) =~= d);
    }
}

/// The notation of `n`, followed by something that does not start with a
/// digit, reads as `n`.
pub proof fn lemma_parse_nat_complete(n: nat, rest: Seq<char>, max: nat)
    requires
        n <= max,
        rest.len() > 0 ==> !is_digit(rest[0]),
    ensures
        parse_nat(digits(n) + rest, max) == Some((n, rest)),
{
    let s = digits(n) + rest;
    let k = digits(n).len();
    lemma_digits(n);
    assert forall|i: int| 0 <= i < k implies is_digit(#[trigger] s[i]) by {
        assert(s[i] == digits(n)[i]);
    }
    if k < s.len() {
        assert(s[k as int] == rest[0]);
    }
    lemma_run_is(s, |c: char| is_digit(c), k);
    assert(s.take(k as int) =~= digits(n));
    assert(s.skip(k as int) =~= rest);
}

/// What reads as a number starts with the notation of that number, and what
/// follows it does not start with a digit.
pub proof fn lemma_parse_nat_sound(s: Seq<char>, max: nat)
    requires
        parse_nat(s, max) is Some,
    ensures
        ({
            let (n, rest) = parse_nat(s, max).unwrap();
            &&& n <= max
            &&& s == digits(n) + rest
            &&& rest.len() < s.len()
            &&& rest.len() > 0 ==> !is_digit(rest[0])
        }),
{
    let k = run(s, |c: char| is_digit(c)) as int;
    lemma_run_bounds(s, |c: char| is_digit(c));
    lemma_value_digits(s.take(k));
    assert(s =~= s.take(k) + s.skip(k));
    if k < s.len() {
        assert(s.skip(k)[0] == s[k]);
    }
}

/// Appends the decimal notation of `n` to `out`.
pub fn write_number(out: &mut Vec<char>, n: usize)
    ensures
        final(out)@ == old(out)@ + digits(n as nat),
    decreases n,
{
    if n >= 10 {
        write_number(out, n / 10);
    }
    let d: u8 = (n % 10) as u8;
    out.push((d + 48) as char);
    proof {
        if n < 10 {
            assert(out@ =~= old(out)@ + digits(n as nat));
        } else {
            assert(out@ =~= old(out)@ + digits(n as nat));
        }
    }
}

/// Reads the number at place `pos` of `text`: its value and the place after
/// it, or `None` where no number that fits the machine is written there.
pub fn read_number(text: &[char], pos: usize) -> (result: Option<(usize, usize)>)
    requires
        pos <= text@.len(),
    ensures
        match result {
            Some((n, next)) => pos < next <= text@.len() && parse_nat(
                text@.skip(pos as int),
                usize::MAX as nat,
            ) == Some((n as nat, text@.skip(next as int))),
            None => parse_nat(text@.skip(pos as int), usize::MAX as nat) is None,
        },
{
    let ghost s = text@.skip(pos as int);
    let mut end: usize = pos;
    let mut more: bool = true;
    while more && end < text.len()
        invariant
            pos <= end <= text@.len(),
            s == text@.skip(pos as int),
            forall|i: int| 0 <= i < end - pos ==> is_digit(#[trigger] s[i]),
            !more ==> end < text@.len() && !is_digit(s[end - pos]),
        decreases text@.len() - end, if more { 1int } else { 0int },
    {
        let c = text[end];
        assert(s[end - pos] == c);
        if '0' <= c && c <= '9' {
            end += 1;
        } else {
            more = false;
        }
    }
    proof {
        lemma_run_is(s, |c: char| is_digit(c), (end - pos) as nat);
    }
    let ghost run_digits = s.take(end - pos);
    if end == pos {
        return None;
    }
    if text[pos] == '0' && end - pos > 1 {
        assert(run_digits[0] == '0');
        return None;
    }
    assert(canonical(run_digits)) by {
        assert(run_digits[0] == s[0] && s[0] == text@[pos as int]);
    }
    let mut value: usize = 0;
    let mut i: usize = pos;
    proof {
        assert(run_digits.take(0) =~= Seq::<char>::empty());
    }
    while i < end
        invariant
            pos <= i <= end <= text@.len(),
            s == text@.skip(pos as int),
            run_digits == s.take(end - pos),
            run(s, |c: char| is_digit(c)) == end - pos,
            forall|k: int| 0 <= k < end - pos ==> is_digit(#[trigger] s[k]),
            value == value_of(run_digits.take(i - pos)),
        decreases end - i,
    {
        let c = text[i];
        assert(s[i - pos] == c);
        assert(run_digits[i - pos] == c);
        let d: usize = (c as u32 - 48) as usize;
        proof {
            assert(run_digits.take(i + 1 - pos).drop_last() =~= run_digits.take(i - pos));
            assert(run_digits.take(i + 1 - pos).last() == c);
            lemma_value_monotone(run_digits, i + 1 - pos);
        }
        if value > (usize::MAX - d) / 10 {
            proof {
                let longer = run_digits.take(i + 1 - pos);
                assert(value_of(longer) == value * 10 + d);
                assert(value * 10 + d > usize::MAX);
            }
            return None;
        }
        value = value * 10 + d;
        i += 1;
    }
    proof {
        assert(run_digits.take(end - pos) =~= run_digits);
        assert(s.skip(end - pos) =~= text@.skip(end as int));
    }
    Some((value, end))
}

} // verus!
