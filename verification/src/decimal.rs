//! Decimal digits: the numbers that the format writes as ASCII text.

use vstd::prelude::*;

verus! {

/// The ASCII digit `0`.
pub const ZERO: u8 = 48;

/// The ASCII digit `9`.
pub const NINE: u8 = 57;

/// The ASCII sign `-`.
pub const MINUS: u8 = 45;

/// An ASCII digit, `0` to `9`.
pub open spec fn is_digit(b: u8) -> bool {
    ZERO <= b <= NINE
}

/// The number that a run of ASCII digits writes in base ten. Leading zeros
/// count for nothing and the empty run is 0.
pub open spec fn digits_value(s: Seq<u8>) -> nat
    decreases s.len(),
{
    if s.len() == 0 {
        0
    } else {
        digits_value(s.drop_last()) * 10 + (s.last() - ZERO) as nat
    }
}

/// How many ASCII digits stand at the front of `s`.
pub open spec fn digit_run(s: Seq<u8>) -> nat
    decreases s.len(),
{
    if s.len() > 0 && is_digit(s[0]) {
        1 + digit_run(s.skip(1))
    } else {
        0
    }
}

/// `n` written in base ten with ASCII digits and without leading zeros; 0 is
/// the single digit `0`.
pub open spec fn decimal(n: nat) -> Seq<u8>
    decreases n,
{
    if n < 10 {
        seq![(ZERO + n) as u8]
    } else {
        decimal(n / 10).push((ZERO + n % 10) as u8)
    }
}

/// `i` written in base ten, with `-` in front of a negative number.
pub open spec fn int_text(i: int) -> Seq<u8> {
    if i < 0 {
        seq![MINUS] + decimal((-i) as nat)
    } else {
        decimal(i as nat)
    }
}

/// The digits at the front of `s` are digits, and what follows them is none.
pub proof fn lemma_digit_run_bounds(s: Seq<u8>)
    ensures
        digit_run(s) <= s.len(),
        forall|j: int| 0 <= j < digit_run(s) ==> is_digit(#[trigger] s[j]),
        digit_run(s) < s.len() ==> !is_digit(s[digit_run(s) as int]),
    decreases s.len(),
{
    if s.len() > 0 && is_digit(s[0]) {
        let t = s.skip(1);
        lemma_digit_run_bounds(t);
        assert forall|j: int| 0 <= j < digit_run(s) implies is_digit(#[trigger] s[j]) by {
            if j > 0 {
                assert(s[j] == t[j - 1]);
            }
        }
        if digit_run(s) < s.len() {
            assert(s[digit_run(s) as int] == t[digit_run(t) as int]);
        }
    }
}

/// A count of leading digits that stops at the end or at a byte that is no
/// digit is the digit run.
pub proof fn lemma_digit_run_unique(s: Seq<u8>, k: int)
    requires
        0 <= k <= s.len(),
        forall|j: int| 0 <= j < k ==> is_digit(#[trigger] s[j]),
        k < s.len() ==> !is_digit(s[k]),
    ensures
        digit_run(s) == k,
    decreases s.len(),
{
    if k > 0 {
        let t = s.skip(1);
        assert(is_digit(s[0]));
        assert forall|j: int| 0 <= j < k - 1 implies is_digit(#[trigger] t[j]) by {
            assert(t[j] == s[j + 1]);
        }
        lemma_digit_run_unique(t, k - 1);
    }
}

/// More digits never write a smaller number.
pub proof fn lemma_value_grows(s: Seq<u8>, k: int)
    requires
        0 <= k <= s.len(),
    ensures
        digits_value(s.take(k)) <= digits_value(s),
    decreases s.len() - k,
{
    if k < s.len() {
        lemma_value_grows(s, k + 1);
        assert(s.take(k + 1).drop_last() =~= s.take(k));
    } else {
        assert(s.take(k) =~= s);
    }
}

/// `decimal` writes digits only, at least one, and starts with `0` only when
/// it writes 0.
pub proof fn lemma_decimal_digits(n: nat)
    ensures
        decimal(n).len() >= 1,
        forall|j: int| 0 <= j < decimal(n).len() ==> is_digit(#[trigger] decimal(n)[j]),
        decimal(n)[0] == ZERO <==> n == 0,
        n == 0 ==> decimal(n).len() == 1,
    decreases n,
{
    if n >= 10 {
        lemma_decimal_digits(n / 10);
    }
}

/// Reading back what `decimal` wrote gives the number again.
pub proof fn lemma_decimal_value(n: nat)
    ensures
        digits_value(decimal(n)) == n,
    decreases n,
{
    if n < 10 {
        assert(decimal(n).drop_last() =~= Seq::<u8>::empty());
        assert(digits_value(decimal(n).drop_last()) == 0);
    } else {
        lemma_decimal_value(n / 10);
        assert(decimal(n).drop_last() =~= decimal(n / 10));
    }
}

/// Digits that do not start with `0` write a number that is not 0.
pub proof fn lemma_value_positive(t: Seq<u8>)
    requires
        t.len() >= 1,
        forall|j: int| 0 <= j < t.len() ==> is_digit(#[trigger] t[j]),
        t[0] != ZERO,
    ensures
        digits_value(t) >= 1,
    decreases t.len(),
{
    if t.len() > 1 {
        let front = t.drop_last();
        assert forall|j: int| 0 <= j < front.len() implies is_digit(#[trigger] front[j]) by {
            assert(front[j] == t[j]);
        }
        lemma_value_positive(front);
    } else {
        assert(digits_value(t.drop_last()) == 0);
    }
}

/// Digits without leading zeros are just what `decimal` writes for their
/// number.
pub proof fn lemma_decimal_of_value(t: Seq<u8>)
    requires
        t.len() >= 1,
        forall|j: int| 0 <= j < t.len() ==> is_digit(#[trigger] t[j]),
        t.len() == 1 || t[0] != ZERO,
    ensures
        decimal(digits_value(t)) == t,
    decreases t.len(),
{
    let front = t.drop_last();
    assert(is_digit(t[t.len() - 1]));
    if t.len() == 1 {
        assert(digits_value(front) == 0);
        assert(decimal(digits_value(t)) =~= t);
    } else {
        assert forall|j: int| 0 <= j < front.len() implies is_digit(#[trigger] front[j]) by {
            assert(front[j] == t[j]);
        }
        assert(front[0] == t[0]);
        lemma_value_positive(front);
        lemma_decimal_of_value(front);
        let n = digits_value(t);
        assert(n / 10 == digits_value(front));
        assert(n % 10 == t.last() - ZERO);
        assert(decimal(n) =~= t);
    }
}

/// Where the digits of `src` from `pos` on end.
pub fn scan_digits(src: &Vec<u8>, pos: usize) -> (end: usize)
    requires
        pos <= src.len(),
    ensures
        pos <= end <= src.len(),
        end - pos == digit_run(src@.skip(pos as int)),
        forall|j: int| pos <= j < end ==> is_digit(#[trigger] src@[j]),
        end < src.len() ==> !is_digit(src@[end as int]),
{
    let mut end: usize = pos;
    while end < src.len() && src[end] >= ZERO && src[end] <= NINE
        invariant
            pos <= end <= src.len(),
            forall|j: int| pos <= j < end ==> is_digit(#[trigger] src@[j]),
        decreases src.len() - end,
    {
        end += 1;
    }
    proof {
        let t = src@.skip(pos as int);
        assert forall|j: int| 0 <= j < end - pos implies is_digit(#[trigger] t[j]) by {
            assert(t[j] == src@[pos + j]);
        }
        lemma_digit_run_unique(t, end - pos);
    }
    end
}

/// The number written by the digits of `src` from `start` up to `end`, unless
/// it is greater than `cap`.
pub fn read_digits(src: &Vec<u8>, start: usize, end: usize, cap: u64) -> (r: Option<u64>)
    requires
        start <= end <= src.len(),
        forall|j: int| start <= j < end ==> is_digit(#[trigger] src@[j]),
    ensures
        match r {
            Some(n) => n == digits_value(src@.subrange(start as int, end as int)) && n <= cap,
            None => digits_value(src@.subrange(start as int, end as int)) > cap,
        },
{
    let ghost s = src@.subrange(start as int, end as int);
    let mut acc: u64 = 0;
    let mut i: usize = start;
    proof {
        assert(s.take(0) =~= Seq::<u8>::empty());
    }
    while i < end
        invariant
            start <= i <= end <= src.len(),
            s == src@.subrange(start as int, end as int),
            acc == digits_value(s.take(i - start)),
            acc <= cap,
            forall|j: int| start <= j < end ==> is_digit(#[trigger] src@[j]),
        decreases end - i,
    {
        let d: u8 = src[i] - ZERO;
        let next: u128 = acc as u128 * 10 + d as u128;
        proof {
            let t = s.take(i - start + 1);
            assert(t.drop_last() =~= s.take(i - start));
            assert(t.last() == src@[i as int]);
            assert(next == digits_value(t));
        }
        i += 1;
        if next > cap as u128 {
            proof {
                lemma_value_grows(s, i - start);
            }
            return None;
        }
        acc = next as u64;
    }
    proof {
        assert(s.take(end - start) =~= s);
    }
    Some(acc)
}

/// Appends `n`, written in base ten, to `out`.
pub fn write_decimal(n: u64, out: &mut Vec<u8>)
    ensures
        final(out)@ == old(out)@ + decimal(n as nat),
    decreases n,
{
    if n >= 10 {
        write_decimal(n / 10, out);
    }
    out.push(ZERO + (n % 10) as u8);
    assert(out@ =~= old(out)@ + decimal(n as nat));
}

} // verus!
