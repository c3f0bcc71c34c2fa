//! Digit strings and the numbers they stand for.
//!
//! Both sides of the transform are strings of digits, most significant
//! first: bytes are digits in base 256, symbol values are digits in base 32.
//! A string is two things at once: a number, and a count of zero digits in
//! front of it. The transform keeps both.

use vstd::arithmetic::div_mod::{
    lemma_div_decreases, lemma_div_is_ordered, lemma_div_is_ordered_by_denominator,
    lemma_div_pos_is_pos, lemma_fundamental_div_mod, lemma_fundamental_div_mod_converse,
    lemma_mod_bound,
};
use vstd::arithmetic::power::{pow, lemma_pow_increases, lemma_pow_multiplies};
use vstd::prelude::*;

verus! {

/// Every digit is below the base.
pub open spec fn in_base(digits: Seq<u8>, base: nat) -> bool {
    forall|i: int| 0 <= i < digits.len() ==> (#[trigger] digits[i] as nat) < base
}

/// The number that a digit string stands for, most significant digit first.
pub open spec fn value_of(digits: Seq<u8>, base: nat) -> nat
    decreases digits.len(),
{
    if digits.len() == 0 {
        0
    } else {
        value_of(digits.drop_last(), base) * base + digits.last() as nat
    }
}

/// The shortest digit string that stands for `n`: no zero in front, and
/// no digit at all for zero.
pub open spec fn digits_of(n: nat, base: nat) -> Seq<u8>
    recommends
        2 <= base <= 256,
    decreases n,
    via digits_of_terminates
{
    if n == 0 || base < 2 {
        Seq::empty()
    } else {
        digits_of(n / base, base).push((n % base) as u8)
    }
}

#[via_fn]
proof fn digits_of_terminates(n: nat, base: nat) {
    if n != 0 && base >= 2 {
        lemma_div_decreases(n as int, base as int);
        lemma_div_pos_is_pos(n as int, base as int);
    }
}

/// How many zero digits stand in front.
pub open spec fn leading_zeros(digits: Seq<u8>) -> nat
    decreases digits.len(),
{
    if digits.len() > 0 && digits[0] == 0 {
        1 + leading_zeros(digits.drop_first())
    } else {
        0
    }
}

/// `count` zero digits.
pub open spec fn zeros(count: nat) -> Seq<u8> {
    Seq::new(count, |i: int| 0u8)
}

/// The string is empty or starts with a digit other than zero.
pub open spec fn no_leading_zero(digits: Seq<u8>) -> bool {
    digits.len() == 0 || digits[0] != 0
}

/// The same string in another base: as many zero digits in front as
/// before, then the shortest string for the same number.
pub open spec fn rebase(digits: Seq<u8>, from: nat, to: nat) -> Seq<u8>
    recommends
        2 <= to <= 256,
{
    zeros(leading_zeros(digits)) + digits_of(value_of(digits, from), to)
}

/// One more power: `pow(b, e + 1)` is `b * pow(b, e)`.
pub proof fn lemma_pow_next(b: int, e: nat)
    ensures
        pow(b, e + 1) == b * pow(b, e),
{
    reveal(pow);
}

/// A digit appended at the end shifts the value up by one place.
pub proof fn lemma_value_of_push(digits: Seq<u8>, last: u8, base: nat)
    ensures
        value_of(digits.push(last), base) == value_of(digits, base) * base + last as nat,
{
    assert(digits.push(last).drop_last() =~= digits);
}

/// A digit put in front counts with the weight of its place.
pub proof fn lemma_value_of_prepend(first: u8, rest: Seq<u8>, base: nat)
    ensures
        value_of(seq![first] + rest, base) == first as nat * pow(base as int, rest.len())
            + value_of(rest, base),
    decreases rest.len(),
{
    reveal(pow);
    let whole = seq![first] + rest;
    if rest.len() == 0 {
        assert(whole.drop_last() =~= Seq::<u8>::empty());
        assert(value_of(whole.drop_last(), base) * base == 0) by (nonlinear_arith)
            requires
                value_of(whole.drop_last(), base) == 0,
        ;
    } else {
        assert(whole.drop_last() =~= seq![first] + rest.drop_last());
        lemma_value_of_prepend(first, rest.drop_last(), base);
        let w = pow(base as int, (rest.len() - 1) as nat);
        let f = first as int;
        let b = base as int;
        let v = value_of(rest.drop_last(), base) as int;
        assert(pow(b, rest.len()) == b * w);
        assert((f * w + v) * b == f * (b * w) + v * b) by (nonlinear_arith);
    }
}

/// Zero digits in front do not change the value.
pub proof fn lemma_value_of_zeros(count: nat, rest: Seq<u8>, base: nat)
    ensures
        value_of(zeros(count) + rest, base) == value_of(rest, base),
    decreases count,
{
    if count == 0 {
        assert(zeros(count) + rest =~= rest);
    } else {
        let inner = zeros((count - 1) as nat) + rest;
        assert(zeros(count) + rest =~= seq![0u8] + inner);
        lemma_value_of_prepend(0u8, inner, base);
        lemma_value_of_zeros((count - 1) as nat, rest, base);
    }
}

/// A zero digit in front can be dropped without changing the value.
pub proof fn lemma_value_of_leading_zero(digits: Seq<u8>, base: nat)
    requires
        digits.len() > 0,
        digits[0] == 0,
    ensures
        value_of(digits.skip(1), base) == value_of(digits, base),
{
    assert(digits =~= zeros(1) + digits.skip(1));
    lemma_value_of_zeros(1, digits.skip(1), base);
}

/// A string of `len` digits stands for a number below `base` to the `len`.
pub proof fn lemma_value_of_bound(digits: Seq<u8>, base: nat)
    requires
        in_base(digits, base),
    ensures
        value_of(digits, base) < pow(base as int, digits.len()),
    decreases digits.len(),
{
    reveal(pow);
    if digits.len() > 0 {
        let init = digits.drop_last();
        lemma_value_of_bound(init, base);
        let w = pow(base as int, init.len());
        let v = value_of(init, base) as int;
        let b = base as int;
        let d = digits.last() as int;
        assert(pow(b, digits.len()) == b * w);
        assert(v * b + d < b * w) by (nonlinear_arith)
            requires
                v < w,
                0 <= d < b,
        ;
    }
}

/// The digits of a number are in the base, start with no zero, and stand
/// for that number.
pub proof fn lemma_digits_of(n: nat, base: nat)
    requires
        2 <= base <= 256,
    ensures
        in_base(digits_of(n, base), base),
        no_leading_zero(digits_of(n, base)),
        value_of(digits_of(n, base), base) == n,
        n == 0 <==> digits_of(n, base).len() == 0,
    decreases n,
{
    if n != 0 {
        lemma_div_decreases(n as int, base as int);
        lemma_div_pos_is_pos(n as int, base as int);
        lemma_mod_bound(n as int, base as int);
        lemma_fundamental_div_mod(n as int, base as int);
        let q = n / base;
        let r = (n % base) as u8;
        lemma_digits_of(q, base);
        lemma_value_of_push(digits_of(q, base), r, base);
        let ds = digits_of(n, base);
        assert(ds == digits_of(q, base).push(r));
        assert(value_of(ds, base) == n) by (nonlinear_arith)
            requires
                value_of(ds, base) == q * base + r as nat,
                n as int == (base as int) * (q as int) + (n as int % base as int),
                r as int == n as int % base as int,
        ;
    }
}

/// Only one string without a leading zero stands for a given number.
pub proof fn lemma_digits_of_value(digits: Seq<u8>, base: nat)
    requires
        2 <= base <= 256,
        in_base(digits, base),
        no_leading_zero(digits),
    ensures
        digits_of(value_of(digits, base), base) == digits,
    decreases digits.len(),
{
    if digits.len() > 0 {
        let init = digits.drop_last();
        let d = digits.last();
        let v = value_of(init, base);
        let n = value_of(digits, base);
        assert(init.len() > 0 ==> init[0] == digits[0]);
        lemma_digits_of_value(init, base);
        lemma_digits_of(v, base);
        assert(v == 0 ==> init.len() == 0);
        assert(n == v * base + d as nat);
        assert(n > 0) by (nonlinear_arith)
            requires
                n == v * base + d as nat,
                base >= 2,
                v > 0 || d > 0,
        ;
        assert(n as int == (v as int) * (base as int) + d as int);
        lemma_fundamental_div_mod_converse(n as int, base as int, v as int, d as int);
        assert(digits_of(n, base) == digits_of(v, base).push(d));
        assert(init.push(d) =~= digits);
    }
}

/// No string has more leading zeros than digits.
proof fn lemma_leading_zeros_bound(digits: Seq<u8>)
    ensures
        leading_zeros(digits) <= digits.len(),
    decreases digits.len(),
{
    if digits.len() > 0 && digits[0] == 0 {
        lemma_leading_zeros_bound(digits.drop_first());
    }
}

/// A string is its leading zeros followed by a string without one.
pub proof fn lemma_leading_zeros(digits: Seq<u8>)
    ensures
        leading_zeros(digits) <= digits.len(),
        digits == zeros(leading_zeros(digits)) + digits.skip(leading_zeros(digits) as int),
        no_leading_zero(digits.skip(leading_zeros(digits) as int)),
        forall|base: nat|
            in_base(digits, base) ==> #[trigger] in_base(
                digits.skip(leading_zeros(digits) as int),
                base,
            ),
    decreases digits.len(),
{
    assert forall|base: nat| in_base(digits, base) implies #[trigger] in_base(
        digits.skip(leading_zeros(digits) as int),
        base,
    ) by {
        lemma_leading_zeros_bound(digits);
        let tail = digits.skip(leading_zeros(digits) as int);
        assert forall|i: int| 0 <= i < tail.len() implies (#[trigger] tail[i] as nat) < base by {
            assert(tail[i] == digits[i + leading_zeros(digits)]);
        }
    }
    if digits.len() > 0 && digits[0] == 0 {
        let rest = digits.drop_first();
        lemma_leading_zeros(rest);
        let k = leading_zeros(rest);
        let tail = digits.skip(k as int + 1);
        assert(rest.skip(k as int) =~= tail);
        let whole = zeros(k + 1) + tail;
        assert forall|i: int| 0 <= i < digits.len() implies digits[i] == whole[i] by {
            if 1 <= i {
                assert(digits[i] == rest[i - 1]);
                assert(rest[i - 1] == (zeros(k) + tail)[i - 1]);
            }
        }
        assert(digits =~= zeros(k + 1) + tail);
    } else {
        assert(digits =~= zeros(0) + digits.skip(0));
    }
}

/// Counting stops at the first digit that is not zero.
pub proof fn lemma_leading_zeros_count(count: nat, rest: Seq<u8>)
    requires
        no_leading_zero(rest),
    ensures
        leading_zeros(zeros(count) + rest) == count,
    decreases count,
{
    let whole = zeros(count) + rest;
    if count == 0 {
        assert(whole =~= rest);
    } else {
        assert(whole[0] == 0);
        assert(whole.drop_first() =~= zeros((count - 1) as nat) + rest);
        lemma_leading_zeros_count((count - 1) as nat, rest);
    }
}

/// A string whose first `count` digits are zero has at least `count`
/// leading zeros, and as many where the next digit is not zero or there is
/// none.
pub proof fn lemma_leading_zeros_prefix(digits: Seq<u8>, count: nat)
    requires
        count <= digits.len(),
        forall|i: int| 0 <= i < count ==> digits[i] == 0,
    ensures
        count <= leading_zeros(digits),
        count == digits.len() || digits[count as int] != 0 ==> leading_zeros(digits) == count,
{
    let tail = digits.skip(count as int);
    assert(digits =~= zeros(count) + tail);
    if count == digits.len() || digits[count as int] != 0 {
        lemma_leading_zeros_count(count, tail);
    } else {
        lemma_leading_zeros(tail);
        let more = leading_zeros(tail);
        let rest = tail.skip(more as int);
        assert(digits =~= zeros(count + more) + rest);
        lemma_leading_zeros_count(count + more, rest);
    }
}

/// The digits of a string that starts with `count` zero digits.
pub proof fn lemma_rebase_parts(count: nat, rest: Seq<u8>, from: nat, to: nat)
    requires
        no_leading_zero(rest),
    ensures
        rebase(zeros(count) + rest, from, to) == zeros(count) + digits_of(
            value_of(rest, from),
            to,
        ),
{
    lemma_leading_zeros_count(count, rest);
    lemma_value_of_zeros(count, rest, from);
}

/// What `rebase` gives is a string in the new base.
pub proof fn lemma_rebase_in_base(digits: Seq<u8>, from: nat, to: nat)
    requires
        2 <= to <= 256,
    ensures
        in_base(rebase(digits, from, to), to),
{
    lemma_digits_of(value_of(digits, from), to);
}

/// Going to another base and back gives the string one started from.
pub proof fn lemma_rebase_round_trip(digits: Seq<u8>, from: nat, to: nat)
    requires
        2 <= from <= 256,
        2 <= to <= 256,
        in_base(digits, from),
    ensures
        rebase(rebase(digits, from, to), to, from) == digits,
{
    let k = leading_zeros(digits);
    let n = value_of(digits, from);
    let tail = digits.skip(k as int);
    lemma_leading_zeros(digits);
    lemma_value_of_zeros(k, tail, from);
    assert(value_of(tail, from) == n);
    lemma_digits_of(n, to);
    lemma_rebase_parts(k, digits_of(n, to), to, from);
    lemma_digits_of_value(tail, from);
}

/// A number below `base` to the `len` has at most `len` digits.
pub proof fn lemma_digits_of_len(n: nat, base: nat, len: nat)
    requires
        2 <= base,
        n < pow(base as int, len),
    ensures
        digits_of(n, base).len() <= len,
    decreases len,
{
    reveal(pow);
    if n != 0 {
        if len == 0 {
            assert(pow(base as int, 0) == 1);
        } else {
            let w = pow(base as int, (len - 1) as nat);
            let b = base as int;
            assert(pow(b, len) == b * w);
            lemma_fundamental_div_mod(n as int, b);
            lemma_mod_bound(n as int, b);
            let q = n as int / b;
            assert(q < w) by (nonlinear_arith)
                requires
                    n as int == b * q + (n as int % b),
                    0 <= n as int % b,
                    (n as int) < b * w,
                    b >= 2,
            ;
            lemma_div_pos_is_pos(n as int, b);
            lemma_digits_of_len(n / base, base, (len - 1) as nat);
        }
    }
}

/// A larger number has no fewer digits.
pub proof fn lemma_digits_of_len_grows(m: nat, n: nat, base: nat)
    requires
        2 <= base,
        m <= n,
    ensures
        digits_of(m, base).len() <= digits_of(n, base).len(),
    decreases n,
{
    if m != 0 {
        lemma_div_decreases(n as int, base as int);
        lemma_div_pos_is_pos(n as int, base as int);
        lemma_div_pos_is_pos(m as int, base as int);
        lemma_div_is_ordered(m as int, n as int, base as int);
        lemma_digits_of_len_grows(m / base, n / base, base);
    }
}

/// In a smaller base a number has no fewer digits.
pub proof fn lemma_digits_of_len_by_base(n: nat, small: nat, large: nat)
    requires
        2 <= small <= large,
    ensures
        digits_of(n, large).len() <= digits_of(n, small).len(),
    decreases n,
{
    if n != 0 {
        lemma_div_decreases(n as int, large as int);
        lemma_div_pos_is_pos(n as int, large as int);
        lemma_div_pos_is_pos(n as int, small as int);
        lemma_div_is_ordered_by_denominator(n as int, small as int, large as int);
        lemma_digits_of_len_by_base(n / large, small, large);
        lemma_digits_of_len_grows(n / large, n / small, small);
    }
}

/// Going from a larger base to a smaller one does not shorten a string.
pub proof fn lemma_rebase_len(digits: Seq<u8>, from: nat, to: nat)
    requires
        2 <= to <= from <= 256,
        in_base(digits, from),
    ensures
        digits.len() <= rebase(digits, from, to).len(),
{
    let k = leading_zeros(digits);
    let n = value_of(digits, from);
    let tail = digits.skip(k as int);
    lemma_leading_zeros(digits);
    lemma_value_of_zeros(k, tail, from);
    lemma_digits_of_value(tail, from);
    lemma_digits_of_len_by_base(n, to, from);
}

/// Eight bits times `bytes` fit in five bits times `symbols`:
/// `256` to the `bytes` is at most `32` to the `symbols`.
pub proof fn lemma_bytes_fit_symbols(bytes: nat, symbols: nat)
    requires
        8 * bytes <= 5 * symbols,
    ensures
        pow(256, bytes) <= pow(32, symbols),
{
    assert(pow(2, 8) == 256 && pow(2, 5) == 32) by {
        reveal_with_fuel(pow, 9);
    }
    lemma_pow_multiplies(2, 8, bytes);
    lemma_pow_multiplies(2, 5, symbols);
    lemma_pow_increases(2, 8 * bytes, 5 * symbols);
}

/// A repacking under way, from the least significant end. The digits
/// `taken`, in base `from`, stand for what the digits `given`, in base
/// `to`, stand for with `carry` in front of them: a unit of the carry
/// weighs what the next digit given will weigh, and the next digit taken
/// weighs `scale` such units.
pub open spec fn repacking(
    taken: Seq<u8>,
    from: nat,
    given: Seq<u8>,
    to: nat,
    carry: int,
    scale: int,
) -> bool {
    &&& 0 <= carry < scale
    &&& pow(from as int, taken.len()) == pow(to as int, given.len()) * scale
    &&& value_of(taken, from) == value_of(given, to) + carry * pow(to as int, given.len())
}

/// Before anything is taken, nothing is given and nothing carried.
pub proof fn lemma_repacking_begins(from: nat, to: nat)
    ensures
        repacking(Seq::empty(), from, Seq::empty(), to, 0, 1),
{
    reveal(pow);
}

/// A digit taken joins the carry with the weight `scale`; the next one
/// will weigh `from` times as much.
pub proof fn lemma_repacking_takes(
    taken: Seq<u8>,
    from: nat,
    given: Seq<u8>,
    to: nat,
    carry: int,
    scale: int,
    digit: u8,
)
    requires
        repacking(taken, from, given, to, carry, scale),
        (digit as nat) < from,
    ensures
        repacking(seq![digit] + taken, from, given, to, carry + digit * scale, from * scale),
{
    let weight = pow(to as int, given.len());
    let d = digit as int;
    let f = from as int;
    lemma_value_of_prepend(digit, taken, from);
    lemma_pow_next(from as int, taken.len());
    assert((seq![digit] + taken).len() == taken.len() + 1);
    assert(f * (weight * scale) == weight * (f * scale)) by (nonlinear_arith);
    assert(d * (weight * scale) + carry * weight == (carry + d * scale) * weight)
        by (nonlinear_arith);
    assert(0 <= carry + d * scale < f * scale) by (nonlinear_arith)
        requires
            0 <= carry < scale,
            0 <= d < f,
    ;
}

/// The carry gives off its lowest digit in base `to`: what is left of it
/// counts in units `to` times as heavy.
pub proof fn lemma_repacking_gives(
    taken: Seq<u8>,
    from: nat,
    given: Seq<u8>,
    to: nat,
    carry: int,
    scale: int,
    digit: u8,
    left: int,
    less: int,
)
    requires
        repacking(taken, from, given, to, carry, scale),
        carry == digit + to * left,
        scale == to * less,
        0 <= left,
        (digit as nat) < to,
    ensures
        repacking(taken, from, seq![digit] + given, to, left, less),
{
    let weight = pow(to as int, given.len());
    let d = digit as int;
    let t = to as int;
    lemma_value_of_prepend(digit, given, to);
    lemma_pow_next(to as int, given.len());
    assert((seq![digit] + given).len() == given.len() + 1);
    assert(weight * (t * less) == (t * weight) * less) by (nonlinear_arith);
    assert((d + t * left) * weight == d * weight + left * (t * weight)) by (nonlinear_arith);
    assert(left < less) by (nonlinear_arith)
        requires
            d + t * left < t * less,
            0 <= d,
            0 < t,
    ;
}

/// At the end the carry is the first digit given; where it is zero, what
/// was given stands for what was taken as it is.
pub proof fn lemma_repacking_ends(
    taken: Seq<u8>,
    from: nat,
    given: Seq<u8>,
    to: nat,
    carry: u8,
    scale: int,
)
    requires
        repacking(taken, from, given, to, carry as int, scale),
    ensures
        value_of(seq![carry] + given, to) == value_of(taken, from),
        carry == 0 ==> value_of(given, to) == value_of(taken, from),
{
    lemma_value_of_prepend(carry, given, to);
    assert(carry == 0 ==> carry * pow(to as int, given.len()) == 0) by (nonlinear_arith);
}

} // verus!
