//! Positional numbers in the radix of the grid.
//!
//! Along each axis an address is a number written with one digit per level,
//! the coarsest level first. This module defines that reading and proves the
//! arithmetic the navigation code rests on.

use vstd::prelude::*;
use vstd::arithmetic::div_mod::{
    lemma_fundamental_div_mod,
    lemma_fundamental_div_mod_converse,
    lemma_mod_bound,
};
use vstd::arithmetic::power::{lemma_pow_adds, lemma_pow_positive, pow};

verus! {

/// Number of sub-blocks along each axis of a block: the radix of an address.
pub const SUBBLOCK_COUNT: i64 = 10;

/// Weight of the digit that stands `place` levels above the finest one.
pub open spec fn place_value(place: nat) -> int {
    pow(SUBBLOCK_COUNT as int, place)
}

/// Whether `d` is a digit of the radix.
pub open spec fn is_digit(d: int) -> bool {
    0 <= d < SUBBLOCK_COUNT
}

/// Whether every element of `s` is a digit of the radix.
pub open spec fn all_digits(s: Seq<int>) -> bool {
    forall|i: int| 0 <= i < s.len() ==> is_digit(#[trigger] s[i])
}

/// The number that the digits `s` spell, most significant digit first.
pub open spec fn number(s: Seq<int>) -> int
    decreases s.len(),
{
    if s.len() == 0 {
        0
    } else {
        number(s.drop_last()) * SUBBLOCK_COUNT + s.last()
    }
}

/// The digit of `v` that stands `place` levels above the finest one.
pub open spec fn digit_at(v: int, place: nat) -> int {
    (v / place_value(place)) % (SUBBLOCK_COUNT as int)
}

/// The `len` lowest digits of `v`, most significant first.
pub open spec fn digits_of(v: int, len: nat) -> Seq<int> {
    Seq::new(len, |i: int| digit_at(v, (len - 1 - i) as nat))
}

pub proof fn lemma_place_value(place: nat)
    ensures
        place_value(place) > 0,
        place_value(0) == 1,
        place_value(place + 1) == SUBBLOCK_COUNT * place_value(place),
{
    lemma_pow_positive(SUBBLOCK_COUNT as int, place);
    reveal_with_fuel(pow, 2);
}

pub proof fn lemma_place_value_adds(a: nat, b: nat)
    ensures
        place_value(a + b) == place_value(a) * place_value(b),
{
    lemma_pow_adds(SUBBLOCK_COUNT as int, a, b);
}

/// Floor division and remainder by a product, taken one factor at a time.
/// Holds for negative `x` too.
pub proof fn lemma_div_mod_split(x: int, c: int, d: int)
    requires
        c > 0,
        d > 0,
    ensures
        c * d > 0,
        x / (c * d) == (x / c) / d,
        x % (c * d) == c * ((x / c) % d) + x % c,
{
    let q = x / c;
    let r = x % c;
    let q2 = q / d;
    let r2 = q % d;
    lemma_fundamental_div_mod(x, c);
    lemma_fundamental_div_mod(q, d);
    lemma_mod_bound(x, c);
    lemma_mod_bound(q, d);
    assert(c * d > 0) by (nonlinear_arith)
        requires
            c > 0,
            d > 0,
    ;
    assert(x == q2 * (c * d) + (c * r2 + r)) by (nonlinear_arith)
        requires
            x == c * q + r,
            q == d * q2 + r2,
    ;
    assert(0 <= c * r2 + r < c * d) by (nonlinear_arith)
        requires
            0 <= r < c,
            0 <= r2 < d,
    ;
    lemma_fundamental_div_mod_converse(x, c * d, q2, c * r2 + r);
}

/// Adding a multiple of the divisor shifts the quotient and keeps the remainder.
pub proof fn lemma_div_mod_shift(x: int, k: int, d: int)
    requires
        d > 0,
    ensures
        (x + k * d) / d == x / d + k,
        (x + k * d) % d == x % d,
{
    lemma_fundamental_div_mod(x, d);
    lemma_mod_bound(x, d);
    assert(x + k * d == (x / d + k) * d + x % d) by (nonlinear_arith)
        requires
            x == d * (x / d) + x % d,
    ;
    lemma_fundamental_div_mod_converse(x + k * d, d, x / d + k, x % d);
}

/// A digit appended at the fine end becomes the lowest digit and lifts the
/// others by one place.
pub proof fn lemma_digit_at_step(v: int, d: int, place: nat)
    requires
        is_digit(d),
    ensures
        digit_at(v * SUBBLOCK_COUNT + d, 0) == d,
        digit_at(v * SUBBLOCK_COUNT + d, place + 1) == digit_at(v, place),
{
    let n = SUBBLOCK_COUNT as int;
    lemma_fundamental_div_mod_converse(v * n + d, n, v, d);
    lemma_place_value(place);
    lemma_div_mod_split(v * n + d, n, place_value(place));
}

/// Dropping the lowest digit of a number is floor division by the radix.
pub proof fn lemma_digit_at_div(v: int, place: nat)
    ensures
        digit_at(v, 0) == v % (SUBBLOCK_COUNT as int),
        digit_at(v, place + 1) == digit_at(v / (SUBBLOCK_COUNT as int), place),
{
    lemma_place_value(place);
    lemma_div_mod_split(v, SUBBLOCK_COUNT as int, place_value(place));
}

pub proof fn lemma_digit_at_is_digit(v: int, place: nat)
    ensures
        is_digit(digit_at(v, place)),
{
    lemma_mod_bound(v / place_value(place), SUBBLOCK_COUNT as int);
}

pub proof fn lemma_number_push(s: Seq<int>, d: int)
    ensures
        number(s.push(d)) == number(s) * SUBBLOCK_COUNT + d,
{
    assert(s.push(d).drop_last() =~= s);
}

/// A number of `len` digits lies below the weight of the place after them.
pub proof fn lemma_number_bounds(s: Seq<int>)
    requires
        all_digits(s),
    ensures
        0 <= number(s) < place_value(s.len()),
    decreases s.len(),
{
    if s.len() == 0 {
        lemma_place_value(0);
    } else {
        let t = s.drop_last();
        assert(is_digit(s[s.len() - 1]));
        assert forall|i: int| 0 <= i < t.len() implies is_digit(#[trigger] t[i]) by {
            assert(t[i] == s[i]);
        }
        lemma_number_bounds(t);
        lemma_place_value(t.len());
    }
}

/// Reading the digits back out of the number that they spell returns them.
pub proof fn lemma_digit_at_number(s: Seq<int>, i: int)
    requires
        all_digits(s),
        0 <= i < s.len(),
    ensures
        digit_at(number(s), (s.len() - 1 - i) as nat) == s[i],
    decreases s.len(),
{
    let t = s.drop_last();
    assert(is_digit(s[s.len() - 1]));
    if i == s.len() - 1 {
        lemma_digit_at_step(number(t), s.last(), 0);
    } else {
        assert forall|j: int| 0 <= j < t.len() implies is_digit(#[trigger] t[j]) by {
            assert(t[j] == s[j]);
        }
        lemma_digit_at_number(t, i);
        lemma_digit_at_step(number(t), s.last(), (s.len() - 2 - i) as nat);
    }
}

pub proof fn lemma_digits_of_number(s: Seq<int>)
    requires
        all_digits(s),
    ensures
        digits_of(number(s), s.len()) == s,
{
    assert forall|i: int| 0 <= i < s.len() implies digits_of(number(s), s.len())[i] == s[i] by {
        lemma_digit_at_number(s, i);
    }
    assert(digits_of(number(s), s.len()) =~= s);
}

/// The digits below place `len` do not change when a multiple of that
/// place's weight is added.
pub proof fn lemma_digit_at_congruent(v: int, k: int, len: nat, place: nat)
    requires
        place < len,
    ensures
        digit_at(v + k * place_value(len), place) == digit_at(v, place),
{
    let n = SUBBLOCK_COUNT as int;
    let p = place_value(place);
    let m = place_value((len - place - 1) as nat);
    lemma_place_value(place);
    lemma_place_value((len - place - 1) as nat);
    lemma_place_value_adds(place, (len - place) as nat);
    assert(k * place_value(len) == (k * n * m) * p) by (nonlinear_arith)
        requires
            place_value(len) == p * (n * m),
    ;
    lemma_div_mod_shift(v, k * n * m, p);
    assert(k * n * m == (k * m) * n) by (nonlinear_arith);
    lemma_div_mod_shift(v / p, k * m, n);
}

pub proof fn lemma_digits_of_congruent(v: int, k: int, len: nat)
    ensures
        digits_of(v + k * place_value(len), len) == digits_of(v, len),
{
    assert forall|i: int| 0 <= i < len implies digits_of(v + k * place_value(len), len)[i]
        == digits_of(v, len)[i] by {
        lemma_digit_at_congruent(v, k, len, (len - 1 - i) as nat);
    }
    assert(digits_of(v + k * place_value(len), len) =~= digits_of(v, len));
}

/// The `len` lowest digits of `v` spell `v` modulo the weight of place `len`.
pub proof fn lemma_number_digits_of(v: int, len: nat)
    ensures
        all_digits(digits_of(v, len)),
        number(digits_of(v, len)) == v % place_value(len),
    decreases len,
{
    let n = SUBBLOCK_COUNT as int;
    let s = digits_of(v, len);
    assert forall|i: int| 0 <= i < s.len() implies is_digit(#[trigger] s[i]) by {
        lemma_digit_at_is_digit(v, (len - 1 - i) as nat);
    }
    if len == 0 {
        lemma_place_value(0);
    } else {
        let t = digits_of(v / n, (len - 1) as nat);
        assert forall|i: int| 0 <= i < len - 1 implies s.drop_last()[i] == t[i] by {
            lemma_digit_at_div(v, (len - 2 - i) as nat);
        }
        assert(s.drop_last() =~= t);
        lemma_number_digits_of(v / n, (len - 1) as nat);
        lemma_digit_at_div(v, 0);
        lemma_place_value((len - 1) as nat);
        lemma_div_mod_split(v, n, place_value((len - 1) as nat));
        assert(number(s) == number(t) * n + s.last());
    }
}

/// Digits written after other digits: the first number moves up by as many
/// places as digits follow it.
pub proof fn lemma_number_concat(s: Seq<int>, t: Seq<int>)
    ensures
        number(s + t) == number(s) * place_value(t.len()) + number(t),
    decreases t.len(),
{
    let n = SUBBLOCK_COUNT as int;
    if t.len() == 0 {
        assert(s + t =~= s);
        lemma_place_value(0);
        assert(number(s) * place_value(0) == number(s)) by (nonlinear_arith)
            requires
                place_value(0) == 1,
        ;
    } else {
        let r = t.drop_last();
        assert((s + t).drop_last() =~= s + r);
        lemma_number_concat(s, r);
        lemma_place_value(r.len());
        assert((number(s) * place_value(r.len()) + number(r)) * n + t.last() == number(s) * (n
            * place_value(r.len())) + (number(r) * n + t.last())) by (nonlinear_arith);
    }
}

} // verus!
