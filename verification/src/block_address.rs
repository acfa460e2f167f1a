//! The address of a block: one pair of digits per level of subdivision.

use vstd::prelude::*;
use vstd::arithmetic::div_mod::{
    lemma_basic_div,
    lemma_fundamental_div_mod,
    lemma_fundamental_div_mod_converse,
};
use crate::radix::{
    all_digits,
    digit_at,
    digits_of,
    is_digit,
    lemma_digit_at_is_digit,
    lemma_digits_of_congruent,
    lemma_digits_of_number,
    lemma_number_bounds,
    lemma_number_digits_of,
    lemma_number_push,
    lemma_place_value,
    number,
    place_value,
    SUBBLOCK_COUNT,
};

verus! {

/// Why an address operation could not be carried out.
#[derive(Debug, Clone, Copy, PartialEq, Eq)]
pub enum AddressError {
    /// The address is the root block: it has no finest digit.
    EmptyAddress,
}

/// The digits of `a` along the x axis, coarsest level first.
pub open spec fn xs(a: Seq<(i32, i32)>) -> Seq<int> {
    Seq::new(a.len(), |i: int| a[i].0 as int)
}

/// The digits of `a` along the y axis, coarsest level first.
pub open spec fn ys(a: Seq<(i32, i32)>) -> Seq<int> {
    Seq::new(a.len(), |i: int| a[i].1 as int)
}

/// Canonical form: every stored digit lies in `[0, SUBBLOCK_COUNT)`.
pub open spec fn canonical(a: Seq<(i32, i32)>) -> bool {
    forall|i: int| 0 <= i < a.len() ==> is_digit((#[trigger] a[i]).0 as int) && is_digit(a[i].1 as int)
}

/// The canonical address of depth `len` whose digits spell `vx` along x and
/// `vy` along y, each taken modulo the span of `len` digits.
pub open spec fn address_of(len: nat, vx: int, vy: int) -> Seq<(i32, i32)> {
    Seq::new(
        len,
        |i: int| (digit_at(vx, (len - 1 - i) as nat) as i32, digit_at(vy, (len - 1 - i) as nat) as i32),
    )
}

/// The address `a` moved by `(dx, dy)` blocks of its own level. What does
/// not fit into the digits of `a` is dropped.
pub open spec fn shifted(a: Seq<(i32, i32)>, dx: int, dy: int) -> Seq<(i32, i32)> {
    address_of(a.len(), number(xs(a)) + dx, number(ys(a)) + dy)
}

/// The sub-block `(x, y)` of `a`. A coordinate equal to `SUBBLOCK_COUNT`
/// names the first sub-block of the next block of `a`'s level.
pub open spec fn refined(a: Seq<(i32, i32)>, x: int, y: int) -> Seq<(i32, i32)> {
    address_of(a.len() + 1, number(xs(a)) * SUBBLOCK_COUNT + x, number(ys(a)) * SUBBLOCK_COUNT + y)
}

/// How many spans of `a`'s digits a move by `d` leaves unrepresented, given
/// the digits `s` of `a` along the axis of the move.
pub open spec fn overflow_of(s: Seq<int>, d: int) -> int {
    (number(s) + d) / place_value(s.len())
}

pub proof fn lemma_canonical_axes(a: Seq<(i32, i32)>)
    requires
        canonical(a),
    ensures
        all_digits(xs(a)),
        all_digits(ys(a)),
{
    assert forall|i: int| 0 <= i < xs(a).len() implies is_digit(#[trigger] xs(a)[i]) by {
        assert(is_digit(a[i].0 as int));
    }
    assert forall|i: int| 0 <= i < ys(a).len() implies is_digit(#[trigger] ys(a)[i]) by {
        assert(is_digit(a[i].1 as int));
    }
}

/// `address_of` yields a canonical address that spells the two numbers
/// modulo the span of its digits.
pub proof fn lemma_address_of(len: nat, vx: int, vy: int)
    ensures
        address_of(len, vx, vy).len() == len,
        canonical(address_of(len, vx, vy)),
        xs(address_of(len, vx, vy)) == digits_of(vx, len),
        ys(address_of(len, vx, vy)) == digits_of(vy, len),
        number(xs(address_of(len, vx, vy))) == vx % place_value(len),
        number(ys(address_of(len, vx, vy))) == vy % place_value(len),
{
    let a = address_of(len, vx, vy);
    assert forall|i: int| 0 <= i < len implies is_digit((#[trigger] a[i]).0 as int) && is_digit(
        a[i].1 as int,
    ) && a[i].0 == digits_of(vx, len)[i] && a[i].1 == digits_of(vy, len)[i] by {
        lemma_digit_at_is_digit(vx, (len - 1 - i) as nat);
        lemma_digit_at_is_digit(vy, (len - 1 - i) as nat);
    }
    assert(xs(a) =~= digits_of(vx, len));
    assert(ys(a) =~= digits_of(vy, len));
    lemma_number_digits_of(vx, len);
    lemma_number_digits_of(vy, len);
}

/// A canonical address is the address of the numbers that it spells.
pub proof fn lemma_address_of_numbers(a: Seq<(i32, i32)>)
    requires
        canonical(a),
    ensures
        address_of(a.len(), number(xs(a)), number(ys(a))) == a,
{
    lemma_canonical_axes(a);
    lemma_digits_of_number(xs(a));
    lemma_digits_of_number(ys(a));
    let b = address_of(a.len(), number(xs(a)), number(ys(a)));
    assert forall|i: int| 0 <= i < a.len() implies b[i] == a[i] by {
        assert(digits_of(number(xs(a)), a.len())[i] == xs(a)[i]);
        assert(digits_of(number(ys(a)), a.len())[i] == ys(a)[i]);
    }
    assert(b =~= a);
}

/// Numbers that differ by whole spans of `len` digits have the same address.
pub proof fn lemma_address_of_congruent(len: nat, vx: int, vy: int, kx: int, ky: int)
    ensures
        address_of(len, vx + kx * place_value(len), vy + ky * place_value(len)) == address_of(
            len,
            vx,
            vy,
        ),
{
    lemma_digits_of_congruent(vx, kx, len);
    lemma_digits_of_congruent(vy, ky, len);
    let a = address_of(len, vx + kx * place_value(len), vy + ky * place_value(len));
    let b = address_of(len, vx, vy);
    assert forall|i: int| 0 <= i < len implies a[i] == b[i] by {
        assert(digits_of(vx + kx * place_value(len), len)[i] == digits_of(vx, len)[i]);
        assert(digits_of(vy + ky * place_value(len), len)[i] == digits_of(vy, len)[i]);
    }
    assert(a =~= b);
}

/// Appending a pair of digits appends one digit along each axis.
pub proof fn lemma_pushed(a: Seq<(i32, i32)>, x: int, y: int)
    requires
        canonical(a),
        is_digit(x),
        is_digit(y),
    ensures
        canonical(a.push((x as i32, y as i32))),
        number(xs(a.push((x as i32, y as i32)))) == number(xs(a)) * SUBBLOCK_COUNT + x,
        number(ys(a.push((x as i32, y as i32)))) == number(ys(a)) * SUBBLOCK_COUNT + y,
{
    let b = a.push((x as i32, y as i32));
    assert forall|i: int| 0 <= i < b.len() implies is_digit((#[trigger] b[i]).0 as int) && is_digit(
        b[i].1 as int,
    ) by {
        if i < a.len() {
            assert(b[i] == a[i]);
        }
    }
    assert(xs(b) =~= xs(a).push(x));
    assert(ys(b) =~= ys(a).push(y));
    lemma_number_push(xs(a), x);
    lemma_number_push(ys(a), y);
}

/// Digits that spell `v` up to `c` whole spans are the digits of `v`, and
/// `c` is what a move to `v` leaves unrepresented.
proof fn lemma_carried(s: Seq<int>, v: int, c: int)
    requires
        all_digits(s),
        number(s) + c * place_value(s.len()) == v,
    ensures
        s == digits_of(v, s.len()),
        c == v / place_value(s.len()),
        number(s) == v % place_value(s.len()),
{
    lemma_number_bounds(s);
    lemma_place_value(s.len());
    lemma_fundamental_div_mod_converse(v, place_value(s.len()), c, number(s));
    lemma_digits_of_number(s);
    lemma_digits_of_congruent(number(s), c, s.len());
}

/// Replacing one digit changes the number by the difference of the digits
/// times the weight of their place.
proof fn lemma_number_update(s: Seq<int>, i: int, d: int)
    requires
        0 <= i < s.len(),
    ensures
        number(s.update(i, d)) == number(s) + (d - s[i]) * place_value((s.len() - 1 - i) as nat),
    decreases s.len(),
{
    let n = SUBBLOCK_COUNT as int;
    let u = s.update(i, d);
    let t = s.drop_last();
    assert(number(u) == number(u.drop_last()) * n + u.last());
    assert(number(s) == number(t) * n + s.last());
    if i == s.len() - 1 {
        assert(u.drop_last() =~= t);
        lemma_place_value(0);
        assert((d - s[i]) * place_value(0) == d - s[i]);
    } else {
        assert(u.drop_last() =~= t.update(i, d));
        assert(u.last() == s.last());
        lemma_number_update(t, i, d);
        let p = place_value((s.len() - 2 - i) as nat);
        lemma_place_value((s.len() - 2 - i) as nat);
        assert(place_value((s.len() - 1 - i) as nat) == n * p);
        assert((number(t) + (d - s[i]) * p) * n == number(t) * n + (d - s[i]) * (n * p))
            by (nonlinear_arith);
    }
}

/// Reduces `*val` into `[0, SUBBLOCK_COUNT)` and returns what it carries
/// into the next coarser level: the floor of `*val / SUBBLOCK_COUNT`.
pub fn put_in_range(val: &mut i64) -> (carry: i64)
    ensures
        is_digit(*final(val) as int),
        *final(val) == (*old(val) as int) % (SUBBLOCK_COUNT as int),
        carry == (*old(val) as int) / (SUBBLOCK_COUNT as int),
        *old(val) == carry * SUBBLOCK_COUNT + *final(val),
{
    let v: i64 = *val;
    let mut carry: i64 = v / SUBBLOCK_COUNT;
    let mut digit: i64 = v % SUBBLOCK_COUNT;
    if digit < 0 {
        digit = digit + SUBBLOCK_COUNT;
        carry = carry - 1;
    }
    *val = digit;
    carry
}

/// A block of the subdivided plane, named by the path to it from the root
/// block: at each level the pair of digits that selects one sub-block. The
/// empty path is the root block.
#[derive(Debug, Clone, PartialEq, Eq, Hash)]
pub struct BlockAddress {
    digits: Vec<(i32, i32)>,
}

impl View for BlockAddress {
    type V = Seq<(i32, i32)>;

    closed spec fn view(&self) -> Seq<(i32, i32)> {
        self.digits@
    }
}

impl BlockAddress {
    /// Whether every digit of this address lies in `[0, SUBBLOCK_COUNT)`.
    pub open spec fn is_canonical(&self) -> bool {
        canonical(self@)
    }

    /// The address of the root block.
    pub fn root() -> (address: BlockAddress)
        ensures
            address@ == Seq::<(i32, i32)>::empty(),
            address.is_canonical(),
    {
        BlockAddress { digits: Vec::new() }
    }

    /// The number of levels below the root.
    pub fn depth(&self) -> (depth: usize)
        ensures
            depth == self@.len(),
    {
        self.digits.len()
    }

    /// Builds an address from its digits, coarsest level first. Refuses
    /// digits outside `[0, SUBBLOCK_COUNT)`.
    pub fn from_digits(digits: Vec<(i32, i32)>) -> (address: Option<BlockAddress>)
        ensures
            address.is_some() == canonical(digits@),
            address matches Some(a) ==> a@ == digits@ && a.is_canonical(),
    {
        let mut i: usize = 0;
        while i < digits.len()
            invariant
                i <= digits.len(),
                canonical(digits@.take(i as int)),
            decreases digits.len() - i,
        {
            let d = digits[i];
            if d.0 < 0 || d.0 as i64 >= SUBBLOCK_COUNT || d.1 < 0 || d.1 as i64 >= SUBBLOCK_COUNT {
                return None;
            }
            assert forall|j: int| 0 <= j < i + 1 implies is_digit(
                (#[trigger] digits@.take(i + 1)[j]).0 as int,
            ) && is_digit(digits@.take(i + 1)[j].1 as int) by {
                if j < i {
                    assert(digits@.take(i as int)[j] == digits@[j]);
                }
            }
            i += 1;
        }
        assert(digits@.take(digits.len() as int) =~= digits@);
        Some(BlockAddress { digits })
    }

    /// The digits of this address, coarsest level first.
    pub fn digits(&self) -> (digits: &Vec<(i32, i32)>)
        ensures
            digits@ == self@,
    {
        &self.digits
    }

    /// Whether the two addresses have the same digits.
    pub fn same_digits(&self, other: &BlockAddress) -> (same: bool)
        ensures
            same == (self@ == other@),
    {
        if self.digits.len() != other.digits.len() {
            return false;
        }
        let mut i: usize = 0;
        while i < self.digits.len()
            invariant
                i <= self.digits.len(),
                self.digits.len() == other.digits.len(),
                self.digits@.take(i as int) == other.digits@.take(i as int),
            decreases self.digits.len() - i,
        {
            let a = self.digits[i];
            let b = other.digits[i];
            if a.0 != b.0 || a.1 != b.1 {
                return false;
            }
            assert(self.digits@.take(i + 1) =~= self.digits@.take(i as int).push(a));
            assert(other.digits@.take(i + 1) =~= other.digits@.take(i as int).push(b));
            i += 1;
        }
        assert(self.digits@.take(self.digits.len() as int) =~= self.digits@);
        assert(other.digits@.take(other.digits.len() as int) =~= other.digits@);
        true
    }

    /// The finest digit, or `EmptyAddress` for the root block.
    pub fn last_digit(&self) -> (digit: Result<(i32, i32), AddressError>)
        ensures
            self@.len() == 0 ==> digit == Err::<(i32, i32), AddressError>(AddressError::EmptyAddress),
            self@.len() > 0 ==> digit == Ok::<(i32, i32), AddressError>(self@.last()),
    {
        let n = self.digits.len();
        if n == 0 {
            Err(AddressError::EmptyAddress)
        } else {
            Ok(self.digits[n - 1])
        }
    }

    /// Moves to the parent block and returns the digit that was dropped.
    /// The root block has no parent: it stays as it is and `EmptyAddress`
    /// comes back.
    pub fn zoom_out(&mut self) -> (digit: Result<(i32, i32), AddressError>)
        ensures
            old(self)@.len() == 0 ==> digit == Err::<(i32, i32), AddressError>(
                AddressError::EmptyAddress,
            ) && final(self)@ == old(self)@,
            old(self)@.len() > 0 ==> digit == Ok::<(i32, i32), AddressError>(old(self)@.last())
                && final(self)@ == old(self)@.drop_last(),
            old(self).is_canonical() ==> final(self).is_canonical(),
    {
        match self.digits.pop() {
            Some(last) => Ok(last),
            None => Err(AddressError::EmptyAddress),
        }
    }

    /// Moves by `(dx, dy)` blocks of this address's own level, carrying
    /// from each digit into the next coarser one. The depth stays. A carry
    /// out of the coarsest digit is not applied: it is returned, in whole
    /// spans of the address, and is `(0, 0)` when the move stayed inside
    /// the block that the coarsest digit subdivides.
    pub fn offset(&mut self, dx: i64, dy: i64) -> (overflow: (i64, i64))
        requires
            old(self).is_canonical(),
        ensures
            final(self).is_canonical(),
            final(self)@ == shifted(old(self)@, dx as int, dy as int),
            overflow.0 == overflow_of(xs(old(self)@), dx as int),
            overflow.1 == overflow_of(ys(old(self)@), dy as int),
    {
        let ghost start = self.digits@;
        let len = self.digits.len();
        let mut cx: i64 = dx;
        let mut cy: i64 = dy;
        let mut i: usize = len;
        proof {
            lemma_place_value(0);
            let one = place_value((len - i) as nat);
            assert(cx * one == cx && cy * one == cy) by (nonlinear_arith)
                requires
                    one == 1,
            ;
        }
        while i > 0 && (cx != 0 || cy != 0)
            invariant
                i <= len,
                len == self.digits@.len(),
                len == start.len(),
                canonical(self.digits@),
                number(xs(self.digits@)) + cx * place_value((len - i) as nat) == number(xs(start)) + dx,
                number(ys(self.digits@)) + cy * place_value((len - i) as nat) == number(ys(start)) + dy,
            decreases i,
        {
            i -= 1;
            let ghost before = self.digits@;
            let digit = self.digits[i];
            let mut low_x: i64 = cx;
            let high_x = put_in_range(&mut low_x);
            let mut sum_x: i64 = digit.0 as i64 + low_x;
            let extra_x = put_in_range(&mut sum_x);
            let mut low_y: i64 = cy;
            let high_y = put_in_range(&mut low_y);
            let mut sum_y: i64 = digit.1 as i64 + low_y;
            let extra_y = put_in_range(&mut sum_y);
            self.digits[i] = (sum_x as i32, sum_y as i32);
            proof {
                let n = SUBBLOCK_COUNT as int;
                let p = place_value((len - 1 - i) as nat);
                lemma_place_value((len - 1 - i) as nat);
                assert(xs(self.digits@) =~= xs(before).update(i as int, sum_x as int));
                assert(ys(self.digits@) =~= ys(before).update(i as int, sum_y as int));
                lemma_number_update(xs(before), i as int, sum_x as int);
                lemma_number_update(ys(before), i as int, sum_y as int);
                assert((sum_x - digit.0) * p + (high_x + extra_x) * (n * p) == cx * p)
                    by (nonlinear_arith)
                    requires
                        digit.0 + cx == (high_x + extra_x) * n + sum_x,
                ;
                assert((sum_y - digit.1) * p + (high_y + extra_y) * (n * p) == cy * p)
                    by (nonlinear_arith)
                    requires
                        digit.1 + cy == (high_y + extra_y) * n + sum_y,
                ;
            }
            cx = high_x + extra_x;
            cy = high_y + extra_y;
        }
        proof {
            lemma_canonical_axes(self.digits@);
            let span = place_value(len as nat);
            assert(cx * place_value((len - i) as nat) == cx * span) by {
                if i > 0 {
                    assert(cx == 0);
                    assert(0 * place_value((len - i) as nat) == 0 * span) by (nonlinear_arith);
                }
            }
            assert(cy * place_value((len - i) as nat) == cy * span) by {
                if i > 0 {
                    assert(cy == 0);
                    assert(0 * place_value((len - i) as nat) == 0 * span) by (nonlinear_arith);
                }
            }
            lemma_carried(xs(self.digits@), number(xs(start)) + dx, cx as int);
            lemma_carried(ys(self.digits@), number(ys(start)) + dy, cy as int);
            let target = shifted(start, dx as int, dy as int);
            lemma_address_of(len as nat, number(xs(start)) + dx, number(ys(start)) + dy);
            assert forall|j: int| 0 <= j < len implies self.digits@[j] == target[j] by {
                assert(xs(self.digits@)[j] == xs(target)[j]);
                assert(ys(self.digits@)[j] == ys(target)[j]);
            }
            assert(self.digits@ =~= target);
        }
        (cx, cy)
    }

    /// Moves to the sub-block `(x, y)` of this block. A coordinate equal to
    /// `SUBBLOCK_COUNT` is the far edge of the block: it is stored as digit
    /// 0 and one step is carried into the coarser digits, as `offset`
    /// carries. Returns the carry that left the coarsest digit.
    pub fn zoom_in(&mut self, x: i32, y: i32) -> (overflow: (i64, i64))
        requires
            old(self).is_canonical(),
            0 <= x <= SUBBLOCK_COUNT,
            0 <= y <= SUBBLOCK_COUNT,
        ensures
            final(self).is_canonical(),
            final(self)@ == refined(old(self)@, x as int, y as int),
            x < SUBBLOCK_COUNT && y < SUBBLOCK_COUNT ==> final(self)@ == old(self)@.push((x, y))
                && overflow == (0i64, 0i64),
            overflow.0 == overflow_of(xs(old(self)@), if x == SUBBLOCK_COUNT { 1int } else { 0int }),
            overflow.1 == overflow_of(ys(old(self)@), if y == SUBBLOCK_COUNT { 1int } else { 0int }),
    {
        let ghost start = self.digits@;
        let mut digit_x: i64 = x as i64;
        let carry_x = put_in_range(&mut digit_x);
        let mut digit_y: i64 = y as i64;
        let carry_y = put_in_range(&mut digit_y);
        let overflow = self.offset(carry_x, carry_y);
        let ghost moved = self.digits@;
        self.digits.push((digit_x as i32, digit_y as i32));
        proof {
            let n = SUBBLOCK_COUNT as int;
            let len = start.len();
            let vx = number(xs(start));
            let vy = number(ys(start));
            lemma_canonical_axes(start);
            lemma_number_bounds(xs(start));
            lemma_number_bounds(ys(start));
            lemma_pushed(moved, digit_x as int, digit_y as int);
            lemma_address_of(len, vx + carry_x, vy + carry_y);
            lemma_place_value(len);
            let span = place_value(len);
            // The carry that `offset` dropped is a whole number of spans of
            // the longer address as well.
            assert(number(xs(moved)) * n + digit_x == (vx * n + x) - overflow.0 * place_value(
                len + 1,
            )) by {
                lemma_fundamental_div_mod(vx + carry_x, span);
                assert((vx + carry_x - span * overflow.0) * n + digit_x == (vx * n + x) - overflow.0
                    * (n * span)) by (nonlinear_arith)
                    requires
                        x == carry_x * n + digit_x,
                ;
            }
            assert(number(ys(moved)) * n + digit_y == (vy * n + y) - overflow.1 * place_value(
                len + 1,
            )) by {
                lemma_fundamental_div_mod(vy + carry_y, span);
                assert((vy + carry_y - span * overflow.1) * n + digit_y == (vy * n + y) - overflow.1
                    * (n * span)) by (nonlinear_arith)
                    requires
                        y == carry_y * n + digit_y,
                ;
            }
            lemma_address_of_numbers(self.digits@);
            lemma_address_of_congruent(
                len + 1,
                vx * n + x,
                vy * n + y,
                -(overflow.0 as int),
                -(overflow.1 as int),
            );
            assert((vx * n + x) + (-(overflow.0 as int)) * place_value(len + 1) == (vx * n + x)
                - overflow.0 * place_value(len + 1)) by (nonlinear_arith);
            assert((vy * n + y) + (-(overflow.1 as int)) * place_value(len + 1) == (vy * n + y)
                - overflow.1 * place_value(len + 1)) by (nonlinear_arith);
            if x < SUBBLOCK_COUNT && y < SUBBLOCK_COUNT {
                lemma_address_of_numbers(start);
                lemma_basic_div(vx, span);
                lemma_basic_div(vy, span);
            }
        }
        overflow
    }
}

} // verus!
