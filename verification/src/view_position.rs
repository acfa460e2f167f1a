//! The camera: a block address, a position inside that block and a zoom
//! level between that block's depth and the next.
//!
//! Positions and zoom levels are fixed-point fractions: `UNIT` stands for
//! one whole block, or one whole level of depth.

use vstd::prelude::*;
use vstd::arithmetic::div_mod::{lemma_fundamental_div_mod, lemma_fundamental_div_mod_converse};
use crate::block_address::{
    address_of,
    canonical,
    lemma_address_of,
    lemma_address_of_congruent,
    overflow_of,
    shifted,
    xs,
    ys,
    BlockAddress,
};
use crate::radix::{
    is_digit,
    lemma_div_mod_shift,
    lemma_div_mod_split,
    lemma_number_concat,
    lemma_number_push,
    lemma_place_value,
    number,
    place_value,
    SUBBLOCK_COUNT,
};

verus! {

/// The fixed-point value of 1: the width of a block in position units, and
/// one level of depth in zoom units.
pub const UNIT: i64 = 1_000_000_000;

/// Splits a fixed-point value into whole units, rounded down, and the
/// fraction that is left.
pub fn split_units(value: i64) -> (parts: (i64, i64))
    ensures
        parts.0 == (value as int) / (UNIT as int),
        parts.1 == (value as int) % (UNIT as int),
        0 <= parts.1 < UNIT,
        value == parts.0 * UNIT + parts.1,
{
    let mut whole: i64 = value / UNIT;
    let mut fraction: i64 = value % UNIT;
    if fraction < 0 {
        fraction = fraction + UNIT;
        whole = whole - 1;
    }
    (whole, fraction)
}

/// Whether `a` and `b` differ by at most `tolerance`.
pub open spec fn within(a: int, b: int, tolerance: int) -> bool {
    -tolerance <= a - b <= tolerance
}

/// Whether two fixed-point values of a view differ by at most `tolerance`.
fn close_to(a: i64, b: i64, tolerance: i64) -> (close: bool)
    requires
        0 <= a <= UNIT,
        0 <= b <= UNIT,
    ensures
        close == within(a as int, b as int, tolerance as int),
{
    let diff: i64 = a - b;
    if tolerance < 0 {
        false
    } else {
        diff <= tolerance && diff >= -tolerance
    }
}

/// What a view is, as mathematics: where the camera stands and how far it
/// has zoomed.
pub struct ViewState {
    /// Digits of the block that holds the camera, coarsest level first.
    pub address: Seq<(i32, i32)>,
    /// Position inside that block along x, in `UNIT`ths of its width.
    pub x: int,
    /// Position inside that block along y, in `UNIT`ths of its width.
    pub y: int,
    /// Zoom beyond the depth of the address, in `UNIT`ths of a level.
    pub zoom_level: int,
}

impl ViewState {
    /// The invariant of a view: a canonical address, a position inside the
    /// block, both edges included, and a zoom level short of a whole level.
    pub open spec fn wf(self) -> bool {
        &&& canonical(self.address)
        &&& 0 <= self.x <= UNIT
        &&& 0 <= self.y <= UNIT
        &&& 0 <= self.zoom_level < UNIT
    }

    /// The zoom counted from the root: whole levels are the depth.
    pub open spec fn total_zoom(self) -> int {
        self.address.len() * UNIT + self.zoom_level
    }

    /// The view after the camera moved by `(dx, dy)`, in `UNIT`ths of the
    /// block that holds it: the whole blocks of the sum go to the address,
    /// the fraction stays as the position.
    pub open spec fn panned(self, dx: int, dy: int) -> ViewState {
        ViewState {
            address: shifted(self.address, (self.x + dx) / (UNIT as int), (self.y + dy) / (UNIT as int)),
            x: (self.x + dx) % (UNIT as int),
            y: (self.y + dy) % (UNIT as int),
            zoom_level: self.zoom_level,
        }
    }

    /// The same view with another zoom level.
    pub open spec fn with_zoom_level(self, zoom_level: int) -> ViewState {
        ViewState { zoom_level, ..self }
    }

    /// The view after `levels` steps towards the root. The address loses
    /// its `levels` finest digits; they become the leading digits of the
    /// position, which is rounded down to a whole number of units.
    pub open spec fn coarsened(self, levels: nat) -> ViewState
        recommends
            levels <= self.address.len(),
    {
        let keep = self.address.len() - levels;
        ViewState {
            address: self.address.take(keep),
            x: (number(xs(self.address.skip(keep))) * UNIT + self.x) / place_value(levels),
            y: (number(ys(self.address.skip(keep))) * UNIT + self.y) / place_value(levels),
            zoom_level: self.zoom_level,
        }
    }

    /// The view after `levels` steps away from the root. The position is
    /// scaled up; its whole blocks become `levels` new digits of the
    /// address, its fraction stays as the position.
    pub open spec fn magnified(self, levels: nat) -> ViewState {
        let scale = place_value(levels);
        ViewState {
            address: address_of(
                self.address.len() + levels,
                number(xs(self.address)) * scale + (self.x * scale) / (UNIT as int),
                number(ys(self.address)) * scale + (self.y * scale) / (UNIT as int),
            ),
            x: (self.x * scale) % (UNIT as int),
            y: (self.y * scale) % (UNIT as int),
            zoom_level: self.zoom_level,
        }
    }

    /// The total zoom after a change by `diff`, held at the root: it does
    /// not go below 0.
    pub open spec fn clamped_zoom(self, diff: int) -> int {
        if self.total_zoom() + diff < 0 {
            0
        } else {
            self.total_zoom() + diff
        }
    }

    /// The view after the total zoom changed by `diff`: the whole levels of
    /// the new total are the new depth, its fraction the new zoom level.
    pub open spec fn zoomed(self, diff: int) -> ViewState {
        let depth = self.clamped_zoom(diff) / (UNIT as int);
        let level = self.clamped_zoom(diff) % (UNIT as int);
        if depth <= self.address.len() {
            self.coarsened((self.address.len() - depth) as nat).with_zoom_level(level)
        } else {
            self.magnified((depth - self.address.len()) as nat).with_zoom_level(level)
        }
    }
}

/// One step towards the root: the dropped digit and the old position, read
/// as one fraction of the parent block.
pub proof fn lemma_coarsened_once(s: ViewState)
    requires
        s.address.len() > 0,
    ensures
        s.coarsened(1) == (ViewState {
            address: s.address.drop_last(),
            x: (s.address.last().0 * UNIT + s.x) / (SUBBLOCK_COUNT as int),
            y: (s.address.last().1 * UNIT + s.y) / (SUBBLOCK_COUNT as int),
            zoom_level: s.zoom_level,
        }),
{
    let a = s.address;
    let keep = a.len() - 1;
    lemma_place_value(0);
    assert(a.take(keep) =~= a.drop_last());
    assert(xs(a.skip(keep)) =~= seq![a.last().0 as int]);
    assert(ys(a.skip(keep)) =~= seq![a.last().1 as int]);
    lemma_number_push(Seq::<int>::empty(), a.last().0 as int);
    lemma_number_push(Seq::<int>::empty(), a.last().1 as int);
    assert(Seq::<int>::empty().push(a.last().0 as int) =~= seq![a.last().0 as int]);
    assert(Seq::<int>::empty().push(a.last().1 as int) =~= seq![a.last().1 as int]);
}

/// Not moving at all leaves the view as it is.
pub proof fn lemma_coarsened_zero(s: ViewState)
    ensures
        s.coarsened(0) == s,
{
    let a = s.address;
    lemma_place_value(0);
    assert(a.take(a.len() as int) =~= a);
    assert(xs(a.skip(a.len() as int)) =~= Seq::<int>::empty());
    assert(ys(a.skip(a.len() as int)) =~= Seq::<int>::empty());
}

/// Steps towards the root add up.
pub proof fn lemma_coarsened_step(s: ViewState, levels: nat)
    requires
        levels < s.address.len(),
    ensures
        s.coarsened(levels + 1) == s.coarsened(levels).coarsened(1),
{
    let n = SUBBLOCK_COUNT as int;
    let a = s.address;
    let keep = a.len() - levels;
    let c = s.coarsened(levels);
    let scale = place_value(levels);
    lemma_coarsened_once(c);
    lemma_place_value(levels);
    assert(a.take(keep).drop_last() =~= a.take(keep - 1));
    assert(a.take(keep).last() == a[keep - 1]);
    lemma_coarsened_axis(xs(a), s.x, levels);
    lemma_coarsened_axis(ys(a), s.y, levels);
    assert(xs(a.skip(keep)) =~= xs(a).skip(keep));
    assert(ys(a.skip(keep)) =~= ys(a).skip(keep));
    assert(xs(a.skip(keep - 1)) =~= xs(a).skip(keep - 1));
    assert(ys(a.skip(keep - 1)) =~= ys(a).skip(keep - 1));
}

/// Along one axis: dividing by one more place is dividing the previous
/// quotient, led by the next digit, by the radix.
proof fn lemma_coarsened_axis(digits: Seq<int>, x: int, levels: nat)
    requires
        levels < digits.len(),
    ensures
        (number(digits.skip(digits.len() - levels - 1)) * UNIT + x) / place_value(levels + 1) == (
        digits[digits.len() - levels - 1] * UNIT + (number(digits.skip(digits.len() - levels)) * UNIT
            + x) / place_value(levels)) / (SUBBLOCK_COUNT as int),
{
    let n = SUBBLOCK_COUNT as int;
    let keep = digits.len() - levels;
    let d = digits[keep - 1];
    let low = digits.skip(keep);
    let scale = place_value(levels);
    let w = number(low) * UNIT + x;
    lemma_place_value(levels);
    assert(digits.skip(keep - 1) =~= seq![d] + low);
    lemma_number_concat(seq![d], low);
    lemma_number_push(Seq::<int>::empty(), d);
    assert(Seq::<int>::empty().push(d) =~= seq![d]);
    assert(number(digits.skip(keep - 1)) * UNIT + x == w + (d * UNIT) * scale) by (nonlinear_arith)
        requires
            number(digits.skip(keep - 1)) == d * scale + number(low),
            w == number(low) * UNIT + x,
    ;
    lemma_div_mod_split(w + (d * UNIT) * scale, scale, n);
    assert(scale * n == n * scale) by (nonlinear_arith);
    lemma_div_mod_shift(w, d * UNIT, scale);
}

/// Steps away from the root add up.
pub proof fn lemma_magnified_step(s: ViewState, levels: nat)
    ensures
        s.magnified(levels + 1) == s.magnified(levels).magnified(1),
{
    let a = s.address;
    let m = s.magnified(levels);
    let depth = a.len() + levels;
    let vx = number(xs(a)) * place_value(levels) + (s.x * place_value(levels)) / (UNIT as int);
    let vy = number(ys(a)) * place_value(levels) + (s.y * place_value(levels)) / (UNIT as int);
    lemma_address_of(depth, vx, vy);
    lemma_magnified_axis(number(xs(a)), s.x, levels, depth);
    lemma_magnified_axis(number(ys(a)), s.y, levels, depth);
    let span = place_value(depth);
    lemma_address_of_congruent(
        depth + 1,
        number(xs(a)) * place_value(levels + 1) + (s.x * place_value(levels + 1)) / (UNIT as int),
        number(ys(a)) * place_value(levels + 1) + (s.y * place_value(levels + 1)) / (UNIT as int),
        -(vx / span),
        -(vy / span),
    );
}

/// Along one axis: scaling by one more place is scaling the previous
/// fraction by the radix, and the number of whole blocks gains one digit.
proof fn lemma_magnified_axis(v: int, x: int, levels: nat, depth: nat)
    ensures
        (x * place_value(levels + 1)) % (UNIT as int) == (((x * place_value(levels)) % (UNIT as int))
            * place_value(1)) % (UNIT as int),
        ({
            let whole = v * place_value(levels) + (x * place_value(levels)) / (UNIT as int);
            let part = (x * place_value(levels)) % (UNIT as int);
            (whole % place_value(depth)) * place_value(1) + (part * place_value(1)) / (UNIT as int)
                == v * place_value(levels + 1) + (x * place_value(levels + 1)) / (UNIT as int) + (-(whole
                / place_value(depth))) * place_value(depth + 1)
        }),
{
    let n = SUBBLOCK_COUNT as int;
    let unit = UNIT as int;
    let scale = place_value(levels);
    let span = place_value(depth);
    let q = (x * scale) / unit;
    let r = (x * scale) % unit;
    let whole = v * scale + q;
    lemma_place_value(0);
    lemma_place_value(levels);
    lemma_place_value(depth);
    assert(place_value(1) == n);
    let digit = (r * n) / unit;
    let rest = (r * n) % unit;
    lemma_fundamental_div_mod(x * scale, unit);
    lemma_fundamental_div_mod(r * n, unit);
    assert(x * (n * scale) == (q * n + digit) * unit + rest) by (nonlinear_arith)
        requires
            x * scale == unit * q + r,
            r * n == unit * digit + rest,
    ;
    lemma_fundamental_div_mod_converse(x * (n * scale), unit, q * n + digit, rest);
    lemma_fundamental_div_mod(whole, span);
    assert((whole % span) * n + digit == v * (n * scale) + (q * n + digit) + (-(whole / span)) * (n
        * span)) by (nonlinear_arith)
        requires
            whole == v * scale + q,
            whole == span * (whole / span) + whole % span,
    ;
}

/// The camera's place in the subdivided plane.
#[derive(Debug, Clone, PartialEq, Eq)]
pub struct ViewPosition {
    block: BlockAddress,
    x: i64,
    y: i64,
    zoom_level: i64,
}

impl View for ViewPosition {
    type V = ViewState;

    closed spec fn view(&self) -> ViewState {
        ViewState {
            address: self.block@,
            x: self.x as int,
            y: self.y as int,
            zoom_level: self.zoom_level as int,
        }
    }
}

impl ViewPosition {
    /// The view at the start: the middle of the root block, not zoomed.
    pub fn new() -> (view: ViewPosition)
        ensures
            view@ == (ViewState { address: Seq::empty(), x: UNIT / 2, y: UNIT / 2, zoom_level: 0 }),
            view@.wf(),
    {
        ViewPosition { block: BlockAddress::root(), x: UNIT / 2, y: UNIT / 2, zoom_level: 0 }
    }

    /// A view from its parts, or `None` where the position lies outside
    /// the block or the zoom level outside `[0, UNIT)`.
    pub fn from_parts(block: BlockAddress, position: (i64, i64), zoom_level: i64) -> (view: Option<
        ViewPosition,
    >)
        requires
            block.is_canonical(),
        ensures
            view.is_some() == (0 <= position.0 <= UNIT && 0 <= position.1 <= UNIT && 0 <= zoom_level
                < UNIT),
            view matches Some(v) ==> v@.wf() && v@ == (ViewState {
                address: block@,
                x: position.0 as int,
                y: position.1 as int,
                zoom_level: zoom_level as int,
            }),
    {
        if 0 <= position.0 && position.0 <= UNIT && 0 <= position.1 && position.1 <= UNIT && 0
            <= zoom_level && zoom_level < UNIT {
            Some(ViewPosition { block, x: position.0, y: position.1, zoom_level })
        } else {
            None
        }
    }

    /// The block that holds the camera.
    pub fn block(&self) -> (block: &BlockAddress)
        ensures
            block@ == self@.address,
    {
        &self.block
    }

    /// The position inside the block, in `UNIT`ths of its width.
    pub fn position(&self) -> (position: (i64, i64))
        ensures
            position.0 == self@.x,
            position.1 == self@.y,
    {
        (self.x, self.y)
    }

    /// The zoom beyond the block's depth, in `UNIT`ths of a level.
    pub fn zoom_level(&self) -> (zoom_level: i64)
        ensures
            zoom_level == self@.zoom_level,
    {
        self.zoom_level
    }

    /// Whether the two views stand in the same block and their positions
    /// and zoom levels differ by at most `tolerance` units each.
    pub fn approx_eq(&self, other: &ViewPosition, tolerance: i64) -> (close: bool)
        requires
            self@.wf(),
            other@.wf(),
        ensures
            close == (self@.address == other@.address && within(self@.x, other@.x, tolerance as int)
                && within(self@.y, other@.y, tolerance as int) && within(
                self@.zoom_level,
                other@.zoom_level,
                tolerance as int,
            )),
    {
        self.block.same_digits(&other.block) && close_to(self.x, other.x, tolerance) && close_to(
            self.y,
            other.y,
            tolerance,
        ) && close_to(self.zoom_level, other.zoom_level, tolerance)
    }

    /// Moves the camera by `(dx, dy)`, in `UNIT`ths of the block that holds
    /// it. The position keeps the fraction of the sum, in `[0, UNIT)`; the
    /// whole blocks move the address. Returns what the address could not
    /// take up, as `BlockAddress::offset` does.
    pub fn offset(&mut self, dx: i64, dy: i64) -> (overflow: (i64, i64))
        requires
            old(self)@.wf(),
        ensures
            final(self)@.wf(),
            final(self)@ == old(self)@.panned(dx as int, dy as int),
            final(self)@.x < UNIT,
            final(self)@.y < UNIT,
            overflow.0 == overflow_of(xs(old(self)@.address), (old(self)@.x + dx) / (UNIT as int)),
            overflow.1 == overflow_of(ys(old(self)@.address), (old(self)@.y + dy) / (UNIT as int)),
    {
        let (whole_x, part_x) = split_units(dx);
        let (extra_x, x) = split_units(self.x + part_x);
        let (whole_y, part_y) = split_units(dy);
        let (extra_y, y) = split_units(self.y + part_y);
        self.x = x;
        self.y = y;
        self.block.offset(whole_x + extra_x, whole_y + extra_y)
    }

    /// One level towards the root: drops the finest digit and reads it,
    /// with the old position, as the position in the parent block.
    fn step_out(&mut self)
        requires
            old(self)@.wf(),
            old(self)@.address.len() > 0,
        ensures
            final(self)@.wf(),
            final(self)@ == old(self)@.coarsened(1),
    {
        proof {
            lemma_coarsened_once(self@);
            let last = self@.address[self@.address.len() - 1];
            assert(is_digit(last.0 as int) && is_digit(last.1 as int));
        }
        match self.block.zoom_out() {
            Ok(digit) => {
                self.x = (digit.0 as i64 * UNIT + self.x) / SUBBLOCK_COUNT;
                self.y = (digit.1 as i64 * UNIT + self.y) / SUBBLOCK_COUNT;
            },
            Err(_) => {},
        }
    }

    /// One level away from the root: the sub-block that holds the position
    /// becomes the finest digit, and the position is taken inside it.
    fn step_in(&mut self)
        requires
            old(self)@.wf(),
        ensures
            final(self)@.wf(),
            final(self)@ == old(self)@.magnified(1),
    {
        let digit_x: i64 = self.x * SUBBLOCK_COUNT / UNIT;
        let digit_y: i64 = self.y * SUBBLOCK_COUNT / UNIT;
        proof {
            let n = SUBBLOCK_COUNT as int;
            let one = place_value(1);
            lemma_place_value(0);
            assert(one == n);
            let vx = number(xs(self@.address));
            let vy = number(ys(self@.address));
            assert(vx * one == vx * n && vy * one == vy * n && self@.x * one == self@.x * n && self@.y
                * one == self@.y * n) by (nonlinear_arith)
                requires
                    one == n,
            ;
        }
        self.x = self.x * SUBBLOCK_COUNT - digit_x * UNIT;
        self.y = self.y * SUBBLOCK_COUNT - digit_y * UNIT;
        self.block.zoom_in(digit_x as i32, digit_y as i32);
    }

    /// Changes the total zoom, which is the depth plus the zoom level, by
    /// `diff` `UNIT`ths of a level, and does not let it fall below 0. The
    /// whole levels of the new total become the depth: the address loses
    /// or gains digits, and the position is taken in the new block each
    /// time. The fraction becomes the zoom level.
    pub fn zoom(&mut self, diff: i64)
        requires
            old(self)@.wf(),
        ensures
            final(self)@.wf(),
            final(self)@ == old(self)@.zoomed(diff as int),
    {
        let ghost start = self@;
        let depth = self.block.depth();
        let (whole, part) = split_units(diff);
        let (extra, level) = split_units(self.zoom_level + part);
        let change: i64 = whole + extra;
        proof {
            let total = start.total_zoom() + diff;
            assert(total == (depth + change) * UNIT + level);
            if depth + change >= 0 {
                lemma_fundamental_div_mod_converse(total, UNIT as int, depth + change, level as int);
            }
        }
        if change < 0 {
            let wanted: u64 = (0 - change) as u64;
            let mut steps: usize = depth;
            let mut new_level: i64 = 0;
            if wanted <= depth as u64 {
                steps = wanted as usize;
                new_level = level;
            }
            self.zoom_level = new_level;
            proof {
                lemma_coarsened_zero(start);
            }
            let mut done: usize = 0;
            while done < steps
                invariant
                    done <= steps <= start.address.len(),
                    self@.wf(),
                    self@ == start.coarsened(done as nat).with_zoom_level(new_level as int),
                decreases steps - done,
            {
                proof {
                    lemma_coarsened_step(start, done as nat);
                }
                self.step_out();
                done += 1;
            }
        } else {
            self.zoom_level = level;
            proof {
                lemma_coarsened_zero(start);
            }
            let mut done: i64 = 0;
            while done < change
                invariant
                    0 <= done <= change,
                    self@.wf(),
                    done == 0 ==> self@ == start.with_zoom_level(level as int),
                    done > 0 ==> self@ == start.magnified(done as nat).with_zoom_level(level as int),
                decreases change - done,
            {
                proof {
                    lemma_magnified_step(start, done as nat);
                }
                self.step_in();
                done += 1;
            }
        }
    }
}

} // verus!
