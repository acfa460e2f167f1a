//! What holds of navigation as a whole: moves add up and can be undone,
//! names follow the digits, and a view stays well formed.

use vstd::prelude::*;
use vstd::arithmetic::div_mod::{
    lemma_fundamental_div_mod,
    lemma_fundamental_div_mod_converse,
    lemma_mod_bound,
    lemma_small_mod,
};
use vstd::arithmetic::power::pow;
use crate::block_address::{
    address_of,
    canonical,
    lemma_address_of,
    lemma_address_of_congruent,
    lemma_address_of_numbers,
    lemma_canonical_axes,
    shifted,
    xs,
    ys,
    BlockAddress,
};
use crate::identity::{
    digest_of,
    digit_byte,
    lemma_digit_byte_tells_apart,
    lemma_mixed_tells_apart,
    name_of,
};
use crate::radix::{
    is_digit,
    lemma_div_mod_shift,
    lemma_number_bounds,
    lemma_number_concat,
    lemma_place_value,
    lemma_place_value_adds,
    number,
    place_value,
    SUBBLOCK_COUNT,
};
use crate::view_position::{lemma_coarsened_zero, ViewState, UNIT};

verus! {

/// The address after `times` moves by `(dx, dy)` each.
pub open spec fn shifted_times(a: Seq<(i32, i32)>, dx: int, dy: int, times: nat) -> Seq<(i32, i32)>
    decreases times,
{
    if times == 0 {
        a
    } else {
        shifted(shifted_times(a, dx, dy, (times - 1) as nat), dx, dy)
    }
}

/// A move keeps the depth and leaves a canonical address.
pub proof fn law_shifted_canonical(a: Seq<(i32, i32)>, dx: int, dy: int)
    ensures
        shifted(a, dx, dy).len() == a.len(),
        canonical(shifted(a, dx, dy)),
{
    lemma_address_of(a.len(), number(xs(a)) + dx, number(ys(a)) + dy);
}

/// Two moves in a row are one move by their sum, whatever was carried or
/// dropped on the way.
pub proof fn law_offsets_add(a: Seq<(i32, i32)>, dx1: int, dy1: int, dx2: int, dy2: int)
    ensures
        shifted(shifted(a, dx1, dy1), dx2, dy2) == shifted(a, dx1 + dx2, dy1 + dy2),
{
    let len = a.len();
    let span = place_value(len);
    let vx = number(xs(a)) + dx1;
    let vy = number(ys(a)) + dy1;
    lemma_place_value(len);
    lemma_address_of(len, vx, vy);
    lemma_fundamental_div_mod(vx, span);
    lemma_fundamental_div_mod(vy, span);
    lemma_address_of_congruent(len, vx + dx2, vy + dy2, -(vx / span), -(vy / span));
    assert(vx % span + dx2 == vx + dx2 + (-(vx / span)) * span) by (nonlinear_arith)
        requires
            vx == span * (vx / span) + vx % span,
    ;
    assert(vy % span + dy2 == vy + dy2 + (-(vy / span)) * span) by (nonlinear_arith)
        requires
            vy == span * (vy / span) + vy % span,
    ;
}

/// A move by nothing leaves a canonical address as it is.
pub proof fn law_offset_zero(a: Seq<(i32, i32)>)
    requires
        canonical(a),
    ensures
        shifted(a, 0, 0) == a,
{
    lemma_address_of_numbers(a);
}

/// A move followed by the opposite move restores the digits exactly, also
/// where the first move left the span of the address and lost its carry.
pub proof fn law_offset_round_trip(a: Seq<(i32, i32)>, dx: int, dy: int)
    requires
        canonical(a),
    ensures
        shifted(shifted(a, dx, dy), -dx, -dy) == a,
{
    law_offsets_add(a, dx, dy, -dx, -dy);
    law_offset_zero(a);
}

/// Equal steps add up to one move by their multiple.
pub proof fn law_steps_add_up(a: Seq<(i32, i32)>, dx: int, dy: int, times: nat)
    requires
        canonical(a),
    ensures
        shifted_times(a, dx, dy, times) == shifted(a, times * dx, times * dy),
    decreases times,
{
    if times == 0 {
        law_offset_zero(a);
        assert(0 * dx == 0 && 0 * dy == 0) by (nonlinear_arith);
    } else {
        let before = (times - 1) as nat;
        law_steps_add_up(a, dx, dy, before);
        law_offsets_add(a, before * dx, before * dy, dx, dy);
        assert(before * dx + dx == times * dx && before * dy + dy == times * dy)
            by (nonlinear_arith)
            requires
                before + 1 == times,
        ;
    }
}

/// One move by a whole block of the next coarser level is the same as
/// `SUBBLOCK_COUNT` single steps.
pub proof fn law_carry_distributes(a: Seq<(i32, i32)>)
    requires
        canonical(a),
    ensures
        shifted(a, SUBBLOCK_COUNT as int, 0) == shifted_times(a, 1, 0, SUBBLOCK_COUNT as nat),
        shifted(a, 0, SUBBLOCK_COUNT as int) == shifted_times(a, 0, 1, SUBBLOCK_COUNT as nat),
{
    law_steps_add_up(a, 1, 0, SUBBLOCK_COUNT as nat);
    law_steps_add_up(a, 0, 1, SUBBLOCK_COUNT as nat);
}

/// Blocks with the same digits have the same name.
pub proof fn law_same_digits_same_name(a: BlockAddress, b: BlockAddress)
    requires
        a@ == b@,
    ensures
        name_of(a@) == name_of(b@),
{
}

/// Addresses of one depth that differ in exactly one digit have different
/// digests.
pub proof fn law_digest_tells_one_digit_apart(a: Seq<(i32, i32)>, b: Seq<(i32, i32)>, at: int)
    requires
        canonical(a),
        canonical(b),
        a.len() == b.len(),
        0 <= at < a.len(),
        a[at] != b[at],
        forall|i: int| 0 <= i < a.len() && i != at ==> a[i] == b[i],
    ensures
        digest_of(a) != digest_of(b),
    decreases a.len(),
{
    let last = a.len() - 1;
    assert(is_digit(a[last].0 as int) && is_digit(a[last].1 as int));
    assert(is_digit(b[last].0 as int) && is_digit(b[last].1 as int));
    if at == last {
        assert(a.drop_last() =~= b.drop_last());
        lemma_digit_byte_tells_apart(a.last(), b.last());
    } else {
        let a0 = a.drop_last();
        let b0 = b.drop_last();
        assert forall|i: int| 0 <= i < a0.len() implies is_digit((#[trigger] a0[i]).0 as int)
            && is_digit(a0[i].1 as int) by {
            assert(a0[i] == a[i]);
        }
        assert forall|i: int| 0 <= i < b0.len() implies is_digit((#[trigger] b0[i]).0 as int)
            && is_digit(b0[i].1 as int) by {
            assert(b0[i] == b[i]);
        }
        assert forall|i: int| 0 <= i < a0.len() && i != at implies a0[i] == b0[i] by {
            assert(a0[i] == a[i] && b0[i] == b[i]);
        }
        assert(a0[at] == a[at] && b0[at] == b[at]);
        law_digest_tells_one_digit_apart(a0, b0, at);
    }
    lemma_mixed_tells_apart(
        digest_of(a.drop_last()),
        digit_byte(a.last()),
        digest_of(b.drop_last()),
        digit_byte(b.last()),
    );
}

/// The name depends on where a path ends, not on the path: moving away and
/// back gives the name of the start, and two moves give the name that one
/// move by their sum gives.
pub proof fn law_name_ignores_path(a: Seq<(i32, i32)>, dx1: int, dy1: int, dx2: int, dy2: int)
    requires
        canonical(a),
    ensures
        name_of(shifted(shifted(a, dx1, dy1), -dx1, -dy1)) == name_of(a),
        name_of(shifted(shifted(a, dx1, dy1), dx2, dy2)) == name_of(shifted(a, dx1 + dx2, dy1 + dy2)),
{
    law_offset_round_trip(a, dx1, dy1);
    law_offsets_add(a, dx1, dy1, dx2, dy2);
}

/// The number of digits of the radix that a position holds: `UNIT` is the
/// weight of the place after them.
pub const POSITION_DIGITS: u32 = 9;

pub proof fn lemma_unit_place()
    ensures
        place_value(POSITION_DIGITS as nat) == UNIT,
{
    reveal_with_fuel(pow, 10);
}

/// A pan leaves a view well formed, with the position short of the far
/// edge of its block.
pub proof fn law_panned_wf(s: ViewState, dx: int, dy: int)
    requires
        s.wf(),
    ensures
        s.panned(dx, dy).wf(),
        s.panned(dx, dy).address.len() == s.address.len(),
        s.panned(dx, dy).x < UNIT,
        s.panned(dx, dy).y < UNIT,
{
    law_shifted_canonical(s.address, (s.x + dx) / (UNIT as int), (s.y + dy) / (UNIT as int));
}

/// A pan followed by the opposite pan restores the view exactly, where the
/// position is short of the far edge of its block.
pub proof fn law_pan_round_trip(s: ViewState, dx: int, dy: int)
    requires
        s.wf(),
        s.x < UNIT,
        s.y < UNIT,
    ensures
        s.panned(dx, dy).panned(-dx, -dy) == s,
{
    let unit = UNIT as int;
    let p = s.panned(dx, dy);
    let qx = (s.x + dx) / unit;
    let qy = (s.y + dy) / unit;
    law_offsets_add(s.address, qx, qy, -qx, -qy);
    law_offset_zero(s.address);
    assert(p.panned(-dx, -dy).address =~= s.address);
}

/// Steps towards the root leave a view well formed.
pub proof fn law_coarsened_wf(s: ViewState, levels: nat)
    requires
        s.wf(),
        levels <= s.address.len(),
    ensures
        s.coarsened(levels).wf(),
        s.coarsened(levels).address.len() == s.address.len() - levels,
        s.x < UNIT ==> s.coarsened(levels).x < UNIT,
        s.y < UNIT ==> s.coarsened(levels).y < UNIT,
{
    let a = s.address;
    let keep = a.len() - levels;
    let c = s.coarsened(levels);
    assert forall|i: int| 0 <= i < c.address.len() implies is_digit((#[trigger] c.address[i]).0 as int)
        && is_digit(c.address[i].1 as int) by {
        assert(c.address[i] == a[i]);
    }
    let low = a.skip(keep);
    assert forall|i: int| 0 <= i < low.len() implies is_digit((#[trigger] low[i]).0 as int)
        && is_digit(low[i].1 as int) by {
        assert(low[i] == a[keep + i]);
    }
    lemma_canonical_axes(low);
    lemma_number_bounds(xs(low));
    lemma_number_bounds(ys(low));
    lemma_fraction_bounds(number(xs(low)), s.x, levels);
    lemma_fraction_bounds(number(ys(low)), s.y, levels);
}

/// Digits followed by a position, read as one fraction of the coarser
/// block, lie inside that block.
proof fn lemma_fraction_bounds(whole: int, x: int, levels: nat)
    requires
        0 <= whole < place_value(levels),
        0 <= x <= UNIT,
    ensures
        0 <= (whole * UNIT + x) / place_value(levels) <= UNIT,
        x < UNIT ==> (whole * UNIT + x) / place_value(levels) < UNIT,
{
    let scale = place_value(levels);
    let unit = UNIT as int;
    let q = (whole * unit + x) / scale;
    lemma_place_value(levels);
    lemma_fundamental_div_mod(whole * unit + x, scale);
    lemma_mod_bound(whole * unit + x, scale);
    assert(0 <= q <= unit && (x < unit ==> q < unit)) by (nonlinear_arith)
        requires
            0 <= whole < scale,
            0 <= x <= unit,
            whole * unit + x == scale * q + (whole * unit + x) % scale,
            0 <= (whole * unit + x) % scale < scale,
    ;
}

/// Steps away from the root leave a view well formed, with the position
/// short of the far edge of its block.
pub proof fn law_magnified_wf(s: ViewState, levels: nat)
    requires
        s.wf(),
    ensures
        s.magnified(levels).wf(),
        s.magnified(levels).address.len() == s.address.len() + levels,
        s.magnified(levels).x < UNIT,
        s.magnified(levels).y < UNIT,
{
    let scale = place_value(levels);
    lemma_address_of(
        s.address.len() + levels,
        number(xs(s.address)) * scale + (s.x * scale) / (UNIT as int),
        number(ys(s.address)) * scale + (s.y * scale) / (UNIT as int),
    );
}

/// After a zoom the depth and the zoom level are the whole levels and the
/// fraction of the new total zoom, which differs from the old one by `diff`
/// unless that would take it below the root. This is what keeps the zoom
/// continuous where the depth changes.
pub proof fn law_zoomed_total(s: ViewState, diff: int)
    requires
        s.wf(),
    ensures
        s.zoomed(diff).wf(),
        s.zoomed(diff).total_zoom() == s.clamped_zoom(diff),
        s.zoomed(diff).address.len() == s.clamped_zoom(diff) / (UNIT as int),
        s.zoomed(diff).zoom_level == s.clamped_zoom(diff) % (UNIT as int),
        s.x < UNIT ==> s.zoomed(diff).x < UNIT,
        s.y < UNIT ==> s.zoomed(diff).y < UNIT,
{
    let unit = UNIT as int;
    let total = s.clamped_zoom(diff);
    let depth = total / unit;
    lemma_fundamental_div_mod(total, unit);
    if depth <= s.address.len() {
        law_coarsened_wf(s, (s.address.len() - depth) as nat);
    } else {
        law_magnified_wf(s, (depth - s.address.len()) as nat);
    }
}

/// An address of `levels` more digits whose new digits spell `(qx, qy)` is
/// the old address followed by the address of `(qx, qy)`.
proof fn lemma_address_extended(a: Seq<(i32, i32)>, levels: nat, qx: int, qy: int)
    requires
        canonical(a),
        0 <= qx < place_value(levels),
        0 <= qy < place_value(levels),
    ensures
        address_of(
            a.len() + levels,
            number(xs(a)) * place_value(levels) + qx,
            number(ys(a)) * place_value(levels) + qy,
        ) == a + address_of(levels, qx, qy),
        number(xs(address_of(levels, qx, qy))) == qx,
        number(ys(address_of(levels, qx, qy))) == qy,
{
    let tail = address_of(levels, qx, qy);
    let whole = a + tail;
    lemma_address_of(levels, qx, qy);
    lemma_small_mod(qx as nat, place_value(levels) as nat);
    lemma_small_mod(qy as nat, place_value(levels) as nat);
    assert forall|i: int| 0 <= i < whole.len() implies is_digit((#[trigger] whole[i]).0 as int)
        && is_digit(whole[i].1 as int) by {
        if i < a.len() {
            assert(whole[i] == a[i]);
        } else {
            assert(whole[i] == tail[i - a.len()]);
        }
    }
    assert(xs(whole) =~= xs(a) + xs(tail));
    assert(ys(whole) =~= ys(a) + ys(tail));
    lemma_number_concat(xs(a), xs(tail));
    lemma_number_concat(ys(a), ys(tail));
    lemma_address_of_numbers(whole);
}

/// Along one axis: a position scaled up by `levels` places and divided
/// again is the position, where it is short of a whole block.
proof fn lemma_scaled_back(x: int, levels: nat)
    requires
        0 <= x < UNIT,
    ensures
        0 <= (x * place_value(levels)) / (UNIT as int) < place_value(levels),
        (((x * place_value(levels)) / (UNIT as int)) * UNIT + (x * place_value(levels)) % (UNIT as int))
            / place_value(levels) == x,
{
    let unit = UNIT as int;
    let scale = place_value(levels);
    let q = (x * scale) / unit;
    let r = (x * scale) % unit;
    lemma_place_value(levels);
    lemma_fundamental_div_mod(x * scale, unit);
    lemma_mod_bound(x * scale, unit);
    assert(0 <= q < scale) by (nonlinear_arith)
        requires
            0 <= x < unit,
            scale > 0,
            x * scale == unit * q + r,
            0 <= r < unit,
    ;
    assert(q * unit + r == 0 + x * scale) by (nonlinear_arith)
        requires
            x * scale == unit * q + r,
    ;
    lemma_div_mod_shift(0, x, scale);
}

/// Steps away from the root and as many back restore the view exactly,
/// where the position is short of the far edge of its block.
pub proof fn law_magnified_then_coarsened(s: ViewState, levels: nat)
    requires
        s.wf(),
        s.x < UNIT,
        s.y < UNIT,
    ensures
        s.magnified(levels).coarsened(levels) == s,
{
    let unit = UNIT as int;
    let a = s.address;
    let scale = place_value(levels);
    let qx = (s.x * scale) / unit;
    let qy = (s.y * scale) / unit;
    let m = s.magnified(levels);
    lemma_scaled_back(s.x, levels);
    lemma_scaled_back(s.y, levels);
    lemma_address_extended(a, levels, qx, qy);
    let tail = address_of(levels, qx, qy);
    lemma_address_of(levels, qx, qy);
    assert(m.address == a + tail);
    assert(m.address.take(a.len() as int) =~= a);
    assert(m.address.skip(a.len() as int) =~= tail);
    assert(m.address.len() - levels == a.len());
}

/// Along one axis: digits folded into a position and unfolded again come
/// back as they were, and the position loses what lies below the place
/// that the folding rounded to. `levels` is at most `POSITION_DIGITS`.
proof fn lemma_folded_back(whole: int, x: int, levels: nat)
    requires
        0 <= whole < place_value(levels),
        0 <= x < UNIT,
        levels <= POSITION_DIGITS,
    ensures
        ({
            let folded = (whole * UNIT + x) / place_value(levels);
            &&& (folded * place_value(levels)) / (UNIT as int) == whole
            &&& (folded * place_value(levels)) % (UNIT as int) == x - x % place_value(levels)
        }),
{
    let unit = UNIT as int;
    let scale = place_value(levels);
    let rest = place_value((POSITION_DIGITS - levels) as nat);
    let folded = (whole * unit + x) / scale;
    lemma_unit_place();
    lemma_place_value(levels);
    lemma_place_value_adds(levels, (POSITION_DIGITS - levels) as nat);
    assert(unit == scale * rest);
    assert(whole * unit + x == x + (whole * rest) * scale) by (nonlinear_arith)
        requires
            unit == scale * rest,
    ;
    lemma_div_mod_shift(x, whole * rest, scale);
    lemma_fundamental_div_mod(x, scale);
    lemma_mod_bound(x, scale);
    assert(folded * scale == whole * unit + (x - x % scale)) by (nonlinear_arith)
        requires
            folded == x / scale + whole * rest,
            unit == scale * rest,
            x == scale * (x / scale) + x % scale,
    ;
    lemma_fundamental_div_mod_converse(folded * scale, unit, whole, x - x % scale);
}

/// Steps towards the root and as many back restore the address exactly.
/// The position comes back rounded down to a multiple of the weight of
/// `levels` places: that much a position cannot hold next to the digits
/// folded into it. Holds for up to `POSITION_DIGITS` levels and a position
/// short of the far edge of its block.
pub proof fn law_coarsened_then_magnified(s: ViewState, levels: nat)
    requires
        s.wf(),
        s.x < UNIT,
        s.y < UNIT,
        levels <= s.address.len(),
        levels <= POSITION_DIGITS,
    ensures
        s.coarsened(levels).magnified(levels) == (ViewState {
            x: s.x - s.x % place_value(levels),
            y: s.y - s.y % place_value(levels),
            ..s
        }),
{
    let a = s.address;
    let keep = a.len() - levels;
    let high = a.take(keep);
    let low = a.skip(keep);
    let c = s.coarsened(levels);
    assert forall|i: int| 0 <= i < low.len() implies is_digit((#[trigger] low[i]).0 as int)
        && is_digit(low[i].1 as int) by {
        assert(low[i] == a[keep + i]);
    }
    lemma_canonical_axes(low);
    lemma_number_bounds(xs(low));
    lemma_number_bounds(ys(low));
    lemma_folded_back(number(xs(low)), s.x, levels);
    lemma_folded_back(number(ys(low)), s.y, levels);
    assert(a =~= high + low);
    assert(xs(a) =~= xs(high) + xs(low));
    assert(ys(a) =~= ys(high) + ys(low));
    lemma_number_concat(xs(high), xs(low));
    lemma_number_concat(ys(high), ys(low));
    lemma_address_of_numbers(a);
    assert(c.address.len() + levels == a.len());
}

/// A zoom followed by the opposite zoom restores the depth, the address
/// and the zoom level exactly, where the first zoom was not held at the
/// root. The position is restored exactly after zooming in first; after
/// zooming out first by `levels` levels it comes back rounded down to a
/// multiple of the weight of `levels` places, so it is off by less than
/// that many units. Holds for a position short of the far edge of its
/// block and a zoom out by at most `POSITION_DIGITS` levels.
pub proof fn law_zoom_round_trip(s: ViewState, diff: int)
    requires
        s.wf(),
        s.x < UNIT,
        s.y < UNIT,
        s.total_zoom() + diff >= 0,
        s.address.len() - (s.total_zoom() + diff) / (UNIT as int) <= POSITION_DIGITS,
    ensures
        ({
            let depth = (s.total_zoom() + diff) / (UNIT as int);
            let levels = if depth < s.address.len() {
                (s.address.len() - depth) as nat
            } else {
                0nat
            };
            s.zoomed(diff).zoomed(-diff) == (ViewState {
                x: s.x - s.x % place_value(levels),
                y: s.y - s.y % place_value(levels),
                ..s
            })
        }),
{
    let unit = UNIT as int;
    let len = s.address.len();
    let total = s.total_zoom() + diff;
    let depth = total / unit;
    let z = s.zoomed(diff);
    law_zoomed_total(s, diff);
    lemma_fundamental_div_mod(total, unit);
    lemma_fundamental_div_mod_converse(z.total_zoom() - diff, unit, len as int, s.zoom_level);
    lemma_place_value(0);
    if depth < len {
        let levels = (len - depth) as nat;
        law_coarsened_then_magnified(s, levels);
        assert(z.magnified(levels) == s.coarsened(levels).magnified(levels).with_zoom_level(
            z.zoom_level,
        ));
    } else {
        let levels = (depth - len) as nat;
        if levels == 0 {
            lemma_coarsened_zero(s);
            lemma_coarsened_zero(z);
        } else {
            law_magnified_then_coarsened(s, levels);
            assert(z.coarsened(levels) == s.magnified(levels).coarsened(levels).with_zoom_level(
                z.zoom_level,
            ));
        }
    }
}

} // verus!
