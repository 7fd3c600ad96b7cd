//! Bars of text blocks.

use crate::double::{
    at_most, clamped, counts_are_finite, cut, cuts_grow, fractions_are_close, half_away, is_amount,
    less, multiples_round_to_the_nearest, one_has_many_steps, over, products_grow, quotients_grow,
    ratio_value, rounding_keeps_order, steps_of, times, whole_numbers_are_exact,
    whole_numbers_divide, whole_numbers_grow, whole_numbers_stay_whole, whole_products_are_exact,
    wholes_grow, zero_is_least, zero_over, zero_stays_zero, Double, Value,
};
use vstd::arithmetic::power2::{lemma_pow2_pos, pow2};
use vstd::prelude::*;

verus! {

/// How a bar looks.
#[derive(Debug, Clone, Copy, PartialEq, Eq)]
pub struct Theme {
    /// The background of the part that is not filled.
    pub empty_bg: [u8; 4],
}

/// An orange square.
const FULL: char = '🟧';

const EMPTY: char = '░';

/// How many of `width` cells are filled at `fraction`.
pub open spec fn filled_cells(fraction: Value, width: nat) -> nat {
    let f = clamped(fraction, ratio_value(0, 1), ratio_value(1, 1));
    let n = cut(half_away(times(f, ratio_value(width, 1))), 0, u64::MAX as int);
    if n > width {
        width
    } else {
        n as nat
    }
}

/// A bar of `width` cells, filled up to `fraction`.
pub open spec fn bar(fraction: Value, width: nat) -> Seq<char> {
    Seq::new(
        width,
        |i: int|
            if i < filled_cells(fraction, width) {
                '🟧'
            } else {
                '░'
            },
    )
}

/// How many of `width` cells are filled at `fraction`.
fn cells(fraction: Double, width: usize) -> (r: usize)
    ensures
        r == filled_cells(fraction@, width as nat),
{
    let f = fraction.clamp(Double::ratio(0, 1), Double::ratio(1, 1));
    let filled: u64 = f.mul(Double::from_u64(width as u64)).round().to_u64();
    if filled >= width as u64 {
        width
    } else {
        filled as usize
    }
}

/// A bar of `width` cells, filled up to `fraction`, which is held between 0 and
/// 1.
pub fn render_bar(fraction: Double, width: usize) -> (r: String)
    ensures
        r@ == bar(fraction@, width as nat),
{
    let filled: usize = cells(fraction, width);
    let mut out = String::new();
    let mut i: usize = 0;
    while i < width
        invariant
            i <= width,
            filled == filled_cells(fraction@, width as nat),
            out@ =~= bar(fraction@, width as nat).take(i as int),
        decreases width - i,
    {
        if i < filled {
            out.push(FULL);
        } else {
            out.push(EMPTY);
        }
        i = i + 1;
    }
    assert(out@ =~= bar(fraction@, width as nat));
    out
}

/// The size of a bar that is drawn, in pixels.
pub const CANVAS_W: u32 = 120;

pub const CANVAS_H: u32 = 16;

/// A colour without transparency.
pub open spec fn opaque(color: Seq<u8>) -> Seq<u8> {
    color.push(255)
}

/// A picture whose pixels have the colour of their column, row by row, four
/// bytes each.
pub open spec fn picture(columns: Seq<Seq<u8>>, height: nat) -> Seq<u8> {
    Seq::new(
        4 * columns.len() * height,
        |i: int| columns[(i / 4) % columns.len() as int][i % 4],
    )
}

/// The columns of a bar of one colour, filled up to `fraction`.
pub open spec fn solid_columns(fraction: Value, color: Seq<u8>, empty: Seq<u8>) -> Seq<Seq<u8>> {
    Seq::new(
        120,
        |x: int|
            if x < filled_cells(fraction, 120) {
                opaque(color)
            } else {
                empty
            },
    )
}

/// The first `k` counts together.
pub open spec fn first_counts(segments: Seq<(u64, [u8; 3])>, k: int) -> nat
    decreases k,
{
    if k <= 0 {
        0
    } else {
        first_counts(segments, k - 1) + segments[k - 1].0 as nat
    }
}

/// Where segment `k` of a bar of segments begins, `basis` filling the bar.
pub open spec fn segment_start(segments: Seq<(u64, [u8; 3])>, basis: nat, k: int) -> nat {
    filled_cells(over(ratio_value(first_counts(segments, k), 1), ratio_value(basis, 1)), 120)
}

/// The colour of column `x` of a bar of segments, as far as the first `k` of
/// them go: that of the segment that it lies in.
pub open spec fn segment_color(
    segments: Seq<(u64, [u8; 3])>,
    basis: nat,
    empty: Seq<u8>,
    x: int,
    k: int,
) -> Seq<u8>
    decreases k,
{
    if k <= 0 {
        empty
    } else if segment_start(segments, basis, k - 1) <= x < segment_start(segments, basis, k) {
        opaque(segments[k - 1].1@)
    } else {
        segment_color(segments, basis, empty, x, k - 1)
    }
}

/// The columns of a bar of segments.
pub open spec fn stacked_columns(segments: Seq<(u64, [u8; 3])>, basis: nat, empty: Seq<u8>) -> Seq<
    Seq<u8>,
> {
    Seq::new(120, |x: int| segment_color(segments, basis, empty, x, segments.len() as int))
}

pub open spec fn pixels_of(v: Seq<[u8; 4]>) -> Seq<Seq<u8>> {
    v.map_values(|p: [u8; 4]| p@)
}

/// A picture of `height` rows whose pixels have the colour of their column.
fn paint(columns: &Vec<[u8; 4]>, height: usize) -> (r: Vec<u8>)
    requires
        columns.len() == 120,
        height <= 120,
    ensures
        r@ == picture(pixels_of(columns@), height as nat),
{
    let ghost all = picture(pixels_of(columns@), height as nat);
    let ghost n = pixels_of(columns@).len();
    assert(4 * n * height == 480 * height) by (nonlinear_arith)
        requires
            n == 120,
    ;
    let mut out: Vec<u8> = Vec::new();
    let mut y: usize = 0;
    while y < height
        invariant
            y <= height,
            height <= 120,
            columns.len() == 120,
            all == picture(pixels_of(columns@), height as nat),
            all.len() == 480 * height,
            out.len() == 480 * y,
            out@ =~= all.take(480 * y),
        decreases height - y,
    {
        let mut x: usize = 0;
        while x < 120
            invariant
                x <= 120,
                y < height,
                height <= 120,
                columns.len() == 120,
                all == picture(pixels_of(columns@), height as nat),
                all.len() == 480 * height,
                out.len() == 480 * y + 4 * x,
                out@ =~= all.take(480 * y + 4 * x),
            decreases 120 - x,
        {
            let p: [u8; 4] = columns[x];
            let ghost at = 480 * y + 4 * x;
            proof {
                assert(pixels_of(columns@)[x as int] == p@);
                assert forall|c: int| 0 <= c < 4 implies #[trigger] all[at + c] == p@[c] by {
                    assert((at + c) / 4 == 120 * y + x);
                    assert((at + c) % 4 == c);
                    assert((120 * y + x) % 120 == x);
                }
                assert(all[at + 0] == p@[0] && all[at + 1] == p@[1] && all[at + 2] == p@[2]
                    && all[at + 3] == p@[3]);
            }
            out.push(p[0]);
            out.push(p[1]);
            out.push(p[2]);
            out.push(p[3]);
            x = x + 1;
        }
        y = y + 1;
    }
    assert(all.take(480 * height) =~= all);
    out
}

/// A bar of one colour, filled up to `fraction`, as the bytes of a picture.
pub fn render_solid_bar_rgba(fraction: Double, color: [u8; 3], theme: &Theme) -> (r: Vec<u8>)
    ensures
        r@ == picture(solid_columns(fraction@, color@, theme.empty_bg@), 16),
{
    let filled: usize = cells(fraction, CANVAS_W as usize);
    let full: [u8; 4] = [color[0], color[1], color[2], 255];
    assert(full@ =~= opaque(color@));
    let mut columns: Vec<[u8; 4]> = Vec::new();
    let ghost all = solid_columns(fraction@, color@, theme.empty_bg@);
    let mut x: usize = 0;
    while x < 120
        invariant
            x <= 120,
            filled == filled_cells(fraction@, 120),
            full@ == opaque(color@),
            all == solid_columns(fraction@, color@, theme.empty_bg@),
            columns.len() == x,
            pixels_of(columns@) =~= all.take(x as int),
        decreases 120 - x,
    {
        let ghost before = columns@;
        if x < filled {
            columns.push(full);
        } else {
            columns.push(theme.empty_bg);
        }
        assert(pixels_of(columns@) =~= pixels_of(before).push(all[x as int]));
        x = x + 1;
    }
    assert(all.take(120) =~= all);
    paint(&columns, CANVAS_H as usize)
}

/// A bar of segments side by side, each as long as its part of `basis`, as the
/// bytes of a picture.
pub fn render_bar_rgba(segments: &[(u64, [u8; 3])], basis: u64, theme: &Theme) -> (r: Vec<u8>)
    requires
        first_counts(segments@, segments@.len() as int) <= u64::MAX,
    ensures
        r@ == picture(stacked_columns(segments@, basis as nat, theme.empty_bg@), 16),
{
    let ghost all = stacked_columns(segments@, basis as nat, theme.empty_bg@);
    let n: usize = segments.len();
    let mut starts: Vec<usize> = Vec::new();
    let mut sum: u64 = 0;
    let whole = Double::from_u64(basis);
    starts.push(cells(Double::from_u64(0).div(whole), CANVAS_W as usize));
    let mut k: usize = 0;
    while k < n
        invariant
            k <= n,
            n == segments@.len(),
            first_counts(segments@, n as int) <= u64::MAX,
            sum == first_counts(segments@, k as int),
            whole@ == ratio_value(basis as nat, 1),
            starts.len() == k + 1,
            forall|j: int|
                0 <= j <= k ==> #[trigger] starts@[j] == segment_start(
                    segments@,
                    basis as nat,
                    j,
                ),
        decreases n - k,
    {
        proof {
            lemma_first_counts(segments@, k + 1, n as int);
        }
        sum = sum + segments[k].0;
        starts.push(cells(Double::from_u64(sum).div(whole), CANVAS_W as usize));
        k = k + 1;
    }
    let mut columns: Vec<[u8; 4]> = Vec::new();
    let mut x: usize = 0;
    while x < 120
        invariant
            x <= 120,
            n == segments@.len(),
            starts.len() == n + 1,
            forall|j: int|
                0 <= j <= n ==> #[trigger] starts@[j] == segment_start(
                    segments@,
                    basis as nat,
                    j,
                ),
            all == stacked_columns(segments@, basis as nat, theme.empty_bg@),
            columns.len() == x,
            pixels_of(columns@) =~= all.take(x as int),
        decreases 120 - x,
    {
        let ghost before = columns@;
        let mut color: [u8; 4] = theme.empty_bg;
        let mut j: usize = 0;
        while j < n
            invariant
                j <= n,
                x < 120,
                n == segments@.len(),
                starts.len() == n + 1,
                forall|i: int|
                    0 <= i <= n ==> #[trigger] starts@[i] == segment_start(
                        segments@,
                        basis as nat,
                        i,
                    ),
                color@ == segment_color(
                    segments@,
                    basis as nat,
                    theme.empty_bg@,
                    x as int,
                    j as int,
                ),
            decreases n - j,
        {
            assert(starts@[j as int] == segment_start(segments@, basis as nat, j as int));
            assert(starts@[j + 1] == segment_start(segments@, basis as nat, j + 1));
            if starts[j] <= x && x < starts[j + 1] {
                let c: [u8; 3] = segments[j].1;
                color = [c[0], c[1], c[2], 255];
                assert(color@ =~= opaque(c@));
            }
            j = j + 1;
        }
        columns.push(color);
        assert(pixels_of(columns@) =~= pixels_of(before).push(all[x as int]));
        x = x + 1;
    }
    assert(all.take(120) =~= all);
    paint(&columns, CANVAS_H as usize)
}

proof fn lemma_first_counts(segments: Seq<(u64, [u8; 3])>, a: int, b: int)
    requires
        a <= b,
    ensures
        first_counts(segments, a) <= first_counts(segments, b),
    decreases b - a,
{
    if a < b {
        lemma_first_counts(segments, a, b - 1);
    }
}

/// The segments of a bar lie side by side: each begins where the one before it
/// ends.
pub proof fn segments_lie_in_order(segments: Seq<(u64, [u8; 3])>, basis: nat, k: int)
    requires
        0 <= k < segments.len(),
        0 < basis <= u64::MAX,
        first_counts(segments, segments.len() as int) <= u64::MAX,
    ensures
        segment_start(segments, basis, k) <= segment_start(segments, basis, k + 1) <= 120,
        segment_start(segments, basis, 0) == 0,
{
    lemma_first_counts(segments, k + 1, segments.len() as int);
    let (a, b) = (first_counts(segments, k), first_counts(segments, k + 1));
    counts_are_finite(basis);
    whole_numbers_grow(a, b);
    quotients_grow(ratio_value(a, 1), ratio_value(b, 1), ratio_value(basis, 1));
    let w = ratio_value(basis, 1);
    larger_fractions_fill_no_fewer_cells(
        over(ratio_value(a, 1), w),
        over(ratio_value(b, 1), w),
        120,
    );
    zero_over(w);
    zero_is_least(1, 1);
    whole_numbers_are_exact(0);
    whole_numbers_are_exact(1);
    counts_are_finite(120);
    zero_stays_zero(over(ratio_value(0, 1), w), ratio_value(120, 1), u64::MAX as int);
}

/// A fraction above 1 fills the bar as 1 does, and one below 0 as 0 does.
pub proof fn fractions_are_held(fraction: Value, width: nat)
    ensures
        less(ratio_value(1, 1), fraction) ==> bar(fraction, width) == bar(ratio_value(1, 1), width),
        less(fraction, ratio_value(0, 1)) ==> bar(fraction, width) == bar(ratio_value(0, 1), width),
{
    zero_is_least(1, 1);
    zero_is_least(0, 1);
}

/// A quota that is used up fills the bar; one that is untouched, or of which
/// nothing is known, leaves it empty.
pub proof fn full_and_empty_bars(width: nat)
    requires
        width < 0x20_0000_0000_0000,
    ensures
        bar(ratio_value(1, 1), width) == Seq::new(width, |i: int| '🟧'),
        bar(ratio_value(0, 1), width) == Seq::new(width, |i: int| '░'),
        bar(Value::Nan, width) == Seq::new(width, |i: int| '░'),
{
    zero_is_least(1, 1);
    zero_is_least(0, 1);
    whole_products_are_exact(1, width);
    whole_products_are_exact(0, width);
    assert(1 * width == width && 0 * width == 0) by (nonlinear_arith);
    whole_numbers_stay_whole(width);
    whole_numbers_stay_whole(0);
    whole_numbers_are_exact(width);
    whole_numbers_are_exact(0);
    whole_numbers_are_exact(1);
    assert(!less(ratio_value(1, 1), ratio_value(1, 1)));
    assert(filled_cells(ratio_value(1, 1), width) == width);
    assert(filled_cells(ratio_value(0, 1), width) == 0);
    assert(bar(ratio_value(1, 1), width) =~= Seq::new(width, |i: int| '🟧'));
    assert(bar(ratio_value(0, 1), width) =~= Seq::new(width, |i: int| '░'));
    assert(bar(Value::Nan, width) =~= Seq::new(width, |i: int| '░'));
}

/// A larger fraction never fills fewer cells.
pub proof fn larger_fractions_fill_no_fewer_cells(a: Value, b: Value, width: nat)
    requires
        at_most(a, b),
        width <= u64::MAX,
    ensures
        filled_cells(a, width) <= filled_cells(b, width),
{
    let (zero, one) = (ratio_value(0, 1), ratio_value(1, 1));
    whole_numbers_are_exact(0);
    whole_numbers_are_exact(1);
    whole_numbers_grow(0, 1);
    let (f, g) = (clamped(a, zero, one), clamped(b, zero, one));
    let n = ratio_value(width, 1);
    counts_are_finite(width);
    if let Value::Fin { mant, exp, .. } = f {
        if !is_amount(f) {
            lemma_no_steps(mant, exp);
            zero_stays_zero(f, n, u64::MAX as int);
        }
    }
    if let Value::Fin { mant, exp, .. } = g {
        if !is_amount(g) {
            lemma_no_steps(mant, exp);
            zero_stays_zero(g, n, u64::MAX as int);
            if let Value::Fin { mant: m, exp: e, .. } = f {
                lemma_no_steps(m, e);
                zero_stays_zero(f, n, u64::MAX as int);
            }
        }
    }
    if width > 0 && is_amount(f) && is_amount(g) {
        products_grow(f, g, n);
        wholes_grow(times(f, n), times(g, n));
        cuts_grow(half_away(times(f, n)), half_away(times(g, n)), u64::MAX as int);
    }
}

proof fn lemma_no_steps(mant: nat, exp: nat)
    ensures
        mant * pow2(exp) <= 0 ==> mant == 0,
{
    lemma_pow2_pos(exp);
    if mant > 0 {
        assert(mant * pow2(exp) > 0) by (nonlinear_arith)
            requires
                mant > 0,
                pow2(exp) > 0,
        ;
    }
}

/// As many cells are filled as are nearest to the fraction of the width, as far as
/// rounding leaves no doubt how many those are.
pub proof fn the_nearest_cells_are_filled(fraction: Value, width: nat, n: nat)
    requires
        fraction matches Value::Fin { neg, .. } && !neg,
        steps_of(fraction) <= pow2(1074),
        0 < width <= 1000,
        n <= width,
        ((2 * n - 1) * 0x10_0000 + 1) * pow2(1074) <= 2 * (width * steps_of(fraction)) * 0x10_0000
            <= ((2 * n + 1) * 0x10_0000 - 1) * pow2(1074),
    ensures
        filled_cells(fraction, width) == n,
{
    whole_numbers_are_exact(0);
    whole_numbers_are_exact(1);
    assert(0 * pow2(1074) == 0 && 1 * pow2(1074) == pow2(1074)) by (nonlinear_arith);
    if let Value::Fin { mant, exp, .. } = fraction {
        assert(mant * pow2(exp) >= 0) by (nonlinear_arith);
    }
    assert(clamped(fraction, ratio_value(0, 1), ratio_value(1, 1)) == fraction);
    multiples_round_to_the_nearest(fraction, width, n, 0, u64::MAX as int);
}

/// The cells that are filled stand in front of those that are not, and so do the
/// columns of a bar that is drawn.
pub proof fn bars_fill_from_the_left(
    fraction: Value,
    width: nat,
    i: int,
    color: Seq<u8>,
    empty: Seq<u8>,
    x: int,
)
    requires
        0 <= i < width,
        0 <= x < 120,
    ensures
        bar(fraction, width).len() == width,
        filled_cells(fraction, width) <= width,
        i < filled_cells(fraction, width) ==> bar(fraction, width)[i] == '🟧',
        i >= filled_cells(fraction, width) ==> bar(fraction, width)[i] == '░',
        solid_columns(fraction, color, empty).len() == 120,
        x < filled_cells(fraction, 120) ==> solid_columns(fraction, color, empty)[x] == color.push(
            255,
        ),
        x >= filled_cells(fraction, 120) ==> solid_columns(fraction, color, empty)[x] == empty,
{
}

/// Every pixel of a picture has the colour of its column, row by row.
pub proof fn pixels_have_the_colour_of_their_column(
    columns: Seq<Seq<u8>>,
    height: nat,
    x: int,
    y: int,
    c: int,
)
    requires
        0 <= x < columns.len(),
        0 <= y < height,
        0 <= c < 4,
    ensures
        picture(columns, height).len() == 4 * columns.len() * height,
        0 <= 4 * (columns.len() * y + x) + c < 4 * columns.len() * height,
        picture(columns, height)[4 * (columns.len() * y + x) + c] == columns[x][c],
{
    let w = columns.len() as int;
    let i = 4 * (w * y + x) + c;
    assert(i / 4 == w * y + x && i % 4 == c);
    vstd::arithmetic::div_mod::lemma_fundamental_div_mod_converse(w * y + x, w, y, x);
    assert(0 <= i < 4 * w * height) by (nonlinear_arith)
        requires
            i == 4 * (w * y + x) + c,
            0 <= x < w,
            0 <= y < height,
            0 <= c < 4,
    {
        assert(w * y + w <= w * height);
        assert(w * y >= 0);
    }
}

/// A column of a bar of segments has the colour of the segment that it lies in,
/// and past the last one that of an empty bar.
pub proof fn columns_have_the_colour_of_their_segment(
    segments: Seq<(u64, [u8; 3])>,
    basis: nat,
    empty: Seq<u8>,
    x: int,
    k: int,
)
    requires
        0 <= x < 120,
        0 <= k < segments.len(),
        0 < basis <= u64::MAX,
        first_counts(segments, segments.len() as int) <= u64::MAX,
    ensures
        segment_start(segments, basis, k) <= x < segment_start(segments, basis, k + 1)
            ==> stacked_columns(segments, basis, empty)[x] == segments[k].1@.push(255),
        x >= segment_start(segments, basis, segments.len() as int) ==> stacked_columns(
            segments,
            basis,
            empty,
        )[x] == empty,
{
    let n = segments.len() as int;
    if segment_start(segments, basis, k) <= x < segment_start(segments, basis, k + 1) {
        lemma_colour_of_segment(segments, basis, empty, x, k, n);
    }
    if x >= segment_start(segments, basis, n) {
        lemma_colour_past_segments(segments, basis, empty, x, n);
    }
}

proof fn lemma_colour_of_segment(
    segments: Seq<(u64, [u8; 3])>,
    basis: nat,
    empty: Seq<u8>,
    x: int,
    k: int,
    n: int,
)
    requires
        0 <= k < n <= segments.len(),
        0 < basis <= u64::MAX,
        first_counts(segments, segments.len() as int) <= u64::MAX,
        segment_start(segments, basis, k) <= x < segment_start(segments, basis, k + 1),
    ensures
        segment_color(segments, basis, empty, x, n) == opaque(segments[k].1@),
    decreases n,
{
    if n > k + 1 {
        lemma_colour_of_segment(segments, basis, empty, x, k, n - 1);
        lemma_starts_in_order(segments, basis, k + 1, n - 1);
    }
}

proof fn lemma_starts_in_order(segments: Seq<(u64, [u8; 3])>, basis: nat, a: int, b: int)
    requires
        0 <= a <= b <= segments.len(),
        0 < basis <= u64::MAX,
        first_counts(segments, segments.len() as int) <= u64::MAX,
    ensures
        segment_start(segments, basis, a) <= segment_start(segments, basis, b),
    decreases b - a,
{
    if a < b {
        lemma_starts_in_order(segments, basis, a, b - 1);
        segments_lie_in_order(segments, basis, b - 1);
    }
}

proof fn lemma_colour_past_segments(
    segments: Seq<(u64, [u8; 3])>,
    basis: nat,
    empty: Seq<u8>,
    x: int,
    n: int,
)
    requires
        0 <= n <= segments.len(),
        0 < basis <= u64::MAX,
        first_counts(segments, segments.len() as int) <= u64::MAX,
        x >= segment_start(segments, basis, n),
    ensures
        segment_color(segments, basis, empty, x, n) == empty,
    decreases n,
{
    if n > 0 {
        lemma_starts_in_order(segments, basis, n - 1, n);
        lemma_colour_past_segments(segments, basis, empty, x, n - 1);
    }
}

/// The first `k` segments reach as far into the bar as their tokens together are
/// of all that fills it.
pub proof fn segments_reach_as_far_as_their_tokens(
    segments: Seq<(u64, [u8; 3])>,
    basis: nat,
    k: int,
    reach: nat,
)
    requires
        0 <= k <= segments.len(),
        0 < first_counts(segments, k) <= basis < 100_000_000_000_000,
        reach <= 120,
        (2 * reach - 1) * basis * 0x8_0000 + basis <= 240 * first_counts(segments, k) * 0x8_0000
            <= (2 * reach + 1) * basis * 0x8_0000 - basis,
    ensures
        segment_start(segments, basis, k) == reach,
{
    let p = pow2(1074) as int;
    one_has_many_steps();
    let n = first_counts(segments, k);
    let v = ratio_value(n, basis);
    whole_numbers_divide(n, basis);
    fractions_are_close(n, basis);
    let s = steps_of(v);
    whole_numbers_are_exact(1);
    assert((n * pow2(1074)) * 1 <= (1 * pow2(1074)) * basis) by (nonlinear_arith)
        requires
            n <= basis,
    ;
    rounding_keeps_order(n * pow2(1074), basis, 1 * pow2(1074), 1);
    let (a, b, w) = (s * basis, n * p, basis * p);
    let r = reach as int;
    assert(((2 * r - 1) * w) * 0x8_0000 + w <= 240 * b * 0x8_0000 <= ((2 * r + 1) * w) * 0x8_0000 - w
        && b <= w) by (nonlinear_arith)
        requires
            (2 * r - 1) * basis * 0x8_0000 + basis <= 240 * n * 0x8_0000 <= (2 * r + 1) * basis
                * 0x8_0000 - basis,
            n <= basis,
            b == n * p,
            w == basis * p,
            p > 0,
    {
        assert(((2 * r - 1) * basis * 0x8_0000 + basis) * p <= (240 * n * 0x8_0000) * p);
        assert((240 * n * 0x8_0000) * p <= ((2 * r + 1) * basis * 0x8_0000 - basis) * p);
    }
    let (lo, hi) = ((2 * r - 1) * w, (2 * r + 1) * w);
    assert(lo * 0x10_0000 + w <= 240 * a * 0x10_0000 <= hi * 0x10_0000 - w) by {
        assert(lo * 0x10_0000 + 2 * w <= 240 * b * 0x10_0000 <= hi * 0x10_0000 - 2 * w);
        assert(-w <= (a - b) * 0x20_0000_0000_0000 <= w);
    }
    assert(((2 * r - 1) * 0x10_0000 + 1) * p <= 2 * (120 * s) * 0x10_0000 <= ((2 * r + 1) * 0x10_0000
        - 1) * p) by (nonlinear_arith)
        requires
            lo * 0x10_0000 + w <= 240 * a * 0x10_0000 <= hi * 0x10_0000 - w,
            lo == (2 * r - 1) * w,
            hi == (2 * r + 1) * w,
            a == s * basis,
            w == basis * p,
            basis > 0,
    {
        assert(lo * 0x10_0000 + w == (((2 * r - 1) * 0x10_0000 + 1) * p) * basis);
        assert(hi * 0x10_0000 - w == (((2 * r + 1) * 0x10_0000 - 1) * p) * basis);
        assert(240 * a * 0x10_0000 == (2 * (120 * s) * 0x10_0000) * basis);
    }
    the_nearest_cells_are_filled(v, 120, reach);
}

} // verus!
