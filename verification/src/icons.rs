//! The tray icon: a mask tinted by how far the quotas are used up.

use crate::double::{
    at_most, dyadic_fractions_are_exact, fractions_are_close, less, one_has_many_steps, ratio_value,
    ratios_in_lower_terms, steps_of, zero_is_least, Double, Value,
};
use vstd::arithmetic::power2::{lemma2_to64, lemma_pow2_unfold, pow2};
use vstd::prelude::*;

verus! {

/// The width and height of the icon.
pub const ICON_SIZE: usize = 44;

/// The centre of the alarm badge.
pub const BADGE_CX: i32 = 35;

pub const BADGE_CY: i32 = 9;

/// The radius of the badge with its dark ring.
pub const BADGE_R: i32 = 8;

/// The radius of the red disc inside the ring.
pub const BADGE_R_FILL: i32 = 7;

/// A colour band.
#[derive(Debug, Copy, Clone, PartialEq, Eq, Structural)]
pub enum Band {
    Blue,
    Green,
    Yellow,
    Orange,
    Red,
}

/// The band of a utilization. Whatever is not below 95 percent is red.
pub open spec fn band_of(f: Value) -> Band {
    if less(f, ratio_value(25, 100)) {
        Band::Blue
    } else if less(f, ratio_value(50, 100)) {
        Band::Green
    } else if less(f, ratio_value(75, 100)) {
        Band::Yellow
    } else if less(f, ratio_value(95, 100)) {
        Band::Orange
    } else {
        Band::Red
    }
}

/// The red, green and blue of a band.
pub open spec fn colour(b: Band) -> Seq<u8> {
    match b {
        Band::Blue => seq![0x1D, 0x48, 0x77],
        Band::Green => seq![0x1B, 0x8A, 0x5A],
        Band::Yellow => seq![0xFB, 0xB0, 0x21],
        Band::Orange => seq![0xF6, 0x88, 0x38],
        Band::Red => seq![0xEE, 0x3E, 0x32],
    }
}

impl Band {
    /// The band of a utilization.
    pub fn from_fraction(f: Double) -> (r: Band)
        ensures
            r == band_of(f@),
    {
        if f.lt(Double::ratio(25, 100)) {
            Band::Blue
        } else if f.lt(Double::ratio(50, 100)) {
            Band::Green
        } else if f.lt(Double::ratio(75, 100)) {
            Band::Yellow
        } else if f.lt(Double::ratio(95, 100)) {
            Band::Orange
        } else {
            Band::Red
        }
    }

    /// The red, green and blue of the band.
    pub fn rgb(self) -> (r: [u8; 3])
        ensures
            r@ == colour(self),
    {
        let r: [u8; 3] = match self {
            Band::Blue => [0x1D, 0x48, 0x77],
            Band::Green => [0x1B, 0x8A, 0x5A],
            Band::Yellow => [0xFB, 0xB0, 0x21],
            Band::Orange => [0xF6, 0x88, 0x38],
            Band::Red => [0xEE, 0x3E, 0x32],
        };
        assert(r@ =~= colour(self));
        r
    }
}

/// How many pixels the icon has.
pub open spec fn pixels() -> nat {
    1936
}

/// Whether a pixel of the dot is lit: it lies within 21 pixels of the centre.
pub open spec fn in_dot(x: int, y: int) -> bool {
    (2 * x - 43) * (2 * x - 43) + (2 * y - 43) * (2 * y - 43) <= 1764
}

/// The mask of the icon: a dot.
pub fn icon_mask() -> (r: Vec<u8>)
    ensures
        r.len() == pixels(),
        forall|i: int|
            0 <= i < pixels() ==> #[trigger] r@[i] == if in_dot(i % 44, i / 44) {
                255u8
            } else {
                0u8
            },
{
    let mut out: Vec<u8> = Vec::new();
    let mut i: usize = 0;
    while i < ICON_SIZE * ICON_SIZE
        invariant
            i <= 1936,
            out.len() == i,
            forall|k: int|
                0 <= k < i ==> #[trigger] out@[k] == if in_dot(k % 44, k / 44) {
                    255u8
                } else {
                    0u8
                },
        decreases 1936 - i,
    {
        let dx: i32 = 2 * (i % ICON_SIZE) as i32 - 43;
        let dy: i32 = 2 * (i / ICON_SIZE) as i32 - 43;
        assert(dx * dx <= 1849 && dy * dy <= 1849 && 0 <= dx * dx && 0 <= dy * dy)
            by (nonlinear_arith)
            requires
                -43 <= dx <= 43,
                -43 <= dy <= 43,
        ;
        if dx * dx + dy * dy <= 1764 {
            out.push(255);
        } else {
            out.push(0);
        }
        i = i + 1;
    }
    out
}

/// The colour of a pixel of an icon in two halves.
pub open spec fn split_tint(left: Band, right: Band, i: int) -> Seq<u8> {
    if i % 44 < 22 {
        colour(left)
    } else {
        colour(right)
    }
}

/// The icon in two halves, each in the colour of its band.
pub open spec fn split_icon(left: Band, right: Band, mask: Seq<u8>) -> Seq<u8> {
    Seq::new(
        4 * mask.len(),
        |j: int|
            if j % 4 == 3 {
                mask[j / 4]
            } else {
                split_tint(left, right, j / 4)[j % 4]
            },
    )
}

/// The icon in the colour of a band.
pub open spec fn plain_icon(band: Band, mask: Seq<u8>) -> Seq<u8> {
    Seq::new(
        4 * mask.len(),
        |j: int|
            if j % 4 == 3 {
                mask[j / 4]
            } else {
                colour(band)[j % 4]
            },
    )
}

/// The icon in two halves, each in the colour of its band.
pub fn tinted_split(left: Band, right: Band, mask: &Vec<u8>) -> (r: Vec<u8>)
    requires
        mask.len() == pixels(),
    ensures
        r@ == split_icon(left, right, mask@),
{
    let l = left.rgb();
    let r = right.rgb();
    let mut rgba: Vec<u8> = Vec::new();
    let mut i: usize = 0;
    while i < mask.len()
        invariant
            i <= mask.len(),
            mask.len() == 1936,
            l@ == colour(left),
            r@ == colour(right),
            rgba@ =~= split_icon(left, right, mask@).take(4 * i),
        decreases mask.len() - i,
    {
        let rgb: [u8; 3] = if i % ICON_SIZE < ICON_SIZE / 2 {
            l
        } else {
            r
        };
        rgba.push(rgb[0]);
        rgba.push(rgb[1]);
        rgba.push(rgb[2]);
        rgba.push(mask[i]);
        i = i + 1;
    }
    assert(rgba@ =~= split_icon(left, right, mask@));
    rgba
}

/// The icon in the colour of a band.
pub fn tinted(band: Band, mask: &Vec<u8>) -> (r: Vec<u8>)
    requires
        mask.len() == pixels(),
    ensures
        r@ == plain_icon(band, mask@),
{
    let r = tinted_split(band, band, mask);
    assert(r@ =~= plain_icon(band, mask@));
    r
}

/// The colour of the badge at a pixel: a white exclamation mark on a red disc
/// in a dark ring.
pub open spec fn badge_pixel(x: int, y: int) -> Option<Seq<u8>> {
    let d = (x - 35) * (x - 35) + (y - 9) * (y - 9);
    if (x == 34 || x == 35) && (5 <= y <= 10 || 12 <= y <= 13) {
        Some(seq![0xFF, 0xFF, 0xFF, 0xFF])
    } else if d <= 49 {
        Some(seq![0xFF, 0x3B, 0x30, 0xFF])
    } else if d <= 64 {
        Some(seq![0x99, 0x20, 0x18, 0xFF])
    } else {
        None
    }
}

/// Byte `j` of an icon with a badge.
pub open spec fn badged_byte(rgba: Seq<u8>, j: int) -> u8 {
    match badge_pixel((j / 4) % 44, (j / 4) / 44) {
        Some(c) => c[j % 4],
        None => rgba[j],
    }
}

/// An icon with the badge.
pub open spec fn badged(rgba: Seq<u8>) -> Seq<u8> {
    Seq::new(rgba.len(), |j: int| badged_byte(rgba, j))
}

fn badge_colour(x: i32, y: i32) -> (r: Option<[u8; 4]>)
    requires
        0 <= x < 44,
        0 <= y < 44,
    ensures
        match (r, badge_pixel(x as int, y as int)) {
            (Some(c), Some(d)) => c@ == d,
            (None, None) => true,
            _ => false,
        },
{
    let dx: i32 = x - BADGE_CX;
    let dy: i32 = y - BADGE_CY;
    assert(dx * dx <= 1936 && dy * dy <= 1936 && 0 <= dx * dx && 0 <= dy * dy) by (nonlinear_arith)
        requires
            -44 <= dx <= 44,
            -44 <= dy <= 44,
    ;
    let d: i32 = dx * dx + dy * dy;
    if (x == BADGE_CX - 1 || x == BADGE_CX) && ((BADGE_CY - 4 <= y && y <= BADGE_CY + 1) || (BADGE_CY
        + 3 <= y && y <= BADGE_CY + 4)) {
        let c: [u8; 4] = [0xFF, 0xFF, 0xFF, 0xFF];
        assert(c@ =~= seq![0xFF, 0xFF, 0xFF, 0xFF]);
        Some(c)
    } else if d <= BADGE_R_FILL * BADGE_R_FILL {
        let c: [u8; 4] = [0xFF, 0x3B, 0x30, 0xFF];
        assert(c@ =~= seq![0xFF, 0x3B, 0x30, 0xFF]);
        Some(c)
    } else if d <= BADGE_R * BADGE_R {
        let c: [u8; 4] = [0x99, 0x20, 0x18, 0xFF];
        assert(c@ =~= seq![0x99, 0x20, 0x18, 0xFF]);
        Some(c)
    } else {
        None
    }
}

/// Stamps the alarm badge onto an icon.
pub fn draw_alarm_badge(rgba: &mut Vec<u8>)
    requires
        old(rgba).len() == 4 * pixels(),
    ensures
        final(rgba)@ == badged(old(rgba)@),
{
    let ghost start = rgba@;
    let mut i: usize = 0;
    while i < ICON_SIZE * ICON_SIZE
        invariant
            i <= 1936,
            rgba.len() == 7744,
            start.len() == 7744,
            forall|j: int| 0 <= j < 4 * i ==> #[trigger] rgba@[j] == badged_byte(start, j),
            forall|j: int| 4 * i <= j < 7744 ==> #[trigger] rgba@[j] == start[j],
        decreases 1936 - i,
    {
        let x: i32 = (i % ICON_SIZE) as i32;
        let y: i32 = (i / ICON_SIZE) as i32;
        if let Some(c) = badge_colour(x, y) {
            rgba.set(4 * i, c[0]);
            rgba.set(4 * i + 1, c[1]);
            rgba.set(4 * i + 2, c[2]);
            rgba.set(4 * i + 3, c[3]);
        }
        assert forall|j: int| 4 * i <= j < 4 * i + 4 implies #[trigger] rgba@[j] == badged_byte(
            start,
            j,
        ) by {
            assert(j / 4 == i);
        }
        i = i + 1;
    }
    assert(rgba@ =~= badged(start));
}

/// The icon in two halves, with the alarm badge when `badge` is set.
pub fn badged_split(left: Band, right: Band, badge: bool, mask: &Vec<u8>) -> (r: Vec<u8>)
    requires
        mask.len() == pixels(),
    ensures
        r@ == if badge {
            badged(split_icon(left, right, mask@))
        } else {
            split_icon(left, right, mask@)
        },
{
    let mut rgba = tinted_split(left, right, mask);
    if badge {
        draw_alarm_badge(&mut rgba);
    }
    rgba
}

/// The opacity of each pixel of an image.
pub open spec fn opacity(rgba: Seq<u8>) -> Seq<u8> {
    Seq::new(rgba.len() / 4, |i: int| rgba[4 * i + 3])
}

/// The opacity of each pixel of an image.
pub fn alpha_channel(rgba: &Vec<u8>) -> (r: Vec<u8>)
    ensures
        r@ == opacity(rgba@),
{
    let mut out: Vec<u8> = Vec::new();
    let n: usize = rgba.len() / 4;
    let mut i: usize = 0;
    while i < n
        invariant
            i <= n,
            n == rgba.len() / 4,
            out.len() == i,
            forall|k: int| 0 <= k < i ==> #[trigger] out@[k] == rgba@[4 * k + 3],
        decreases n - i,
    {
        out.push(rgba[4 * i + 3]);
        i = i + 1;
    }
    assert(out@ =~= opacity(rgba@));
    out
}

/// Outside its radius the badge changes nothing.
pub proof fn badge_is_additive(rgba: Seq<u8>, x: int, y: int, k: int)
    requires
        0 <= x < 44,
        0 <= y < 44,
        0 <= k < 4,
        (x - 35) * (x - 35) + (y - 9) * (y - 9) > 64,
    ensures
        badged_byte(rgba, 4 * (44 * y + x) + k) == rgba[4 * (44 * y + x) + k],
{
    let j = 4 * (44 * y + x) + k;
    assert(j / 4 == 44 * y + x && (44 * y + x) % 44 == x && (44 * y + x) / 44 == y);
    if (x == 34 || x == 35) && (5 <= y <= 10 || 12 <= y <= 13) {
        assert((x - 35) * (x - 35) <= 1 && (y - 9) * (y - 9) <= 16) by (nonlinear_arith)
            requires
                34 <= x <= 35,
                5 <= y <= 13,
        ;
    }
}

/// Within its radius the badge is opaque.
pub proof fn badge_is_opaque(rgba: Seq<u8>, x: int, y: int)
    requires
        0 <= x < 44,
        0 <= y < 44,
        (x - 35) * (x - 35) + (y - 9) * (y - 9) <= 64,
    ensures
        badged_byte(rgba, 4 * (44 * y + x) + 3) == 255,
{
    let j = 4 * (44 * y + x) + 3;
    assert(j / 4 == 44 * y + x && (44 * y + x) % 44 == x && (44 * y + x) / 44 == y && j % 4 == 3);
}

/// Tinting keeps the opacity of the mask.
pub proof fn tint_keeps_opacity(left: Band, right: Band, mask: Seq<u8>, i: int)
    requires
        0 <= i < mask.len(),
    ensures
        split_icon(left, right, mask)[4 * i + 3] == mask[i],
        plain_icon(left, mask)[4 * i + 3] == mask[i],
{
}

/// A pixel of the left half has the colour of the left band, one of the right
/// half that of the right band.
pub proof fn halves_have_their_colour(left: Band, right: Band, mask: Seq<u8>, i: int)
    requires
        0 <= i < mask.len(),
    ensures
        i % 44 < 22 ==> split_icon(left, right, mask).subrange(4 * i, 4 * i + 3) == colour(left),
        i % 44 >= 22 ==> split_icon(left, right, mask).subrange(4 * i, 4 * i + 3) == colour(right),
        plain_icon(left, mask).subrange(4 * i, 4 * i + 3) == colour(left),
{
    let s = split_icon(left, right, mask).subrange(4 * i, 4 * i + 3);
    assert(i % 44 < 22 ==> s =~= colour(left));
    assert(i % 44 >= 22 ==> s =~= colour(right));
    assert(plain_icon(left, mask).subrange(4 * i, 4 * i + 3) =~= colour(left));
}

/// The opacity of a tinted icon is its mask.
pub proof fn opacity_of_a_tinted_icon(left: Band, right: Band, mask: Seq<u8>)
    ensures
        opacity(split_icon(left, right, mask)) == mask,
{
    assert(opacity(split_icon(left, right, mask)) =~= mask);
}

/// The place of a band from blue to red.
pub open spec fn heat(b: Band) -> int {
    match b {
        Band::Blue => 0,
        Band::Green => 1,
        Band::Yellow => 2,
        Band::Orange => 3,
        Band::Red => 4,
    }
}

/// The band goes from blue to red as utilization climbs.
pub proof fn bands_climb(a: Value, b: Value)
    requires
        at_most(a, b),
    ensures
        heat(band_of(a)) <= heat(band_of(b)),
{
    zero_is_least(25, 100);
    zero_is_least(50, 100);
    zero_is_least(75, 100);
    zero_is_least(95, 100);
}

/// A quota is blue up to a quarter, green up to a half, yellow up to three quarters
/// and orange up to 95 percent, from where on it is red; so is whatever is no
/// number, and what is used up beyond all measure.
pub proof fn bands_by_how_much_is_used(v: Value)
    ensures
        v is Fin && 4 * steps_of(v) < pow2(1074) ==> band_of(v) == Band::Blue,
        v is Fin && pow2(1074) <= 4 * steps_of(v) < 2 * pow2(1074) ==> band_of(v) == Band::Green,
        v is Fin && 2 * pow2(1074) <= 4 * steps_of(v) < 3 * pow2(1074) ==> band_of(v)
            == Band::Yellow,
        v is Fin && 3 * pow2(1074) <= 4 * steps_of(v) && 100 * steps_of(v) * 0x10_0000
            <= 0x5EF_FFFF * pow2(1074) ==> band_of(v) == Band::Orange,
        v is Fin && 100 * steps_of(v) * 0x10_0000 >= 0x5F0_0001 * pow2(1074) ==> band_of(v)
            == Band::Red,
        v is Nan ==> band_of(v) == Band::Red,
        v matches Value::Inf { neg } && !neg ==> band_of(v) == Band::Red,
{
    let p = pow2(1074);
    lemma2_to64();
    one_has_many_steps();
    ratios_in_lower_terms(1, 4, 25);
    ratios_in_lower_terms(1, 2, 50);
    ratios_in_lower_terms(3, 4, 25);
    dyadic_fractions_are_exact(1, 2);
    dyadic_fractions_are_exact(1, 1);
    dyadic_fractions_are_exact(3, 2);
    lemma_pow2_unfold(1074);
    lemma_pow2_unfold(1073);
    assert(1 * pow2(1072) == pow2(1072) && 1 * pow2(1073) == pow2(1073)) by (nonlinear_arith);
    fractions_are_close(95, 100);
}

/// The dot is round: it is the same mirrored and turned, and reaches all four
/// sides.
pub proof fn the_dot_is_round(x: int, y: int)
    requires
        0 <= x < 44,
        0 <= y < 44,
    ensures
        in_dot(x, y) == in_dot(43 - x, y),
        in_dot(x, y) == in_dot(x, 43 - y),
        in_dot(x, y) == in_dot(y, x),
        in_dot(x, y) && 2 * x <= 43 && 2 * y <= 43 ==> in_dot(x + 1, y) && in_dot(x, y + 1),
{
    let (a, b) = (2 * x - 43, 2 * y - 43);
    assert((-a) * (-a) == a * a && (-b) * (-b) == b * b) by (nonlinear_arith);
    assert(2 * (43 - x) - 43 == -a && 2 * (43 - y) - 43 == -b);
    assert(a <= 0 ==> (a + 2) * (a + 2) <= a * a || a == 0 || a == -1) by (nonlinear_arith)
        requires
            a % 2 == 1,
    ;
    assert(b <= 0 ==> (b + 2) * (b + 2) <= b * b || b == 0 || b == -1) by (nonlinear_arith)
        requires
            b % 2 == 1,
    ;
    assert(2 * (x + 1) - 43 == a + 2 && 2 * (y + 1) - 43 == b + 2);
}

/// The badge is a red disc in a dark ring with a white mark on it: a bar of six
/// rows with a gap of one row below it and then two more, all two pixels wide.
pub proof fn the_badge_has_a_mark(x: int, y: int)
    ensures
        badge_pixel(x, y) == Some(seq![0xFFu8, 0xFF, 0xFF, 0xFF]) <==> 34 <= x <= 35 && 5 <= y <= 13
            && y != 11,
        badge_pixel(x, y) is Some <==> (x - 35) * (x - 35) + (y - 9) * (y - 9) <= 64,
        badge_pixel(x, y) == Some(seq![0x99u8, 0x20, 0x18, 0xFF]) <==> 49 < (x - 35) * (x - 35) + (y
            - 9) * (y - 9) <= 64,
{
    let white = seq![0xFFu8, 0xFF, 0xFF, 0xFF];
    let red = seq![0xFFu8, 0x3B, 0x30, 0xFF];
    let dark = seq![0x99u8, 0x20, 0x18, 0xFF];
    assert(white[1] != red[1] && white[1] != dark[1] && red[1] != dark[1]);
    if 34 <= x <= 35 && 5 <= y <= 13 {
        assert((x - 35) * (x - 35) <= 1 && (y - 9) * (y - 9) <= 16) by (nonlinear_arith)
            requires
                34 <= x <= 35,
                5 <= y <= 13,
        ;
    }
}

} // verus!
