//! Four-channel colours and their fixed-point Euclidean distance.

use crate::arith::{floor_sqrt, is_floor_sqrt, isqrt, lemma_floor_sqrt_bound};
use crate::consts::{DIST_SCALE, MAX_COLOR_DIST};
use vstd::prelude::*;

verus! {

/// A colour of four independent 8-bit channels, commonly RGBA.
#[derive(Clone, Copy, Debug)]
pub struct Color(pub [u8; 4]);

/// Both colours hold the same four channel values.
pub open spec fn same_channels(a: Color, b: Color) -> bool {
    a.0[0] == b.0[0] && a.0[1] == b.0[1] && a.0[2] == b.0[2] && a.0[3] == b.0[3]
}

impl PartialEq for Color {
    fn eq(&self, other: &Color) -> (r: bool) {
        self.0[0] == other.0[0] && self.0[1] == other.0[1] && self.0[2] == other.0[2] && self.0[3]
            == other.0[3]
    }
}

impl vstd::std_specs::cmp::PartialEqSpecImpl for Color {
    open spec fn obeys_eq_spec() -> bool {
        true
    }

    open spec fn eq_spec(&self, other: &Color) -> bool {
        same_channels(*self, *other)
    }
}

impl Eq for Color {

}

/// Colours are equal exactly when their channels are.
pub broadcast proof fn lemma_color_eq(a: Color, b: Color)
    ensures
        #[trigger] same_channels(a, b) <==> a == b,
{
    if same_channels(a, b) {
        assert(a.0 =~= b.0);
    }
}

/// Opaque white.
pub open spec fn start_color() -> Color {
    Color([255u8, 255u8, 255u8, 255u8])
}

/// The square of the difference of two channel values.
pub open spec fn channel_gap_squared(a: u8, b: u8) -> int {
    (a - b) * (a - b)
}

/// Sum over the four channels of the squared channel difference.
pub open spec fn dist_squared(a: Color, b: Color) -> int {
    channel_gap_squared(a.0[0], b.0[0]) + channel_gap_squared(a.0[1], b.0[1])
        + channel_gap_squared(a.0[2], b.0[2]) + channel_gap_squared(a.0[3], b.0[3])
}

/// The squared distance in squared fixed-point steps.
pub open spec fn scaled_dist_squared(a: Color, b: Color) -> nat {
    (dist_squared(a, b) * DIST_SCALE * DIST_SCALE) as nat
}

/// Euclidean distance between two colours, counted in steps of
/// `1 / DIST_SCALE` and rounded down.
pub open spec fn color_dist(a: Color, b: Color) -> nat {
    floor_sqrt(scaled_dist_squared(a, b))
}

/// A squared channel difference is at most `255 * 255`.
pub proof fn lemma_channel_gap_bound(a: u8, b: u8)
    ensures
        0 <= channel_gap_squared(a, b) <= 65025,
{
    let d = a - b;
    assert(0 <= d * d <= 65025) by (nonlinear_arith)
        requires
            -255 <= d <= 255,
    ;
}

/// No two colours are further apart than `MAX_COLOR_DIST`, and a colour is
/// at distance zero from itself.
pub proof fn lemma_color_dist_bound(a: Color, b: Color)
    ensures
        color_dist(a, b) <= MAX_COLOR_DIST,
        0 <= dist_squared(a, b) <= 260100,
        scaled_dist_squared(a, b) == dist_squared(a, b) * DIST_SCALE * DIST_SCALE,
        is_floor_sqrt(scaled_dist_squared(a, b), color_dist(a, b)),
        a == b ==> color_dist(a, b) == 0,
{
    lemma_channel_gap_bound(a.0[0], b.0[0]);
    lemma_channel_gap_bound(a.0[1], b.0[1]);
    lemma_channel_gap_bound(a.0[2], b.0[2]);
    lemma_channel_gap_bound(a.0[3], b.0[3]);
    let d2 = dist_squared(a, b);
    assert(0 <= d2 * 1_000_000 * 1_000_000 <= 260100 * 1_000_000 * 1_000_000) by (nonlinear_arith)
        requires
            0 <= d2 <= 260100,
    ;
    let x = scaled_dist_squared(a, b);
    lemma_sqrt_exists(x);
    assert(510_000_000 * 510_000_000 == 260100 * 1_000_000 * 1_000_000) by (nonlinear_arith);
    lemma_floor_sqrt_bound(x, 510_000_000);
    if a == b {
        assert(d2 == 0);
        assert(x == 0);
        crate::arith::lemma_floor_sqrt_zero();
    }
}

/// Every natural number has a rounded-down square root.
pub proof fn lemma_sqrt_exists(x: nat)
    ensures
        is_floor_sqrt(x, floor_sqrt(x)),
    decreases x,
{
    if x == 0 {
        crate::arith::lemma_floor_sqrt_zero();
    } else {
        lemma_sqrt_exists((x - 1) as nat);
        let r = floor_sqrt((x - 1) as nat);
        if (r + 1) * (r + 1) <= x {
            assert((r + 1) * (r + 1) == x);
            assert((r + 2) * (r + 2) > (r + 1) * (r + 1)) by (nonlinear_arith);
            assert(is_floor_sqrt(x, r + 1));
        } else {
            assert(is_floor_sqrt(x, r));
        }
    }
}

impl Color {
    /// The colour every canvas starts with: opaque white.
    pub fn start() -> (r: Color)
        ensures
            r == start_color(),
    {
        let r = Color([255, 255, 255, 255]);
        proof {
            lemma_color_eq(r, start_color());
        }
        r
    }

    /// A colour that `rnd` picks: each of the first three channels below
    /// 255, the last one 255.
    pub fn new_rand(rnd: &mut crate::rand::Random) -> (r: Color)
        ensures
            r.0[0] < 255,
            r.0[1] < 255,
            r.0[2] < 255,
            r.0[3] == 255,
            r.0[0] == crate::rand::output_between(
                crate::rand::next_state(old(rnd).state),
                0,
                255,
            ),
            final(rnd).state == crate::rand::next_state(
                crate::rand::next_state(crate::rand::next_state(old(rnd).state)),
            ),
    {
        let a = rnd.gen(0, 255) as u8;
        let b = rnd.gen(0, 255) as u8;
        let c = rnd.gen(0, 255) as u8;
        Color([a, b, c, 255])
    }

    /// Euclidean distance to `another`, counted in steps of
    /// `1 / DIST_SCALE` and rounded down.
    pub fn dist(&self, another: &Color) -> (r: u64)
        ensures
            r == color_dist(*self, *another),
            r <= MAX_COLOR_DIST,
    {
        let mut sum: u64 = 0;
        let mut i: usize = 0;
        while i < 4
            invariant
                i <= 4,
                sum <= 65025 * i,
                i == 0 ==> sum == 0,
                i == 1 ==> sum == channel_gap_squared(self.0[0], another.0[0]),
                i == 2 ==> sum == channel_gap_squared(self.0[0], another.0[0])
                    + channel_gap_squared(self.0[1], another.0[1]),
                i == 3 ==> sum == channel_gap_squared(self.0[0], another.0[0])
                    + channel_gap_squared(self.0[1], another.0[1]) + channel_gap_squared(
                    self.0[2],
                    another.0[2],
                ),
                i == 4 ==> sum == dist_squared(*self, *another),
            decreases 4 - i,
        {
            let a: u8 = self.0[i];
            let b: u8 = another.0[i];
            let gap: u64 = if a >= b {
                (a - b) as u64
            } else {
                (b - a) as u64
            };
            proof {
                lemma_channel_gap_bound(a, b);
                let d = a - b;
                assert(gap * gap == d * d) by (nonlinear_arith)
                    requires
                        gap == d || gap == -d,
                ;
            }
            sum = sum + gap * gap;
            i = i + 1;
        }
        assert(sum * 1_000_000 * 1_000_000 <= 260100 * 1_000_000 * 1_000_000) by (nonlinear_arith)
            requires
                sum <= 260100,
        ;
        proof {
            lemma_color_dist_bound(*self, *another);
        }
        isqrt(sum * DIST_SCALE * DIST_SCALE)
    }
}

} // verus!
