//! Properties of flood filling that relate several inputs or several calls.
use crate::color::{lemma_similar_monotone, lemma_similar_to_itself};
use crate::fill::{flood_fill_spec, similarity_mask};
use crate::grid::{
    adjacent, in_region, lemma_index, lemma_neighbors, lemma_region_grows, lemma_seed_in_region,
    pixel_at,
};
use vstd::prelude::*;

verus! {

/// The region that a flood fill from `(sx, sy)` recolors.
pub open spec fn fill_region_of(
    p: Seq<u8>,
    w: int,
    h: int,
    sx: int,
    sy: int,
    tolerance: int,
    i: int,
) -> bool {
    in_region(
        w,
        h,
        similarity_mask(p, w * h, pixel_at(p, sy * w + sx), tolerance),
        sy * w + sx,
        i,
    )
}

/// The number of the first `n` pixels of `r` that have color `fill`.
pub open spec fn count_colored(r: Seq<u8>, fill: Seq<u8>, n: nat) -> nat
    decreases n,
{
    if n == 0 {
        0
    } else {
        count_colored(r, fill, (n - 1) as nat) + if pixel_at(r, n - 1) == fill {
            1nat
        } else {
            0nat
        }
    }
}

proof fn lemma_count_colored_le(a: Seq<u8>, b: Seq<u8>, fill: Seq<u8>, n: nat)
    requires
        forall|i: int| 0 <= i < n && #[trigger] pixel_at(a, i) == fill ==> pixel_at(b, i) == fill,
    ensures
        count_colored(a, fill, n) <= count_colored(b, fill, n),
    decreases n,
{
    if n > 0 {
        lemma_count_colored_le(a, b, fill, (n - 1) as nat);
        assert(pixel_at(a, n - 1) == fill ==> pixel_at(b, n - 1) == fill);
    }
}

/// Pixel `i` of a flood fill's result has color `fill` where `i` lies in the
/// filled region, and its color before the fill elsewhere.
proof fn lemma_result_pixel(
    p: Seq<u8>,
    w: int,
    h: int,
    sx: int,
    sy: int,
    fill: Seq<u8>,
    tolerance: int,
    i: int,
)
    requires
        0 <= sx < w,
        0 <= sy < h,
        fill.len() == 4,
        p.len() == w * h * 4,
        pixel_at(p, sy * w + sx) != fill,
        0 <= i < w * h,
    ensures
        pixel_at(flood_fill_spec(p, w, h, sx, sy, fill, tolerance), i) == if fill_region_of(
            p,
            w,
            h,
            sx,
            sy,
            tolerance,
            i,
        ) {
            fill
        } else {
            pixel_at(p, i)
        },
{
    lemma_index(w, h, sx, sy);
    lemma_similar_to_itself(pixel_at(p, sy * w + sx), tolerance);
    let r = flood_fill_spec(p, w, h, sx, sy, fill, tolerance);
    assert forall|k: int| 4 * i <= k < 4 * i + 4 implies #[trigger] (k / 4) == i by {}
    if fill_region_of(p, w, h, sx, sy, tolerance, i) {
        assert(pixel_at(r, i) =~= fill);
    } else {
        assert(pixel_at(r, i) =~= pixel_at(p, i));
    }
}

/// Filling a region with the seed's own current color leaves the buffer as it
/// is.
pub proof fn law_same_color_no_op(p: Seq<u8>, w: int, h: int, sx: int, sy: int, tolerance: int)
    requires
        0 <= sx,
        0 <= sy,
        0 <= w,
        0 <= h,
    ensures
        flood_fill_spec(p, w, h, sx, sy, pixel_at(p, sy * w + sx), tolerance) == p,
{
    if sx < w && sy < h && p.len() == w * h * 4 {
        lemma_index(w, h, sx, sy);
    }
}

/// A seed outside the grid leaves the buffer as it is.
pub proof fn law_seed_out_of_bounds(
    p: Seq<u8>,
    w: int,
    h: int,
    sx: int,
    sy: int,
    fill: Seq<u8>,
    tolerance: int,
)
    requires
        sx >= w || sy >= h,
    ensures
        flood_fill_spec(p, w, h, sx, sy, fill, tolerance) == p,
{
}

/// Every byte that a flood fill changes belongs to a pixel reached from the
/// seed through pixels similar to the seed's color before the fill; in particular
/// every pixel that takes the fill color, and did not have it before, is such a
/// pixel.
pub proof fn law_containment(
    p: Seq<u8>,
    w: int,
    h: int,
    sx: int,
    sy: int,
    fill: Seq<u8>,
    tolerance: int,
)
    requires
        0 <= sx,
        0 <= sy,
        0 <= w,
        0 <= h,
    ensures
        flood_fill_spec(p, w, h, sx, sy, fill, tolerance).len() == p.len(),
        forall|k: int|
            0 <= k < p.len() && #[trigger] flood_fill_spec(p, w, h, sx, sy, fill, tolerance)[k]
                != p[k] ==> fill_region_of(p, w, h, sx, sy, tolerance, k / 4),
        forall|i: int|
            0 <= i < w * h && #[trigger] pixel_at(
                flood_fill_spec(p, w, h, sx, sy, fill, tolerance),
                i,
            ) == fill && pixel_at(p, i) != fill ==> fill_region_of(p, w, h, sx, sy, tolerance, i),
{
    let r = flood_fill_spec(p, w, h, sx, sy, fill, tolerance);
    if sx < w && sy < h && fill.len() == 4 && p.len() == w * h * 4 && pixel_at(p, sy * w + sx)
        != fill {
        assert forall|i: int|
            0 <= i < w * h && #[trigger] pixel_at(r, i) == fill && pixel_at(p, i)
                != fill implies fill_region_of(p, w, h, sx, sy, tolerance, i) by {
            lemma_result_pixel(p, w, h, sx, sy, fill, tolerance, i);
        }
    } else if sx < w && sy < h && fill.len() == 4 && p.len() == w * h * 4 {
        lemma_index(w, h, sx, sy);
    }
}

/// Applying the same flood fill twice gives the result of applying it once.
pub proof fn law_idempotent(
    p: Seq<u8>,
    w: int,
    h: int,
    sx: int,
    sy: int,
    fill: Seq<u8>,
    tolerance: int,
)
    requires
        0 <= sx,
        0 <= sy,
        0 <= w,
        0 <= h,
    ensures
        flood_fill_spec(flood_fill_spec(p, w, h, sx, sy, fill, tolerance), w, h, sx, sy, fill, tolerance)
            == flood_fill_spec(p, w, h, sx, sy, fill, tolerance),
{
    let r = flood_fill_spec(p, w, h, sx, sy, fill, tolerance);
    if sx < w && sy < h && fill.len() == 4 && p.len() == w * h * 4 {
        lemma_index(w, h, sx, sy);
        let s = sy * w + sx;
        if pixel_at(p, s) != fill {
            let m = similarity_mask(p, w * h, pixel_at(p, s), tolerance);
            lemma_similar_to_itself(pixel_at(p, s), tolerance);
            lemma_seed_in_region(w, h, m, s);
            lemma_result_pixel(p, w, h, sx, sy, fill, tolerance, s);
        }
    }
}

/// Raising the tolerance, all else the same, keeps every pixel that had the
/// fill color after filling, so the number of such pixels never decreases.
pub proof fn law_tolerance_monotone(
    p: Seq<u8>,
    w: int,
    h: int,
    sx: int,
    sy: int,
    fill: Seq<u8>,
    t1: int,
    t2: int,
)
    requires
        0 <= sx,
        0 <= sy,
        0 <= w,
        0 <= h,
        0 <= t1 <= t2,
    ensures
        forall|i: int|
            0 <= i < w * h && #[trigger] pixel_at(flood_fill_spec(p, w, h, sx, sy, fill, t1), i)
                == fill ==> pixel_at(flood_fill_spec(p, w, h, sx, sy, fill, t2), i) == fill,
        count_colored(flood_fill_spec(p, w, h, sx, sy, fill, t1), fill, (w * h) as nat)
            <= count_colored(flood_fill_spec(p, w, h, sx, sy, fill, t2), fill, (w * h) as nat),
{
    let r1 = flood_fill_spec(p, w, h, sx, sy, fill, t1);
    let r2 = flood_fill_spec(p, w, h, sx, sy, fill, t2);
    if sx < w && sy < h && fill.len() == 4 && p.len() == w * h * 4 {
        lemma_index(w, h, sx, sy);
        let s = sy * w + sx;
        if pixel_at(p, s) != fill {
            let m1 = similarity_mask(p, w * h, pixel_at(p, s), t1);
            let m2 = similarity_mask(p, w * h, pixel_at(p, s), t2);
            assert forall|i: int| 0 <= i < m1.len() && #[trigger] m1[i] implies m2[i] by {
                lemma_similar_monotone(pixel_at(p, i), pixel_at(p, s), t1, t2);
            }
            assert forall|i: int|
                0 <= i < w * h && #[trigger] pixel_at(r1, i) == fill implies pixel_at(r2, i)
                    == fill by {
                lemma_result_pixel(p, w, h, sx, sy, fill, t1, i);
                lemma_result_pixel(p, w, h, sx, sy, fill, t2, i);
                if in_region(w, h, m1, s, i) {
                    lemma_region_grows(w, h, m1, m2, s, i);
                }
            }
        }
    }
    lemma_count_colored_le(r1, r2, fill, (w * h) as nat);
}

/// The neighbors of the first pixel are the pixel to its right and the pixel
/// below it, and those of the last pixel the pixel to its left and the pixel
/// above it: no step from a corner wraps around to the far edge.
pub proof fn law_corner_neighbors(w: int, h: int, q: int)
    requires
        w > 0,
        h > 0,
    ensures
        adjacent(w, h, 0, q) ==> (w > 1 && q == 1) || (h > 1 && q == w),
        adjacent(w, h, w * h - 1, q) ==> (w > 1 && q == w * h - 2) || (h > 1 && q == w * h - 1
            - w),
{
    lemma_index(w, h, 0, 0);
    lemma_index(w, h, w - 1, h - 1);
    assert((h - 1) * w + (w - 1) == w * h - 1) by (nonlinear_arith);
    assert((h - 2) * w + (w - 1) == w * h - 1 - w) by (nonlinear_arith);
    if adjacent(w, h, 0, q) {
        assert(0 * w + 0 == 0);
        lemma_neighbors(w, h, 0, 0, q);
    }
    if adjacent(w, h, w * h - 1, q) {
        lemma_neighbors(w, h, w - 1, h - 1, q);
    }
}

} // verus!
