//! The pixel grid: row-major pixel indices, 4-connected adjacency, and the
//! region of pixels reachable from a seed through member pixels.
use vstd::arithmetic::div_mod::{lemma_fundamental_div_mod, lemma_fundamental_div_mod_converse};
use vstd::prelude::*;

verus! {

/// The four samples of pixel `p` in an RGBA buffer.
pub open spec fn pixel_at(s: Seq<u8>, p: int) -> Seq<u8> {
    s.subrange(4 * p, 4 * p + 4)
}

/// Pixels `p` and `q` of a `w` by `h` grid share an edge.
pub open spec fn adjacent(w: int, h: int, p: int, q: int) -> bool {
    &&& 0 <= p < w * h
    &&& 0 <= q < w * h
    &&& (p / w == q / w && (p % w == q % w + 1 || q % w == p % w + 1)) || (p % w == q % w && (p
        / w == q / w + 1 || q / w == p / w + 1))
}

/// A non-empty walk through member pixels, each step to an adjacent pixel.
pub open spec fn is_path(w: int, h: int, member: Seq<bool>, path: Seq<int>) -> bool {
    &&& path.len() > 0
    &&& forall|i: int|
        0 <= i < path.len() ==> 0 <= #[trigger] path[i] < member.len() && member[path[i]]
    &&& forall|i: int| 0 <= i < path.len() - 1 ==> adjacent(w, h, #[trigger] path[i], path[i + 1])
}

/// Pixel `p` is reached from `seed` by a walk through member pixels.
pub open spec fn in_region(w: int, h: int, member: Seq<bool>, seed: int, p: int) -> bool {
    exists|path: Seq<int>|
        #[trigger] is_path(w, h, member, path) && path[0] == seed && path.last() == p
}

/// The pixel index of column `x` and row `y` names that column and row.
pub proof fn lemma_index(w: int, h: int, x: int, y: int)
    requires
        0 <= x < w,
        0 <= y < h,
    ensures
        0 <= y * w + x < w * h,
        (y * w + x) / w == y,
        (y * w + x) % w == x,
{
    lemma_fundamental_div_mod_converse(y * w + x, w, y, x);
    assert(0 <= y * w + x < w * h) by (nonlinear_arith)
        requires
            0 <= x < w,
            0 <= y < h,
    ;
}

/// The pixels adjacent to column `x` of row `y` are the up to four pixels
/// one step away along an axis; none lies across an edge of the grid.
pub proof fn lemma_neighbors(w: int, h: int, x: int, y: int, q: int)
    requires
        0 <= x < w,
        0 <= y < h,
        adjacent(w, h, y * w + x, q),
    ensures
        (x > 0 && q == y * w + x - 1) || (x + 1 < w && q == y * w + x + 1) || (y > 0 && q == (y
            - 1) * w + x) || (y + 1 < h && q == (y + 1) * w + x),
{
    lemma_index(w, h, x, y);
    lemma_fundamental_div_mod(q, w);
    let qy = q / w;
    let qx = q % w;
    assert(q == qy * w + qx) by (nonlinear_arith)
        requires
            q == w * qy + qx,
    ;
    assert(0 <= qx < w);
    assert(0 <= qy < h) by (nonlinear_arith)
        requires
            q == qy * w + qx,
            0 <= q < w * h,
            0 <= qx < w,
    ;
    assert((y - 1) * w + x == y * w + x - w) by (nonlinear_arith);
    assert((y + 1) * w + x == y * w + x + w) by (nonlinear_arith);
    assert((qy + 1) * w == qy * w + w) by (nonlinear_arith);
    assert((qy - 1) * w == qy * w - w) by (nonlinear_arith);
}

/// The seed alone is a walk when it is a member.
pub proof fn lemma_seed_in_region(w: int, h: int, member: Seq<bool>, seed: int)
    requires
        0 <= seed < member.len(),
        member[seed],
    ensures
        in_region(w, h, member, seed, seed),
{
    let path = seq![seed];
    assert(is_path(w, h, member, path));
}

/// A walk to `r` extends by one step to an adjacent member pixel `p`.
pub proof fn lemma_region_step(w: int, h: int, member: Seq<bool>, seed: int, r: int, p: int)
    requires
        in_region(w, h, member, seed, r),
        adjacent(w, h, r, p),
        0 <= p < member.len(),
        member[p],
    ensures
        in_region(w, h, member, seed, p),
{
    let path = choose|path: Seq<int>|
        #[trigger] is_path(w, h, member, path) && path[0] == seed && path.last() == r;
    let longer = path.push(p);
    assert forall|i: int| 0 <= i < longer.len() - 1 implies adjacent(
        w,
        h,
        #[trigger] longer[i],
        longer[i + 1],
    ) by {
        if i < path.len() - 1 {
            assert(longer[i] == path[i] && longer[i + 1] == path[i + 1]);
        }
    }
    assert(is_path(w, h, member, longer));
    assert(longer[0] == seed && longer.last() == p);
}

/// A set of pixels that holds the seed, and with each member pixel all its
/// neighbors, holds the whole region.
pub proof fn lemma_region_closed(
    w: int,
    h: int,
    member: Seq<bool>,
    seed: int,
    reached: Seq<bool>,
    p: int,
)
    requires
        member.len() == reached.len(),
        0 <= seed < reached.len(),
        reached[seed],
        forall|a: int, b: int|
            0 <= a < reached.len() && reached[a] && member[a] && #[trigger] adjacent(w, h, a, b)
                ==> reached[b],
        in_region(w, h, member, seed, p),
    ensures
        reached[p],
{
    let path = choose|path: Seq<int>|
        #[trigger] is_path(w, h, member, path) && path[0] == seed && path.last() == p;
    lemma_path_reached(w, h, member, seed, reached, path, path.len() - 1);
}

proof fn lemma_path_reached(
    w: int,
    h: int,
    member: Seq<bool>,
    seed: int,
    reached: Seq<bool>,
    path: Seq<int>,
    i: int,
)
    requires
        member.len() == reached.len(),
        0 <= seed < reached.len(),
        reached[seed],
        forall|a: int, b: int|
            0 <= a < reached.len() && reached[a] && member[a] && #[trigger] adjacent(w, h, a, b)
                ==> reached[b],
        is_path(w, h, member, path),
        path[0] == seed,
        0 <= i < path.len(),
    ensures
        reached[path[i]],
    decreases i,
{
    if i > 0 {
        lemma_path_reached(w, h, member, seed, reached, path, i - 1);
        assert(adjacent(w, h, path[i - 1], path[i]));
        assert(member[path[i - 1]]);
    }
}

/// Every pixel of the region is a member.
pub proof fn lemma_region_member(w: int, h: int, member: Seq<bool>, seed: int, p: int)
    requires
        in_region(w, h, member, seed, p),
    ensures
        0 <= p < member.len(),
        member[p],
{
    let path = choose|path: Seq<int>|
        #[trigger] is_path(w, h, member, path) && path[0] == seed && path.last() == p;
    assert(path[path.len() - 1] == p);
}

/// A region grows with its set of member pixels.
pub proof fn lemma_region_grows(
    w: int,
    h: int,
    small: Seq<bool>,
    large: Seq<bool>,
    seed: int,
    p: int,
)
    requires
        small.len() == large.len(),
        forall|i: int| 0 <= i < small.len() && #[trigger] small[i] ==> large[i],
        in_region(w, h, small, seed, p),
    ensures
        in_region(w, h, large, seed, p),
{
    let path = choose|path: Seq<int>|
        #[trigger] is_path(w, h, small, path) && path[0] == seed && path.last() == p;
    assert forall|i: int| 0 <= i < path.len() implies 0 <= #[trigger] path[i] < large.len()
        && large[path[i]] by {
        assert(small[path[i]]);
    }
    assert(is_path(w, h, large, path));
}

} // verus!
