//! Breadth-first region filling over an RGBA buffer.
use crate::color::{is_similar_color, similar};
use crate::grid::{
    adjacent, in_region, lemma_index, lemma_neighbors, lemma_region_closed, lemma_region_member,
    lemma_region_step, lemma_seed_in_region, pixel_at,
};
use std::collections::VecDeque;
use vstd::prelude::*;

verus! {

/// The number of unset flags.
pub open spec fn count_false(s: Seq<bool>) -> nat
    decreases s.len(),
{
    if s.len() == 0 {
        0
    } else {
        count_false(s.drop_last()) + if s.last() {
            0nat
        } else {
            1nat
        }
    }
}

proof fn lemma_count_false_set(s: Seq<bool>, i: int)
    requires
        0 <= i < s.len(),
        !s[i],
    ensures
        count_false(s.update(i, true)) + 1 == count_false(s),
    decreases s.len(),
{
    let t = s.update(i, true);
    if i == s.len() - 1 {
        assert(t.drop_last() =~= s.drop_last());
    } else {
        assert(t.drop_last() =~= s.drop_last().update(i, true));
        lemma_count_false_set(s.drop_last(), i);
    }
}

/// The row-major pixel index of a queued coordinate.
pub open spec fn index_of(w: int, c: (usize, usize)) -> int {
    c.1 * w + c.0
}

/// The bookkeeping of the traversal: every queued pixel lies in the grid, was
/// marked visited when queued and is not yet processed, and appears once; every
/// visited pixel is processed or queued, and is the seed or a neighbor of a
/// pixel of the region.
pub open spec fn frontier_ok(
    w: int,
    h: int,
    member: Seq<bool>,
    seed: int,
    visited: Seq<bool>,
    done: Seq<bool>,
    queue: Seq<(usize, usize)>,
) -> bool {
    &&& visited.len() == w * h
    &&& done.len() == w * h
    &&& member.len() == w * h
    &&& forall|j: int|
        0 <= j < queue.len() ==> {
            &&& (#[trigger] queue[j]).0 < w
            &&& queue[j].1 < h
            &&& visited[index_of(w, queue[j])]
            &&& !done[index_of(w, queue[j])]
        }
    &&& forall|i: int, j: int|
        0 <= i < j < queue.len() ==> index_of(w, #[trigger] queue[i]) != index_of(
            w,
            #[trigger] queue[j],
        )
    &&& forall|p: int| 0 <= p < w * h && #[trigger] done[p] ==> visited[p]
    &&& forall|p: int|
        0 <= p < w * h && #[trigger] visited[p] && !done[p] ==> exists|j: int|
            0 <= j < queue.len() && index_of(w, #[trigger] queue[j]) == p
    &&& forall|p: int|
        0 <= p < w * h && #[trigger] visited[p] ==> p == seed || exists|r: int|
            in_region(w, h, member, seed, r) && #[trigger] adjacent(w, h, r, p)
}

/// Marks pixel `(x, y)` visited and queues it, unless it was visited before.
fn enqueue(
    visited: &mut Vec<bool>,
    queue: &mut VecDeque<(usize, usize)>,
    w: usize,
    h: usize,
    x: usize,
    y: usize,
    Ghost(member): Ghost<Seq<bool>>,
    Ghost(seed): Ghost<int>,
    Ghost(done): Ghost<Seq<bool>>,
    Ghost(parent): Ghost<int>,
)
    requires
        x < w,
        y < h,
        frontier_ok(w as int, h as int, member, seed, old(visited)@, done, old(queue)@),
        in_region(w as int, h as int, member, seed, parent),
        adjacent(w as int, h as int, parent, y * w + x),
    ensures
        frontier_ok(w as int, h as int, member, seed, final(visited)@, done, final(queue)@),
        final(visited)@ == old(visited)@.update(y * w + x, true),
        count_false(final(visited)@) + final(queue)@.len() == count_false(old(visited)@) + old(
            queue,
        )@.len(),
{
    proof {
        lemma_index(w as int, h as int, x as int, y as int);
        assert(y * w + x < visited.len());
        assert(y * w <= y * w + x);
    }
    let p = y * w + x;
    if visited[p] {
        assert(visited@.update(p as int, true) =~= visited@);
        return;
    }
    let ghost v0 = visited@;
    let ghost q0 = queue@;
    proof {
        lemma_count_false_set(v0, p as int);
    }
    visited.set(p, true);
    queue.push_back((x, y));
    let ghost v1 = visited@;
    let ghost q1 = queue@;
    assert(q1[q1.len() - 1] == (x, y));
    assert(index_of(w as int, (x, y)) == p);
    assert forall|j: int| 0 <= j < q0.len() implies index_of(w as int, #[trigger] q0[j]) != p by {
    }
    assert forall|j: int| 0 <= j < q1.len() implies {
        &&& (#[trigger] q1[j]).0 < w
        &&& q1[j].1 < h
        &&& v1[index_of(w as int, q1[j])]
        &&& !done[index_of(w as int, q1[j])]
    } by {
        if j < q0.len() {
            assert(q1[j] == q0[j]);
            lemma_index(w as int, h as int, q0[j].0 as int, q0[j].1 as int);
        } else {
            assert(done[p as int] ==> v0[p as int]);
        }
    }
    assert forall|i: int| 0 <= i < v1.len() && #[trigger] done[i] implies v1[i] by {
        assert(v0[i]);
    }
    assert forall|i: int| 0 <= i < v1.len() && #[trigger] v1[i] && !done[i] implies exists|j: int|
        0 <= j < q1.len() && index_of(w as int, #[trigger] q1[j]) == i by {
        if i == p {
            assert(index_of(w as int, q1[q1.len() - 1]) == i);
        } else {
            let j = choose|j: int| 0 <= j < q0.len() && index_of(w as int, #[trigger] q0[j]) == i;
            assert(q1[j] == q0[j]);
        }
    }
    assert forall|i: int| 0 <= i < v1.len() && #[trigger] v1[i] implies i == seed || exists|r: int|
        in_region(w as int, h as int, member, seed, r) && #[trigger] adjacent(
            w as int,
            h as int,
            r,
            i,
        ) by {
        if i == p {
            assert(in_region(w as int, h as int, member, seed, parent));
        } else {
            assert(v0[i]);
        }
    }
    assert forall|i: int, j: int| 0 <= i < j < q1.len() implies index_of(
        w as int,
        #[trigger] q1[i],
    ) != index_of(w as int, #[trigger] q1[j]) by {
        if j == q1.len() - 1 {
            assert(q1[i] == q0[i]);
        } else {
            assert(q1[i] == q0[i] && q1[j] == q0[j]);
        }
    }
}

/// Processing the front of the queue keeps the bookkeeping.
proof fn lemma_pop_keeps(
    w: int,
    h: int,
    member: Seq<bool>,
    seed: int,
    visited: Seq<bool>,
    done: Seq<bool>,
    queue: Seq<(usize, usize)>,
)
    requires
        frontier_ok(w, h, member, seed, visited, done, queue),
        queue.len() > 0,
    ensures
        frontier_ok(
            w,
            h,
            member,
            seed,
            visited,
            done.update(index_of(w, queue[0]), true),
            queue.subrange(1, queue.len() as int),
        ),
{
    let p = index_of(w, queue[0]);
    lemma_index(w, h, queue[0].0 as int, queue[0].1 as int);
    let d1 = done.update(p, true);
    let q1 = queue.subrange(1, queue.len() as int);
    assert forall|j: int| 0 <= j < q1.len() implies {
        &&& (#[trigger] q1[j]).0 < w
        &&& q1[j].1 < h
        &&& visited[index_of(w, q1[j])]
        &&& !d1[index_of(w, q1[j])]
    } by {
        assert(q1[j] == queue[j + 1]);
        assert(index_of(w, queue[0]) != index_of(w, queue[j + 1]));
        lemma_index(w, h, q1[j].0 as int, q1[j].1 as int);
    }
    assert forall|i: int, j: int| 0 <= i < j < q1.len() implies index_of(
        w,
        #[trigger] q1[i],
    ) != index_of(w, #[trigger] q1[j]) by {
        assert(q1[i] == queue[i + 1] && q1[j] == queue[j + 1]);
    }
    assert forall|i: int| 0 <= i < w * h && #[trigger] d1[i] implies visited[i] by {
        if i != p {
            assert(done[i]);
        }
    }
    assert forall|i: int| 0 <= i < w * h && #[trigger] visited[i] && !d1[i] implies exists|j: int|
        0 <= j < q1.len() && index_of(w, #[trigger] q1[j]) == i by {
        let j = choose|j: int| 0 <= j < queue.len() && index_of(w, #[trigger] queue[j]) == i;
        assert(j != 0);
        assert(q1[j - 1] == queue[j]);
    }
}

/// The buffer after filling from `(sx, sy)` with `fill` the region of `member`
/// pixels that holds the seed. The buffer is left as it is when the seed lies
/// outside the grid, `fill` is not four samples, the buffer or the mask does not
/// match the grid, the seed already has color `fill`, or the seed is no member.
pub open spec fn fill_spec(
    p: Seq<u8>,
    w: int,
    h: int,
    sx: int,
    sy: int,
    fill: Seq<u8>,
    member: Seq<bool>,
) -> Seq<u8> {
    if sx >= w || sy >= h || fill.len() != 4 || p.len() != w * h * 4 || member.len() != w * h {
        p
    } else if pixel_at(p, sy * w + sx) == fill || !member[sy * w + sx] {
        p
    } else {
        Seq::new(
            p.len(),
            |k: int|
                if in_region(w, h, member, sy * w + sx, k / 4) {
                    fill[k % 4]
                } else {
                    p[k]
                },
        )
    }
}

/// Fills, in place, the 4-connected region around `(start_x, start_y)` whose
/// pixels are flagged in `member` (one flag per pixel, row-major), by a
/// breadth-first traversal with an explicit queue.
pub fn fill_region(
    pixels: &mut Vec<u8>,
    width: u32,
    height: u32,
    start_x: u32,
    start_y: u32,
    fill_color: &[u8],
    member: &Vec<bool>,
)
    ensures
        final(pixels)@ == fill_spec(
            old(pixels)@,
            width as int,
            height as int,
            start_x as int,
            start_y as int,
            fill_color@,
            member@,
        ),
{
    if start_x >= width || start_y >= height || fill_color.len() != 4 {
        return;
    }
    let len = pixels.len();
    assert((width as int) * (height as int) <= 0xffff_ffff * 0xffff_ffff) by (nonlinear_arith)
        requires
            width <= 0xffff_ffff,
            height <= 0xffff_ffff,
    ;
    let npix: u64 = width as u64 * height as u64;
    if len % 4 != 0 || (len / 4) as u64 != npix {
        return;
    }
    let n: usize = len / 4;
    if member.len() != n {
        return;
    }
    let w = width as usize;
    let h = height as usize;
    let sx = start_x as usize;
    let sy = start_y as usize;
    let ghost wi = w as int;
    let ghost hi = h as int;
    let ghost orig = pixels@;
    let ghost mem = member@;
    let ghost fill = fill_color@;
    proof {
        lemma_index(wi, hi, sx as int, sy as int);
        assert(sy * w <= sy * w + sx);
    }
    let seed = sy * w + sx;
    let ghost s = seed as int;
    let base = 4 * seed;
    if pixels[base] == fill_color[0] && pixels[base + 1] == fill_color[1] && pixels[base + 2]
        == fill_color[2] && pixels[base + 3] == fill_color[3] {
        assert(pixel_at(orig, s) =~= fill);
        return;
    }
    assert(pixel_at(orig, s) != fill) by {
        if pixel_at(orig, s) == fill {
            assert(pixel_at(orig, s)[0] == orig[base as int]);
            assert(pixel_at(orig, s)[1] == orig[base + 1]);
            assert(pixel_at(orig, s)[2] == orig[base + 2]);
            assert(pixel_at(orig, s)[3] == orig[base + 3]);
        }
    }
    if !member[seed] {
        return;
    }
    let mut visited: Vec<bool> = Vec::new();
    let mut i: usize = 0;
    while i < n
        invariant
            visited@.len() == i,
            i <= n,
            forall|j: int| 0 <= j < i ==> !visited@[j],
        decreases n - i,
    {
        visited.push(false);
        i += 1;
    }
    let ghost mut done: Seq<bool> = Seq::new(n as nat, |j: int| false);
    let mut queue: VecDeque<(usize, usize)> = VecDeque::new();
    visited.set(seed, true);
    queue.push_back((sx, sy));
    assert(index_of(wi, queue@[0]) == s);
    assert(frontier_ok(wi, hi, mem, s, visited@, done, queue@));
    while queue.len() > 0
        invariant
            frontier_ok(wi, hi, mem, s, visited@, done, queue@),
            wi == w,
            hi == h,
            n == wi * hi,
            orig.len() == 4 * n,
            pixels@.len() == orig.len(),
            mem == member@,
            fill == fill_color@,
            fill.len() == 4,
            0 <= s < n,
            visited@[s],
            mem[s],
            forall|k: int|
                0 <= k < orig.len() ==> #[trigger] pixels@[k] == if done[k / 4] && mem[k / 4] {
                    fill[k % 4]
                } else {
                    orig[k]
                },
            forall|p: int| 0 <= p < n && #[trigger] done[p] && mem[p] ==> in_region(wi, hi, mem, s, p),
            forall|a: int, b: int|
                0 <= a < n && done[a] && mem[a] && #[trigger] adjacent(wi, hi, a, b) ==> visited@[b],
        decreases count_false(visited@) + queue@.len(),
    {
        let ghost qa = queue@;
        let (x, y) = queue.pop_front().unwrap();
        proof {
            lemma_pop_keeps(wi, hi, mem, s, visited@, done, qa);
            lemma_index(wi, hi, x as int, y as int);
            assert(y * w <= y * w + x);
        }
        let p = y * w + x;
        let ghost done0 = done;
        proof {
            done = done.update(p as int, true);
        }
        if member[p] {
            assert(in_region(wi, hi, mem, s, p as int)) by {
                assert(visited@[p as int]);
                if p as int == s {
                    lemma_seed_in_region(wi, hi, mem, s);
                } else {
                    let r = choose|r: int|
                        in_region(wi, hi, mem, s, r) && #[trigger] adjacent(wi, hi, r, p as int);
                    lemma_region_step(wi, hi, mem, s, r, p as int);
                }
            }
            let ghost px0 = pixels@;
            assert(4 * p < pixels.len());
            let at = 4 * p;
            pixels.set(at, fill_color[0]);
            pixels.set(at + 1, fill_color[1]);
            pixels.set(at + 2, fill_color[2]);
            pixels.set(at + 3, fill_color[3]);
            assert forall|k: int| 0 <= k < orig.len() implies #[trigger] pixels@[k] == if done[k / 4]
                && mem[k / 4] {
                fill[k % 4]
            } else {
                orig[k]
            } by {
                if k / 4 != p {
                    assert(pixels@[k] == px0[k]);
                }
            }
            let ghost v0 = visited@;
            if x > 0 {
                proof {
                    lemma_index(wi, hi, x - 1, y as int);
                }
                enqueue(
                    &mut visited,
                    &mut queue,
                    w,
                    h,
                    x - 1,
                    y,
                    Ghost(mem),
                    Ghost(s),
                    Ghost(done),
                    Ghost(p as int),
                );
            }
            if x + 1 < w {
                proof {
                    lemma_index(wi, hi, x + 1, y as int);
                }
                enqueue(
                    &mut visited,
                    &mut queue,
                    w,
                    h,
                    x + 1,
                    y,
                    Ghost(mem),
                    Ghost(s),
                    Ghost(done),
                    Ghost(p as int),
                );
            }
            if y > 0 {
                proof {
                    lemma_index(wi, hi, x as int, y - 1);
                    assert((y - 1) * w + x == y * w + x - w) by (nonlinear_arith);
                }
                enqueue(
                    &mut visited,
                    &mut queue,
                    w,
                    h,
                    x,
                    y - 1,
                    Ghost(mem),
                    Ghost(s),
                    Ghost(done),
                    Ghost(p as int),
                );
            }
            if y + 1 < h {
                proof {
                    lemma_index(wi, hi, x as int, y + 1);
                    assert((y + 1) * w + x == y * w + x + w) by (nonlinear_arith);
                }
                enqueue(
                    &mut visited,
                    &mut queue,
                    w,
                    h,
                    x,
                    y + 1,
                    Ghost(mem),
                    Ghost(s),
                    Ghost(done),
                    Ghost(p as int),
                );
            }
            assert forall|a: int, b: int|
                0 <= a < n && done[a] && mem[a] && #[trigger] adjacent(wi, hi, a, b) implies visited@[b] by {
                if a == p {
                    lemma_neighbors(wi, hi, x as int, y as int, b);
                    assert((y - 1) * w + x == y * w + x - w) by (nonlinear_arith);
                    assert((y + 1) * w + x == y * w + x + w) by (nonlinear_arith);
                } else {
                    assert(v0[b]);
                }
            }
        } else {
            assert forall|k: int| 0 <= k < orig.len() implies #[trigger] pixels@[k] == if done[k / 4]
                && mem[k / 4] {
                fill[k % 4]
            } else {
                orig[k]
            } by {
                assert(pixels@[k] == if done0[k / 4] && mem[k / 4] { fill[k % 4] } else { orig[k] });
            }
        }
    }
    proof {
        assert forall|a: int, b: int|
            0 <= a < done.len() && done[a] && mem[a] && #[trigger] adjacent(wi, hi, a, b) implies done[b] by {
            assert(visited@[b]);
        }
        assert forall|k: int| 0 <= k < orig.len() implies pixels@[k] == (if in_region(wi, hi, mem, s, k / 4) {
            fill[k % 4]
        } else {
            orig[k]
        }) by {
            if in_region(wi, hi, mem, s, k / 4) {
                lemma_region_closed(wi, hi, mem, s, done, k / 4);
                lemma_region_member(wi, hi, mem, s, k / 4);
            }
            assert(pixels@[k] == if done[k / 4] && mem[k / 4] { fill[k % 4] } else { orig[k] });
        }
    }
    assert(pixels@ =~= fill_spec(orig, wi, hi, sx as int, sy as int, fill, mem));
}

/// One flag per pixel of the first `n`: whether its color is similar to
/// `target` under `tolerance`.
pub open spec fn similarity_mask(p: Seq<u8>, n: int, target: Seq<u8>, tolerance: int) -> Seq<
    bool,
> {
    Seq::new(n as nat, |i: int| similar(pixel_at(p, i), target, tolerance))
}

/// The buffer after a flood fill: the region of pixels similar to the seed's
/// color before the fill, 4-connected to the seed, takes color `fill`.
pub open spec fn flood_fill_spec(
    p: Seq<u8>,
    w: int,
    h: int,
    sx: int,
    sy: int,
    fill: Seq<u8>,
    tolerance: int,
) -> Seq<u8> {
    if sx >= w || sy >= h || fill.len() != 4 || p.len() != w * h * 4 {
        p
    } else {
        fill_spec(p, w, h, sx, sy, fill, similarity_mask(p, w * h, pixel_at(p, sy * w + sx), tolerance))
    }
}

/// The similarity flags of the first `n` pixels of `pixels` against `target`.
pub fn similarity_mask_of(pixels: &[u8], n: usize, target: &[u8], tolerance: u8) -> (r: Vec<bool>)
    requires
        pixels@.len() == 4 * n,
    ensures
        r@ == similarity_mask(pixels@, n as int, target@, tolerance as int),
{
    let len = pixels.len();
    let mut r: Vec<bool> = Vec::new();
    let mut i: usize = 0;
    while i < n
        invariant
            pixels@.len() == 4 * n,
            len == pixels@.len(),
            i <= n,
            r@ == similarity_mask(pixels@, i as int, target@, tolerance as int),
        decreases n - i,
    {
        assert(4 * i + 4 <= len);
        let color = &pixels[4 * i..4 * i + 4];
        r.push(is_similar_color(color, target, tolerance));
        i += 1;
        assert(r@ =~= similarity_mask(pixels@, i as int, target@, tolerance as int));
    }
    r
}

/// Fills the 4-connected region of pixels whose color is similar to the
/// seed's (squared RGBA distance within `tolerance / 100 * 441`, squared) with
/// `fill_color`, and returns the new buffer. Each pixel is compared by its
/// color before the fill: a pixel is written only when the traversal reaches it,
/// so that is the color found there at that moment. The buffer comes back as it is
/// when the seed lies outside the grid, `fill_color` is not four samples, the
/// buffer is not `width * height` RGBA pixels, or the seed already has the fill
/// color.
pub fn flood_fill(
    pixels: &[u8],
    width: u32,
    height: u32,
    start_x: u32,
    start_y: u32,
    fill_color: &[u8],
    tolerance: u8,
) -> (r: Vec<u8>)
    ensures
        r@ == flood_fill_spec(
            pixels@,
            width as int,
            height as int,
            start_x as int,
            start_y as int,
            fill_color@,
            tolerance as int,
        ),
{
    let mut data = vstd::slice::slice_to_vec(pixels);
    if start_x >= width || start_y >= height || fill_color.len() != 4 {
        return data;
    }
    let len = pixels.len();
    assert((width as int) * (height as int) <= 0xffff_ffff * 0xffff_ffff) by (nonlinear_arith)
        requires
            width <= 0xffff_ffff,
            height <= 0xffff_ffff,
    ;
    let npix: u64 = width as u64 * height as u64;
    if len % 4 != 0 || (len / 4) as u64 != npix {
        return data;
    }
    let n: usize = len / 4;
    let w = width as usize;
    proof {
        lemma_index(w as int, height as int, start_x as int, start_y as int);
        assert(start_y as usize * w <= start_y as usize * w + start_x as usize);
    }
    let seed = start_y as usize * w + start_x as usize;
    let target = &pixels[4 * seed..4 * seed + 4];
    let mask = similarity_mask_of(pixels, n, target, tolerance);
    fill_region(&mut data, width, height, start_x, start_y, fill_color, &mask);
    data
}

} // verus!
