//! Color similarity by squared Euclidean distance over the four RGBA channels.
use vstd::prelude::*;

verus! {

/// Squared Euclidean distance between the first four samples of two colors.
pub open spec fn distance_squared(a: Seq<u8>, b: Seq<u8>) -> int {
    (a[0] - b[0]) * (a[0] - b[0]) + (a[1] - b[1]) * (a[1] - b[1]) + (a[2] - b[2]) * (a[2]
        - b[2]) + (a[3] - b[3]) * (a[3] - b[3])
}

/// Two colors are similar when both hold four samples and their distance is at
/// most `tolerance / 100 * 441`, compared in squares scaled by `100 * 100`.
pub open spec fn similar(a: Seq<u8>, b: Seq<u8>, tolerance: int) -> bool {
    a.len() >= 4 && b.len() >= 4 && 10000 * distance_squared(a, b) <= (441 * tolerance) * (441
        * tolerance)
}

/// A color of four samples is similar to itself at every tolerance.
pub proof fn lemma_similar_to_itself(a: Seq<u8>, tolerance: int)
    requires
        a.len() >= 4,
    ensures
        similar(a, a, tolerance),
{
    assert(distance_squared(a, a) == 0);
    assert((441 * tolerance) * (441 * tolerance) >= 0) by (nonlinear_arith);
}

/// Raising the tolerance keeps every similar pair similar.
pub proof fn lemma_similar_monotone(a: Seq<u8>, b: Seq<u8>, t1: int, t2: int)
    requires
        0 <= t1 <= t2,
        similar(a, b, t1),
    ensures
        similar(a, b, t2),
{
    assert((441 * t1) * (441 * t1) <= (441 * t2) * (441 * t2)) by (nonlinear_arith)
        requires
            0 <= t1 <= t2,
    ;
}

/// The squared distance between the RGBA parts of two colors.
pub fn distance_squared_rgba(a: &[u8], b: &[u8]) -> (r: u32)
    requires
        a@.len() >= 4,
        b@.len() >= 4,
    ensures
        r == distance_squared(a@, b@),
{
    let d0: i32 = a[0] as i32 - b[0] as i32;
    let d1: i32 = a[1] as i32 - b[1] as i32;
    let d2: i32 = a[2] as i32 - b[2] as i32;
    let d3: i32 = a[3] as i32 - b[3] as i32;
    assert(0 <= d0 * d0 <= 65025) by (nonlinear_arith)
        requires
            -255 <= d0 <= 255,
    ;
    assert(0 <= d1 * d1 <= 65025) by (nonlinear_arith)
        requires
            -255 <= d1 <= 255,
    ;
    assert(0 <= d2 * d2 <= 65025) by (nonlinear_arith)
        requires
            -255 <= d2 <= 255,
    ;
    assert(0 <= d3 * d3 <= 65025) by (nonlinear_arith)
        requires
            -255 <= d3 <= 255,
    ;
    (d0 * d0 + d1 * d1 + d2 * d2 + d3 * d3) as u32
}

/// Whether two colors are similar under `tolerance` (0 to 100); a color with
/// fewer than four samples is never similar to anything.
pub fn is_similar_color(a: &[u8], b: &[u8], tolerance: u8) -> (r: bool)
    ensures
        r == similar(a@, b@, tolerance as int),
{
    if a.len() < 4 || b.len() < 4 {
        return false;
    }
    let d: u64 = distance_squared_rgba(a, b) as u64;
    let bound: u64 = 441 * tolerance as u64;
    assert(bound * bound <= 112455 * 112455) by (nonlinear_arith)
        requires
            bound <= 112455,
    ;
    10000 * d <= bound * bound
}

} // verus!
