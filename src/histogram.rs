use vstd::prelude::*;

use crate::error::SearchError;

verus! {

/// Number of intensity levels of an 8-bit grayscale image.
pub const GRAY_LEVELS: usize = 256;

/// How many of `pixels` have intensity `v`.
pub open spec fn pixel_count(pixels: Seq<u8>, v: int) -> nat
    decreases pixels.len(),
{
    if pixels.len() == 0 {
        0
    } else {
        pixel_count(pixels.drop_last(), v) + if pixels.last() == v { 1nat } else { 0nat }
    }
}

proof fn lemma_pixel_count_bound(pixels: Seq<u8>, v: int)
    ensures
        pixel_count(pixels, v) <= pixels.len(),
    decreases pixels.len(),
{
    if pixels.len() > 0 {
        lemma_pixel_count_bound(pixels.drop_last(), v);
    }
}

/// Counts per intensity of a grayscale pixel buffer: entry `v` is the number of
/// pixels with intensity `v`. An empty buffer has no distribution.
pub fn build_histogram(pixels: &Vec<u8>) -> (r: Result<Vec<u64>, SearchError>)
    ensures
        r is Err <==> pixels.len() == 0,
        r matches Err(e) ==> e == SearchError::ResourceEmpty,
        r matches Ok(h) ==> h@.len() == GRAY_LEVELS && forall|v: int|
            0 <= v < GRAY_LEVELS ==> #[trigger] h@[v] == pixel_count(pixels@, v),
{
    if pixels.len() == 0 {
        return Err(SearchError::ResourceEmpty);
    }
    let mut h: Vec<u64> = Vec::new();
    let mut v: usize = 0;
    while v < GRAY_LEVELS
        invariant
            v <= GRAY_LEVELS,
            h@.len() == v,
            forall|u: int| 0 <= u < v ==> #[trigger] h@[u] == 0,
        decreases GRAY_LEVELS - v,
    {
        h.push(0);
        v = v + 1;
    }
    let mut i: usize = 0;
    while i < pixels.len()
        invariant
            i <= pixels.len(),
            h@.len() == GRAY_LEVELS,
            forall|u: int| 0 <= u < GRAY_LEVELS ==> #[trigger] h@[u] == pixel_count(pixels@.take(i as int), u),
        decreases pixels.len() - i,
    {
        let p = pixels[i] as usize;
        proof {
            assert(pixels@.take(i + 1).drop_last() =~= pixels@.take(i as int));
            lemma_pixel_count_bound(pixels@.take(i as int), p as int);
        }
        let c = h[p];
        h.set(p, c + 1);
        i = i + 1;
    }
    assert(pixels@.take(i as int) =~= pixels@);
    Ok(h)
}

} // verus!
