//! The dominant colours of an image.
//!
//! Colours are sorted into coarse buckets, eight steps to a channel, and the
//! buckets are ranked by the number of pixels that fall into them.
use vstd::prelude::*;
use crate::fingerprint::{is_ranking, rank};
use crate::raster::Image;

verus! {

/// The width of a colour bucket on each channel.
pub const BUCKET: u8 = 32;

/// The number of colour buckets: eight steps on each of three channels.
pub const BUCKETS: usize = 512;

/// The number of dominant colours that are reported.
pub const DOMINANT: usize = 5;

/// The position of a colour bucket, given by its step on each channel.
pub open spec fn key_of(color: (u8, u8, u8)) -> int {
    color.0 * 64 + color.1 * 8 + color.2
}

/// The colour bucket at a position.
pub open spec fn color_of(key: int) -> (u8, u8, u8) {
    ((key / 64) as u8, (key / 8 % 8) as u8, (key % 8) as u8)
}

/// The position of the bucket of the `i`-th pixel of a buffer of pixels.
pub open spec fn pixel_key(data: Seq<u8>, i: int) -> int {
    key_of((data[4 * i] / BUCKET, data[4 * i + 1] / BUCKET, data[4 * i + 2] / BUCKET))
}

/// The number of pixels among the first `n` that fall into the bucket at `key`.
pub open spec fn population(data: Seq<u8>, key: int, n: int) -> nat
    decreases n,
{
    if n <= 0 {
        0
    } else {
        population(data, key, n - 1) + if pixel_key(data, n - 1) == key {
            1nat
        } else {
            0nat
        }
    }
}

/// A bucket holds no more pixels than have been counted.
pub proof fn lemma_population_bound(data: Seq<u8>, key: int, n: int)
    requires
        0 <= n,
    ensures
        population(data, key, n) <= n,
    decreases n,
{
    if n > 0 {
        lemma_population_bound(data, key, n - 1);
    }
}

/// Counts the pixels of each colour bucket.
pub fn histogram(image: &Image) -> (counts: Vec<u32>)
    requires
        image.wf(),
        image.width * image.height <= u32::MAX,
    ensures
        counts.len() == BUCKETS,
        forall|key: int|
            0 <= key < BUCKETS ==> #[trigger] counts[key] == population(
                image.data@,
                key,
                image.width * image.height,
            ),
{
    let mut counts: Vec<u32> = Vec::new();
    let mut k: usize = 0;
    while k < BUCKETS
        invariant
            k <= BUCKETS,
            counts.len() == k,
            forall|j: int| 0 <= j < k ==> counts[j] == 0,
        decreases BUCKETS - k,
    {
        counts.push(0);
        k = k + 1;
    }
    let pixels: usize = image.data.len() / 4;
    let mut i: usize = 0;
    while i < pixels
        invariant
            i <= pixels,
            pixels == image.width * image.height,
            pixels <= u32::MAX,
            image.data.len() == 4 * pixels,
            counts.len() == BUCKETS,
            forall|key: int|
                0 <= key < BUCKETS ==> #[trigger] counts[key] == population(image.data@, key, i as int),
        decreases pixels - i,
    {
        let r: usize = (image.data[4 * i] / BUCKET) as usize;
        let g: usize = (image.data[4 * i + 1] / BUCKET) as usize;
        let b: usize = (image.data[4 * i + 2] / BUCKET) as usize;
        let key: usize = r * 64 + g * 8 + b;
        proof {
            lemma_population_bound(image.data@, key as int, i as int);
        }
        let count: u32 = counts[key];
        counts[key] = count + 1;
        i = i + 1;
    }
    counts
}

/// Whether `colors` lists the dominant colours of an image with the given
/// histogram: colours that occur, the most frequent first, and none that is
/// left out occurs more often than one that is listed. Only where fewer than
/// `DOMINANT` colours occur is the list shorter than that.
pub open spec fn is_palette(counts: Seq<u32>, colors: Seq<(u8, u8, u8)>) -> bool {
    &&& colors.len() <= DOMINANT
    &&& forall|j: int|
        0 <= j < colors.len() ==> 0 <= key_of(#[trigger] colors[j]) < BUCKETS && counts[key_of(
            colors[j],
        )] > 0
    &&& forall|i: int, j: int|
        0 <= i < j < colors.len() ==> colors[i] != colors[j] && counts[key_of(#[trigger] colors[i])]
            >= counts[key_of(#[trigger] colors[j])]
    &&& forall|key: int, j: int|
        0 <= key < BUCKETS && 0 <= j < colors.len() && !colors.contains(color_of(key))
            ==> #[trigger] counts[key] <= counts[key_of(#[trigger] colors[j])]
    &&& forall|key: int|
        0 <= key < BUCKETS && colors.len() < DOMINANT && !colors.contains(color_of(key))
            ==> #[trigger] counts[key] == 0
}

/// The colour bucket at a position, and back.
pub proof fn lemma_key_of_color(key: int)
    requires
        0 <= key < BUCKETS,
    ensures
        key_of(color_of(key)) == key,
        color_of(key).0 < 8,
        color_of(key).1 < 8,
        color_of(key).2 < 8,
{
}

/// Finds the dominant colours of the image: the steps on red, green and
/// blue of the `DOMINANT` most frequent colour buckets, the most frequent
/// first.
pub fn colors(image: &Image) -> (colors: Vec<(u8, u8, u8)>)
    requires
        image.wf(),
        image.width * image.height <= u32::MAX,
    ensures
        exists|counts: Seq<u32>|
            {
                &&& #[trigger] is_palette(counts, colors@)
                &&& counts.len() == BUCKETS
                &&& forall|key: int|
                    0 <= key < BUCKETS ==> #[trigger] counts[key] == population(
                        image.data@,
                        key,
                        image.width * image.height,
                    )
            },
{
    let counts: Vec<u32> = histogram(image);
    // Ranking by what is missing to the largest count ranks by count, largest first.
    let mut missing: Vec<u32> = Vec::new();
    let mut k: usize = 0;
    while k < BUCKETS
        invariant
            k <= BUCKETS,
            counts.len() == BUCKETS,
            missing.len() == k,
            forall|j: int| 0 <= j < k ==> #[trigger] missing[j] == u32::MAX - counts[j],
        decreases BUCKETS - k,
    {
        missing.push(u32::MAX - counts[k]);
        k = k + 1;
    }
    let order: Vec<usize> = rank(&missing, DOMINANT);
    let mut colors: Vec<(u8, u8, u8)> = Vec::new();
    let mut i: usize = 0;
    while i < order.len() && counts[order[i]] > 0
        invariant
            i <= order.len(),
            order.len() == DOMINANT,
            counts.len() == BUCKETS,
            missing.len() == BUCKETS,
            forall|j: int| 0 <= j < BUCKETS ==> #[trigger] missing[j] == u32::MAX - counts[j],
            is_ranking(missing@, order@, BUCKETS as int),
            colors.len() == i,
            forall|j: int| 0 <= j < i ==> #[trigger] colors[j] == color_of(order[j] as int),
            forall|j: int| 0 <= j < i ==> counts[#[trigger] order[j] as int] > 0,
        decreases order.len() - i,
    {
        let key: usize = order[i];
        colors.push(((key / 64) as u8, (key / 8 % 8) as u8, (key % 8) as u8));
        i = i + 1;
    }
    proof {
        let taken = colors@;
        assert forall|j: int| 0 <= j < taken.len() implies key_of(#[trigger] taken[j]) == order[j] by {
            lemma_key_of_color(order[j] as int);
        }
        assert forall|a: int, b: int| 0 <= a < b < taken.len() implies taken[a] != taken[b]
            && counts[key_of(#[trigger] taken[a])] >= counts[key_of(#[trigger] taken[b])] by {
            assert(crate::fingerprint::precedes(missing@, order[a] as int, order[b] as int));
        }
        assert forall|key: int| 0 <= key < BUCKETS && !taken.contains(color_of(key)) implies (forall|
            j: int,
        |
            0 <= j < taken.len() ==> counts[key] <= counts[key_of(#[trigger] taken[j])]) && (taken.len()
            < DOMINANT ==> counts[key] == 0) by {
            lemma_key_of_color(key);
            if order@.contains(key as usize) {
                // The bucket was ranked but not taken: it lies behind a bucket without pixels.
                let p = choose|p: int| 0 <= p < order.len() && order[p] == key as usize;
                if p < taken.len() {
                    assert(taken[p] == color_of(key));
                }
                assert(counts[order[i as int] as int] == 0);
                if p > i {
                    assert(crate::fingerprint::precedes(missing@, order[i as int] as int, order[p] as int));
                }
            } else {
                assert forall|j: int| 0 <= j < order.len() implies counts[key] <= counts[order[j] as int] by {
                    assert(crate::fingerprint::precedes(missing@, order[j] as int, key));
                }
                if taken.len() < DOMINANT {
                    assert(counts[order[i as int] as int] == 0);
                }
            }
        }
        assert(is_palette(counts@, taken));
    }
    colors
}

} // verus!
