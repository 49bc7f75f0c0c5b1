//! Fingerprint matching: the Hamming distance between perceptual hashes, and
//! the ranking of a catalog by distance.
use vstd::prelude::*;
use crate::raster::Image;
use vstd::string::StringSliceAdditionalSpecFns;

verus! {

/// The width and the height of the hash, in cells.
pub const HASH_SIZE: u32 = 16;

/// The number of bytes of a fingerprint: one bit for each cell of a 16×16 hash.
pub const HASH_BYTES: usize = 32;

/// `img_hash::InvalidBytesError`, the error of `ImageHash::from_base64`.
/// Nothing of an error is known to the proofs.
#[verifier::external_type_specification]
#[verifier::external_body]
pub struct ExInvalidBytesError(img_hash::InvalidBytesError);

/// The text that `img_hash::ImageHash::to_base64` gives for a hash of the
/// bytes `bits`.
pub uninterp spec fn hash_to_base64(bits: Seq<u8>) -> Seq<char>;

/// The bytes of the hash that `img_hash::ImageHash::from_base64` reads from
/// `text`, or `None` where it reports an error.
pub uninterp spec fn hash_from_base64(text: Seq<char>) -> Option<Seq<u8>>;

/// Calls `img_hash::Hasher::hash_image`, configured for the gradient
/// algorithm with `width × height` cells, on the image.
///
/// The hash rests on a resampling of the image whose precision the standard
/// library leaves open, so nothing is claimed of its bits. Its length is one
/// bit for each cell, rounded up to whole bytes.
#[verifier::external_body]
fn hash_image(image: &Image, width: u32, height: u32) -> (bits: Vec<u8>)
    requires
        image.wf(),
        image.width > 0,
        image.height > 0,
        0 < width <= 256,
        0 < height <= 256,
    ensures
        bits.len() == (width * height + 7) / 8,
{
    let buffer = image::RgbaImage::from_raw(image.width, image.height, image.data.clone()).unwrap();
    let hasher = img_hash::HasherConfig::new()
        .hash_size(width, height)
        .hash_alg(img_hash::HashAlg::Gradient)
        .to_hasher();
    hasher.hash_image(&image::DynamicImage::ImageRgba8(buffer)).as_bytes().to_vec()
}

/// Calls `img_hash::ImageHash::to_base64` on a hash of the given bytes.
///
/// The text is the Base64 encoding of the bytes: it holds no space, and
/// `from_base64` reads the same bytes back from it.
#[verifier::external_body]
fn encode_base64(bits: &Vec<u8>) -> (text: String)
    requires
        bits.len() <= 0x1000_0000,
    ensures
        text@ == hash_to_base64(bits@),
        hash_from_base64(text@) == Some(bits@),
        !text@.contains(' '),
{
    img_hash::ImageHash::<Box<[u8]>>::from_bytes(bits).unwrap().to_base64()
}

/// Calls `img_hash::ImageHash::from_base64` and hands out the bytes of the
/// hash, or the error.
#[verifier::external_body]
fn decode_base64(text: &str) -> (r: Result<Vec<u8>, img_hash::InvalidBytesError>)
    ensures
        r.is_ok() == hash_from_base64(text@).is_some(),
        r.is_ok() ==> r.unwrap()@ == hash_from_base64(text@).unwrap(),
{
    match img_hash::ImageHash::<Box<[u8]>>::from_base64(text) {
        Ok(hash) => Ok(hash.as_bytes().to_vec()),
        Err(error) => Err(error),
    }
}

/// A perceptual hash: a vector of bits, eight to a byte.
#[derive(Clone, Debug)]
pub struct Fingerprint {
    pub bits: Vec<u8>,
}

impl Fingerprint {
    /// A fingerprint has the fixed length of `HASH_BYTES` bytes.
    pub open spec fn wf(&self) -> bool {
        self.bits.len() == HASH_BYTES
    }

    /// The Hamming distance to `other`: the number of bits in which the two
    /// fingerprints differ.
    pub fn dist(&self, other: &Fingerprint) -> (d: u32)
        requires
            self.wf(),
            other.wf(),
        ensures
            d == distance(self.bits@, other.bits@),
            d <= 8 * HASH_BYTES,
    {
        let mut total: u32 = 0;
        let mut i: usize = 0;
        while i < HASH_BYTES
            invariant
                i <= HASH_BYTES,
                self.bits.len() == HASH_BYTES,
                other.bits.len() == HASH_BYTES,
                total == distance_upto(self.bits@, other.bits@, i as int),
                total <= 8 * i,
            decreases HASH_BYTES - i,
        {
            let c: u8 = count_ones(self.bits[i] ^ other.bits[i]);
            total = total + c as u32;
            i = i + 1;
        }
        total
    }
}

impl Fingerprint {
    /// The fingerprint of an image: its 16×16 gradient hash.
    pub fn of_image(image: &Image) -> (hash: Fingerprint)
        requires
            image.wf(),
            image.width > 0,
            image.height > 0,
        ensures
            hash.wf(),
    {
        Fingerprint { bits: hash_image(image, HASH_SIZE, HASH_SIZE) }
    }

    /// The fingerprint as Base64 text.
    pub fn to_base64(&self) -> (text: String)
        requires
            self.wf(),
        ensures
            text@ == hash_to_base64(self@),
            hash_from_base64(text@) == Some(self@),
            !text@.contains(' '),
    {
        encode_base64(&self.bits)
    }

    /// Reads a fingerprint from Base64 text: `None` where the text is no
    /// Base64, or does not hold `HASH_BYTES` bytes.
    pub fn from_base64(text: &str) -> (hash: Option<Fingerprint>)
        ensures
            hash.is_some() <==> hash_from_base64(text@).is_some() && hash_from_base64(
                text@,
            ).unwrap().len() == HASH_BYTES,
            hash.is_some() ==> hash.unwrap().wf() && hash.unwrap()@ == hash_from_base64(
                text@,
            ).unwrap(),
    {
        match decode_base64(text) {
            Ok(bits) => {
                if bits.len() == HASH_BYTES {
                    Some(Fingerprint { bits })
                } else {
                    None
                }
            },
            Err(_) => None,
        }
    }
}

impl View for Fingerprint {
    type V = Seq<u8>;

    open spec fn view(&self) -> Seq<u8> {
        self.bits@
    }
}

/// The number of bits that are set in the lowest `n` bits of `b`.
pub open spec fn low_ones(b: u8, n: nat) -> nat
    decreases n,
{
    if n == 0 {
        0
    } else {
        low_ones(b / 2, (n - 1) as nat) + (b % 2) as nat
    }
}

/// The number of bits that are set in `b`.
pub open spec fn ones(b: u8) -> nat {
    low_ones(b, 8)
}

/// The number of differing bits in the first `n` bytes of `a` and `b`.
pub open spec fn distance_upto(a: Seq<u8>, b: Seq<u8>, n: int) -> nat
    decreases n,
{
    if n <= 0 {
        0
    } else {
        distance_upto(a, b, n - 1) + ones(a[n - 1] ^ b[n - 1])
    }
}

/// The Hamming distance between `a` and `b`, counted over the bytes that
/// both have.
pub open spec fn distance(a: Seq<u8>, b: Seq<u8>) -> nat {
    distance_upto(
        a,
        b,
        if a.len() <= b.len() {
            a.len() as int
        } else {
            b.len() as int
        },
    )
}

/// Counts the bits that are set in `b`.
pub fn count_ones(b: u8) -> (n: u8)
    ensures
        n == ones(b),
        n <= 8,
{
    let mut rest: u8 = b;
    let mut n: u8 = 0;
    let mut k: u8 = 0;
    while k < 8
        invariant
            k <= 8,
            n <= k,
            n + low_ones(rest, (8 - k) as nat) == ones(b),
        decreases 8 - k,
    {
        n = n + rest % 2;
        rest = rest / 2;
        k = k + 1;
    }
    n
}

/// A byte has no bit in which it differs from itself.
pub proof fn lemma_same_byte(x: u8)
    ensures
        ones(x ^ x) == 0,
{
    assert(x ^ x == 0) by (bit_vector);
    assert(low_ones(0, 8) == 0) by {
        reveal_with_fuel(low_ones, 9);
    }
}

/// Two bytes differ in the same bits whichever comes first.
pub proof fn lemma_swapped_bytes(x: u8, y: u8)
    ensures
        ones(x ^ y) == ones(y ^ x),
{
    assert(x ^ y == y ^ x) by (bit_vector);
}

/// Every fingerprint is at distance zero from itself.
pub proof fn lemma_distance_to_self(h: Seq<u8>)
    ensures
        distance(h, h) == 0,
{
    lemma_distance_to_self_upto(h, h.len() as int);
}

proof fn lemma_distance_to_self_upto(h: Seq<u8>, n: int)
    ensures
        distance_upto(h, h, n) == 0,
    decreases n,
{
    if n > 0 {
        lemma_distance_to_self_upto(h, n - 1);
        lemma_same_byte(h[n - 1]);
    }
}

/// The distance between two fingerprints does not depend on their order.
pub proof fn lemma_distance_symmetric(a: Seq<u8>, b: Seq<u8>)
    ensures
        distance(a, b) == distance(b, a),
{
    let n = if a.len() <= b.len() {
        a.len() as int
    } else {
        b.len() as int
    };
    lemma_distance_symmetric_upto(a, b, n);
}

proof fn lemma_distance_symmetric_upto(a: Seq<u8>, b: Seq<u8>, n: int)
    ensures
        distance_upto(a, b, n) == distance_upto(b, a, n),
    decreases n,
{
    if n > 0 {
        lemma_distance_symmetric_upto(a, b, n - 1);
        lemma_swapped_bytes(a[n - 1], b[n - 1]);
    }
}

/// The bits set in the difference of two bytes are set in one of them.
proof fn lemma_low_ones_xor(a: u8, b: u8, n: nat)
    ensures
        low_ones(a ^ b, n) <= low_ones(a, n) + low_ones(b, n),
    decreases n,
{
    if n > 0 {
        assert((a ^ b) / 2 == (a / 2) ^ (b / 2)) by (bit_vector);
        assert((a ^ b) % 2 <= a % 2 + b % 2) by (bit_vector);
        lemma_low_ones_xor(a / 2, b / 2, (n - 1) as nat);
    }
}

/// Two bytes differ in no more bits than each differs from a third.
pub proof fn lemma_bytes_triangle(x: u8, y: u8, z: u8)
    ensures
        ones(x ^ z) <= ones(x ^ y) + ones(y ^ z),
{
    assert(x ^ z == (x ^ y) ^ (y ^ z)) by (bit_vector);
    lemma_low_ones_xor(x ^ y, y ^ z, 8);
}

/// A byte below `2^n` whose lowest `n` bits are clear is zero.
proof fn lemma_low_ones_zero(b: u8, n: nat)
    requires
        low_ones(b, n) == 0,
        n <= 8,
        b < vstd::arithmetic::power2::pow2(n),
    ensures
        b == 0,
    decreases n,
{
    vstd::arithmetic::power2::lemma2_to64();
    if n > 0 {
        vstd::arithmetic::power2::lemma_pow2_unfold(n);
        lemma_low_ones_zero(b / 2, (n - 1) as nat);
    }
}

/// Bytes that differ in no bit are equal.
pub proof fn lemma_equal_bytes(x: u8, y: u8)
    requires
        ones(x ^ y) == 0,
    ensures
        x == y,
{
    vstd::arithmetic::power2::lemma2_to64();
    lemma_low_ones_zero(x ^ y, 8);
    assert(x ^ y == 0 ==> x == y) by (bit_vector);
}

/// The distance obeys the triangle inequality: between fingerprints of one
/// length, the way over a third is no shorter.
pub proof fn lemma_distance_triangle(a: Seq<u8>, b: Seq<u8>, c: Seq<u8>)
    requires
        a.len() == b.len(),
        b.len() == c.len(),
    ensures
        distance(a, c) <= distance(a, b) + distance(b, c),
{
    lemma_distance_triangle_upto(a, b, c, a.len() as int);
}

proof fn lemma_distance_triangle_upto(a: Seq<u8>, b: Seq<u8>, c: Seq<u8>, n: int)
    ensures
        distance_upto(a, c, n) <= distance_upto(a, b, n) + distance_upto(b, c, n),
    decreases n,
{
    if n > 0 {
        lemma_distance_triangle_upto(a, b, c, n - 1);
        lemma_bytes_triangle(a[n - 1], b[n - 1], c[n - 1]);
    }
}

/// Only a fingerprint itself is at distance zero from it: fingerprints of
/// one length at distance zero are equal.
pub proof fn lemma_distance_zero(a: Seq<u8>, b: Seq<u8>)
    requires
        a.len() == b.len(),
        distance(a, b) == 0,
    ensures
        a == b,
{
    lemma_distance_zero_upto(a, b, a.len() as int);
    assert(a =~= b);
}

proof fn lemma_distance_zero_upto(a: Seq<u8>, b: Seq<u8>, n: int)
    requires
        distance_upto(a, b, n) == 0,
    ensures
        forall|i: int| 0 <= i < n ==> a[i] == b[i],
    decreases n,
{
    if n > 0 {
        lemma_distance_zero_upto(a, b, n - 1);
        lemma_equal_bytes(a[n - 1], b[n - 1]);
    }
}

/// Whether catalog entry `i` comes before entry `j` in the ranking: it is
/// closer, or as close and earlier in the catalog.
pub open spec fn precedes(distances: Seq<u32>, i: int, j: int) -> bool {
    distances[i] < distances[j] || (distances[i] == distances[j] && i < j)
}

/// Whether `order` lists the `order.len()` best entries of the first `m`
/// entries of the catalog, best first: it is sorted, and every entry that it
/// leaves out comes after all that it holds.
pub open spec fn is_ranking(distances: Seq<u32>, order: Seq<usize>, m: int) -> bool {
    &&& forall|i: int| 0 <= i < order.len() ==> 0 <= #[trigger] order[i] < m
    &&& forall|i: int, j: int|
        0 <= i < j < order.len() ==> precedes(distances, #[trigger] order[i] as int, #[trigger] order[j] as int)
    &&& forall|k: int, i: int|
        0 <= k < m && 0 <= i < order.len() && !order.contains(k as usize) ==> #[trigger] precedes(
            distances,
            order[i] as int,
            k,
        )
}

/// A catalog has one ranking of each length: two rankings of the same
/// entries that are equally long are equal.
pub proof fn lemma_ranking_unique(distances: Seq<u32>, first: Seq<usize>, second: Seq<usize>, m: int)
    requires
        is_ranking(distances, first, m),
        is_ranking(distances, second, m),
        first.len() == second.len(),
    ensures
        first == second,
{
    lemma_ranking_agrees(distances, first, second, m, first.len() as int);
    assert(first =~= second);
}

proof fn lemma_ranking_agrees(distances: Seq<u32>, first: Seq<usize>, second: Seq<usize>, m: int, n: int)
    requires
        is_ranking(distances, first, m),
        is_ranking(distances, second, m),
        first.len() == second.len(),
        0 <= n <= first.len(),
    ensures
        forall|i: int| 0 <= i < n ==> first[i] == second[i],
    decreases n,
{
    if n > 0 {
        lemma_ranking_agrees(distances, first, second, m, n - 1);
        let i = n - 1;
        let a = first[i];
        let b = second[i];
        if a != b {
            // The one that comes before the other is missing from the other ranking.
            if precedes(distances, a as int, b as int) {
                lemma_not_listed(distances, first, second, m, i);
                assert(precedes(distances, second[i] as int, a as int));
            } else {
                lemma_not_listed(distances, second, first, m, i);
                assert(precedes(distances, first[i] as int, b as int));
            }
        }
    }
}

/// An entry that stands in one ranking where another ranking, equal up to
/// there, has an entry that comes after it, is missing from the other ranking.
proof fn lemma_not_listed(distances: Seq<u32>, first: Seq<usize>, second: Seq<usize>, m: int, i: int)
    requires
        is_ranking(distances, first, m),
        is_ranking(distances, second, m),
        first.len() == second.len(),
        0 <= i < first.len(),
        forall|j: int| 0 <= j < i ==> first[j] == second[j],
        precedes(distances, first[i] as int, second[i] as int),
    ensures
        !second.contains(first[i]),
{
    if second.contains(first[i]) {
        let j = choose|j: int| 0 <= j < second.len() && second[j] == first[i];
        if j < i {
            assert(precedes(distances, first[j] as int, first[i] as int));
        } else if j > i {
            assert(precedes(distances, second[i] as int, second[j] as int));
        }
    }
}

/// The length of a ranking of at most `count` entries out of `m`.
pub open spec fn ranking_len(count: int, m: int) -> int {
    if count <= m {
        count
    } else {
        m
    }
}

/// Ranks the catalog by distance and returns the positions of the `count`
/// closest entries, closest first; entries at the same distance keep the
/// order of the catalog.
pub fn rank(distances: &Vec<u32>, count: usize) -> (order: Vec<usize>)
    ensures
        order.len() == ranking_len(count as int, distances.len() as int),
        is_ranking(distances@, order@, distances.len() as int),
{
    let mut order: Vec<usize> = Vec::new();
    let mut m: usize = 0;
    while m < distances.len()
        invariant
            m <= distances.len(),
            order.len() == ranking_len(count as int, m as int),
            is_ranking(distances@, order@, m as int),
            order.len() < count ==> forall|k: usize| k < m ==> order@.contains(k),
        decreases distances.len() - m,
    {
        let ghost before = order@;
        let mut p: usize = 0;
        while p < order.len() && distances[order[p]] <= distances[m]
            invariant
                p <= order.len(),
                m < distances.len(),
                order@ == before,
                forall|i: int| 0 <= i < order.len() ==> 0 <= #[trigger] order[i] < m,
                forall|i: int| 0 <= i < p ==> distances[order[i] as int] <= distances[m as int],
            decreases order.len() - p,
        {
            p = p + 1;
        }
        if p < count {
            order.insert(p, m);
            let ghost grown = order@;
            assert(forall|i: int| 0 <= i < p ==> grown[i] == before[i]);
            assert(grown[p as int] == m);
            assert(forall|i: int| p < i < grown.len() ==> grown[i] == before[i - 1]);
            assert(forall|k: usize| before.contains(k) ==> grown.contains(k)) by {
                assert forall|k: usize| before.contains(k) implies grown.contains(k) by {
                    let i = choose|i: int| 0 <= i < before.len() && before[i] == k;
                    if i < p {
                        assert(grown[i] == k);
                    } else {
                        assert(grown[i + 1] == k);
                    }
                }
            }
            assert(forall|k: usize| grown.contains(k) ==> before.contains(k) || k == m) by {
                assert forall|k: usize| grown.contains(k) implies before.contains(k) || k == m by {
                    let i = choose|i: int| 0 <= i < grown.len() && grown[i] == k;
                    if i < p {
                        assert(before[i] == k);
                    } else if i > p {
                        assert(before[i - 1] == k);
                    }
                }
            }
            assert(is_ranking(distances@, grown, m as int + 1)) by {
                assert forall|i: int, j: int| 0 <= i < j < grown.len() implies precedes(
                    distances@,
                    #[trigger] grown[i] as int,
                    #[trigger] grown[j] as int,
                ) by {
                    if j == p {
                    } else if i == p {
                        assert(before[j - 1] == grown[j]);
                        assert(precedes(distances@, before[p as int] as int, before[j - 1] as int)
                            || j - 1 == p);
                    } else if i < p && j > p {
                        assert(precedes(distances@, before[i] as int, before[j - 1] as int));
                    } else if i < p {
                        assert(precedes(distances@, before[i] as int, before[j] as int));
                    } else {
                        assert(precedes(distances@, before[i - 1] as int, before[j - 1] as int));
                    }
                }
                assert forall|k: int, i: int|
                    0 <= k < m + 1 && 0 <= i < grown.len() && !grown.contains(k as usize)
                    implies #[trigger] precedes(distances@, grown[i] as int, k) by {
                    assert(!before.contains(k as usize));
                    assert(grown.contains(m)) by {
                        assert(grown[p as int] == m);
                    }
                    assert(k < m);
                    if i < p {
                        assert(precedes(distances@, before[i] as int, k));
                    } else if i > p {
                        assert(precedes(distances@, before[i - 1] as int, k));
                    } else {
                        // The ranking was full: its last entry comes before `k`.
                        assert(before.len() == count);
                        if p < before.len() {
                            assert(precedes(distances@, before[p as int] as int, k));
                        }
                    }
                }
            }
            if order.len() > count {
                let dropped: Option<usize> = order.pop();
                let ghost kept = order@;
                assert(kept.len() == count);
                assert(forall|i: int| 0 <= i < kept.len() ==> kept[i] == grown[i]);
                assert(is_ranking(distances@, kept, m as int + 1)) by {
                    assert forall|k: int, i: int|
                        0 <= k < m + 1 && 0 <= i < kept.len() && !kept.contains(k as usize)
                        implies #[trigger] precedes(distances@, kept[i] as int, k) by {
                        if grown.contains(k as usize) {
                            let j = choose|j: int| 0 <= j < grown.len() && grown[j] == k as usize;
                            if j < kept.len() {
                                assert(kept[j] == k as usize);
                            }
                            assert(j == grown.len() - 1);
                            assert(precedes(distances@, grown[i] as int, grown[j] as int));
                        } else {
                            assert(precedes(distances@, grown[i] as int, k));
                        }
                    }
                }
            } else {
                assert(order.len() < count ==> forall|k: usize| k < m + 1 ==> order@.contains(k)) by {
                    if order.len() < count {
                        assert forall|k: usize| k < m + 1 implies order@.contains(k) by {
                            if k < m {
                                assert(before.contains(k));
                            } else {
                                assert(grown[p as int] == m);
                            }
                        }
                    }
                }
            }
        } else {
            // The ranking is full and the new entry comes after all of it.
            assert(order.len() == count);
            assert(is_ranking(distances@, before, m as int + 1)) by {
                assert forall|k: int, i: int|
                    0 <= k < m + 1 && 0 <= i < before.len() && !before.contains(k as usize)
                    implies #[trigger] precedes(distances@, before[i] as int, k) by {
                    if k == m {
                        assert(distances[before[i] as int] <= distances[m as int]);
                    }
                }
            }
        }
        m = m + 1;
    }
    order
}

/// The entries among the first `n` of `order` whose flag is `want`, in order.
pub open spec fn chosen(order: Seq<usize>, flags: Seq<bool>, want: bool, n: int) -> Seq<usize>
    decreases n,
{
    if n <= 0 {
        Seq::empty()
    } else {
        let before = chosen(order, flags, want, n - 1);
        if flags[n - 1] == want {
            before.push(order[n - 1])
        } else {
            before
        }
    }
}

/// The ranking with the flagged entries moved to the front: first the
/// flagged entries, then the others, each group in the order it had.
pub open spec fn promoted(order: Seq<usize>, flags: Seq<bool>) -> Seq<usize> {
    chosen(order, flags, true, order.len() as int) + chosen(order, flags, false, order.len() as int)
}

/// Moving entries to the front keeps the length of the ranking.
pub proof fn lemma_promoted_len(order: Seq<usize>, flags: Seq<bool>, n: int)
    requires
        0 <= n <= order.len(),
    ensures
        chosen(order, flags, true, n).len() + chosen(order, flags, false, n).len() == n,
    decreases n,
{
    if n > 0 {
        lemma_promoted_len(order, flags, n - 1);
    }
}

/// Every entry of the promoted ranking is an entry of the ranking.
pub proof fn lemma_chosen_from(order: Seq<usize>, flags: Seq<bool>, want: bool, n: int)
    requires
        0 <= n <= order.len(),
    ensures
        forall|j: int|
            0 <= j < chosen(order, flags, want, n).len() ==> order.contains(
                #[trigger] chosen(order, flags, want, n)[j],
            ),
    decreases n,
{
    if n > 0 {
        lemma_chosen_from(order, flags, want, n - 1);
        let before = chosen(order, flags, want, n - 1);
        let now = chosen(order, flags, want, n);
        assert forall|j: int| 0 <= j < now.len() implies order.contains(#[trigger] now[j]) by {
            if j < before.len() {
                assert(now[j] == before[j]);
            } else {
                assert(now[j] == order[n - 1]);
            }
        }
    }
}

/// Moves the flagged entries of a ranking to the front, keeping the order
/// within the flagged and within the other entries.
pub fn promote(order: &Vec<usize>, flags: &Vec<bool>) -> (result: Vec<usize>)
    requires
        flags.len() == order.len(),
    ensures
        result@ == promoted(order@, flags@),
        result.len() == order.len(),
{
    let mut result: Vec<usize> = Vec::new();
    let mut i: usize = 0;
    while i < order.len()
        invariant
            i <= order.len(),
            flags.len() == order.len(),
            result@ == chosen(order@, flags@, true, i as int),
        decreases order.len() - i,
    {
        if flags[i] {
            result.push(order[i]);
        }
        i = i + 1;
    }
    let ghost front = result@;
    let mut k: usize = 0;
    while k < order.len()
        invariant
            k <= order.len(),
            flags.len() == order.len(),
            result@ == front + chosen(order@, flags@, false, k as int),
        decreases order.len() - k,
    {
        if !flags[k] {
            result.push(order[k]);
            assert(result@ =~= front + chosen(order@, flags@, false, k as int).push(order[k as int]));
        }
        k = k + 1;
    }
    proof {
        lemma_promoted_len(order@, flags@, order.len() as int);
    }
    result
}

/// Whether `needle` occurs in `hay` as a run of consecutive bytes.
pub open spec fn is_infix(hay: Seq<u8>, needle: Seq<u8>) -> bool {
    exists|i: int| occurs_at(hay, needle, i)
}

/// Whether `needle` occurs in `hay` at position `i`.
pub open spec fn occurs_at(hay: Seq<u8>, needle: Seq<u8>, i: int) -> bool {
    0 <= i <= hay.len() - needle.len() && hay.subrange(i, i + needle.len()) == needle
}

/// Decides whether `needle` occurs in `hay` at position `i`.
fn matches_at(hay: &[u8], needle: &[u8], i: usize) -> (b: bool)
    requires
        i + needle.len() <= hay.len(),
    ensures
        b == occurs_at(hay@, needle@, i as int),
{
    let mut k: usize = 0;
    while k < needle.len()
        invariant
            k <= needle.len(),
            i + needle.len() <= hay.len(),
            forall|j: int| 0 <= j < k ==> hay[i + j] == needle[j],
        decreases needle.len() - k,
    {
        if hay[i + k] != needle[k] {
            assert(hay@.subrange(i as int, i + needle.len())[k as int] != needle@[k as int]);
            return false;
        }
        k = k + 1;
    }
    assert(hay@.subrange(i as int, i + needle.len()) =~= needle@);
    true
}

/// Whether the text `label` occurs in the text `path`: its bytes occur
/// among the bytes of the path.
pub open spec fn text_contains(path: Seq<char>, label: Seq<char>) -> bool {
    is_infix(vstd::utf8::encode_utf8(path), vstd::utf8::encode_utf8(label))
}

/// Decides whether the text `label` occurs in the text `path`.
pub fn contains(path: &str, label: &str) -> (found: bool)
    ensures
        found == text_contains(path@, label@),
{
    let hay: &[u8] = path.as_bytes();
    let needle: &[u8] = label.as_bytes();
    if needle.len() > hay.len() {
        return false;
    }
    let last: usize = hay.len() - needle.len();
    let mut i: usize = 0;
    while i < last
        invariant
            i <= last,
            last == hay.len() - needle.len(),
            hay@ == path.spec_bytes(),
            needle@ == label.spec_bytes(),
            forall|j: int| 0 <= j < i ==> !occurs_at(hay@, needle@, j),
        decreases last - i,
    {
        if matches_at(hay, needle, i) {
            assert(occurs_at(hay@, needle@, i as int));
            return true;
        }
        i = i + 1;
    }
    let found: bool = matches_at(hay, needle, last);
    assert(found ==> occurs_at(hay@, needle@, last as int));
    found
}

} // verus!
