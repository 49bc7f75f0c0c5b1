//! Filtering of crossings: crossings that nearly coincide are merged, and of
//! three crossings that nearly lie on one line the middle one is dropped.
//!
//! Lines that were found twice cross their neighbours twice, and cross each
//! other somewhere along their length. Merging removes the first kind of
//! spurious crossing and the second filter the other.
use vstd::prelude::*;
use crate::arith::lemma_mod_pos_bound_any;
use crate::corners::{assign, corners_from, crossings, crossings_of};
use crate::lines::LineCandidate;
use crate::perspective::{area, area2, lemma_product_bound};

verus! {

/// Crossings closer than the square root of this to a cluster join it.
pub const MERGE_REACH_SQUARED: u64 = 256;

/// Three crossings span a triangle of less than half this area if they
/// nearly lie on one line.
pub const COLLINEAR_AREA2: u64 = 400;

/// The largest number of crossings that can be filtered.
pub const MAX_CROSSINGS: usize = 0x10_0000;

/// A cluster of crossings: the sums of their coordinates and their number.
/// The cluster lies at the average of its crossings.
#[derive(Clone, Copy, Debug, PartialEq, Eq)]
pub struct PointCluster {
    pub x_sum: u64,
    pub y_sum: u64,
    pub count: u64,
}

impl PointCluster {
    /// The bounds that every cluster of at most `MAX_CROSSINGS` pixels meets.
    pub open spec fn wf(&self) -> bool {
        &&& 1 <= self.count <= MAX_CROSSINGS
        &&& self.x_sum <= 0xffff_ffff * self.count
        &&& self.y_sum <= 0xffff_ffff * self.count
    }

    /// Whether the point is closer to the cluster than the reach: with the
    /// cluster at `(x_sum / count, y_sum / count)`, the squared distance is
    /// below `MERGE_REACH_SQUARED`.
    pub open spec fn is_near(&self, p: (u32, u32)) -> bool {
        (self.x_sum - p.0 * self.count) * (self.x_sum - p.0 * self.count) + (self.y_sum - p.1
            * self.count) * (self.y_sum - p.1 * self.count) < MERGE_REACH_SQUARED * (self.count
            * self.count)
    }

    /// The cluster after the point has joined it.
    pub open spec fn joined(&self, p: (u32, u32)) -> PointCluster {
        PointCluster {
            x_sum: (self.x_sum + p.0) as u64,
            y_sum: (self.y_sum + p.1) as u64,
            count: (self.count + 1) as u64,
        }
    }

    /// The cluster of a single point.
    pub open spec fn single(p: (u32, u32)) -> PointCluster {
        PointCluster { x_sum: p.0 as u64, y_sum: p.1 as u64, count: 1 }
    }

    /// The pixel that holds the average of the cluster.
    pub open spec fn centre(&self) -> (u32, u32) {
        ((self.x_sum / self.count) as u32, (self.y_sum / self.count) as u32)
    }
}

/// The position of the first cluster, from `i` on, that the point is near
/// to; the number of clusters if there is none.
pub open spec fn find_cluster(clusters: Seq<PointCluster>, p: (u32, u32), i: int) -> int
    decreases clusters.len() - i,
{
    if i < 0 || i >= clusters.len() {
        clusters.len() as int
    } else if clusters[i].is_near(p) {
        i
    } else {
        find_cluster(clusters, p, i + 1)
    }
}

/// The clusters after the point has been taken in: it joins the first
/// cluster it is near to, or starts one of its own.
pub open spec fn take_in(clusters: Seq<PointCluster>, p: (u32, u32)) -> Seq<PointCluster> {
    let i = find_cluster(clusters, p, 0);
    if i < clusters.len() {
        clusters.update(i, clusters[i].joined(p))
    } else {
        clusters.push(PointCluster::single(p))
    }
}

/// The clusters that the first `n` points give, taken in order.
pub open spec fn point_clusters(points: Seq<(u32, u32)>, n: int) -> Seq<PointCluster>
    decreases n,
{
    if n <= 0 {
        Seq::empty()
    } else {
        take_in(point_clusters(points, n - 1), points[n - 1])
    }
}

/// The points with those that nearly coincide merged: the centres of their
/// clusters, in the order in which the clusters were started.
pub open spec fn merged(points: Seq<(u32, u32)>) -> Seq<(u32, u32)> {
    let clusters = point_clusters(points, points.len() as int);
    Seq::new(clusters.len(), |i: int| clusters[i].centre())
}

proof fn lemma_find_cluster_skip(clusters: Seq<PointCluster>, p: (u32, u32), i: int)
    requires
        0 <= i <= clusters.len(),
        forall|j: int| 0 <= j < i ==> !(#[trigger] clusters[j]).is_near(p),
    ensures
        find_cluster(clusters, p, 0) == find_cluster(clusters, p, i),
    decreases i,
{
    if i > 0 {
        lemma_find_cluster_skip(clusters, p, i - 1);
    }
}

/// Decides whether the point is near to the cluster.
fn near(cluster: &PointCluster, p: (u32, u32)) -> (b: bool)
    requires
        cluster.wf(),
    ensures
        b == cluster.is_near(p),
{
    let c: i128 = cluster.count as i128;
    let ghost limit: int = 0xf_ffff_fff0_0000int;
    proof {
        lemma_product_bound(p.0 as int, c as int, 0xffff_ffff, 0x10_0000);
        lemma_product_bound(p.1 as int, c as int, 0xffff_ffff, 0x10_0000);
        lemma_product_bound(0xffff_ffff, c as int, 0xffff_ffff, 0x10_0000);
        lemma_product_bound(c as int, c as int, 0x10_0000, 0x10_0000);
    }
    let dx: i128 = cluster.x_sum as i128 - p.0 as i128 * c;
    let dy: i128 = cluster.y_sum as i128 - p.1 as i128 * c;
    proof {
        lemma_product_bound(dx as int, dx as int, limit, limit);
        lemma_product_bound(dy as int, dy as int, limit, limit);
        lemma_product_bound(256, c * c, 256, 0x100_0000_0000);
    }
    dx * dx + dy * dy < MERGE_REACH_SQUARED as i128 * (c * c)
}

/// Merges the points that nearly coincide.
///
/// The points are taken in order. Each joins the first cluster whose
/// average is closer to it than 16 pixels, or starts a cluster of its own.
/// The result holds the average of each cluster, rounded down to a pixel.
pub fn merge(points: &Vec<(u32, u32)>) -> (centres: Vec<(u32, u32)>)
    requires
        points.len() <= MAX_CROSSINGS,
    ensures
        centres@ == merged(points@),
        centres.len() <= points.len(),
{
    let mut clusters: Vec<PointCluster> = Vec::new();
    let mut n: usize = 0;
    while n < points.len()
        invariant
            n <= points.len(),
            points.len() <= MAX_CROSSINGS,
            clusters@ == point_clusters(points@, n as int),
            clusters.len() <= n,
            forall|j: int|
                0 <= j < clusters.len() ==> (#[trigger] clusters[j]).wf() && clusters[j].count <= n,
        decreases points.len() - n,
    {
        let p: (u32, u32) = points[n];
        let count: usize = clusters.len();
        let mut i: usize = 0;
        while i < count
            invariant
                i <= count,
                count == clusters.len(),
                forall|j: int| 0 <= j < clusters.len() ==> (#[trigger] clusters[j]).wf(),
                forall|j: int| 0 <= j < i ==> !(#[trigger] clusters[j]).is_near(p),
            ensures
                i <= count,
                forall|j: int| 0 <= j < i ==> !(#[trigger] clusters[j]).is_near(p),
                i < count ==> clusters[i as int].is_near(p),
            decreases count - i,
        {
            if near(&clusters[i], p) {
                break ;
            }
            i = i + 1;
        }
        proof {
            lemma_find_cluster_skip(clusters@, p, i as int);
        }
        if i < count {
            let old: PointCluster = clusters[i];
            assert(0xffff_ffff * (old.count + 1) == 0xffff_ffff * old.count + 0xffff_ffff)
                by (nonlinear_arith);
            assert(0xffff_ffff * old.count <= 0xffff_ffff * 0x10_0000) by (nonlinear_arith)
                requires
                    old.count <= 0x10_0000,
            ;
            let joined = PointCluster {
                x_sum: old.x_sum + p.0 as u64,
                y_sum: old.y_sum + p.1 as u64,
                count: old.count + 1,
            };
            assert(joined == old.joined(p));
            clusters[i] = joined;
        } else {
            assert(0xffff_ffff * 1 == 0xffff_ffff) by (nonlinear_arith);
            clusters.push(PointCluster { x_sum: p.0 as u64, y_sum: p.1 as u64, count: 1 });
        }
        n = n + 1;
    }
    let mut centres: Vec<(u32, u32)> = Vec::new();
    let mut k: usize = 0;
    while k < clusters.len()
        invariant
            k <= clusters.len(),
            centres.len() == k,
            forall|j: int| 0 <= j < clusters.len() ==> (#[trigger] clusters[j]).wf(),
            forall|j: int| 0 <= j < k ==> #[trigger] centres[j] == clusters[j].centre(),
        decreases clusters.len() - k,
    {
        let c: PointCluster = clusters[k];
        proof {
            lemma_average_is_pixel(c.x_sum as int, c.count as int);
            lemma_average_is_pixel(c.y_sum as int, c.count as int);
        }
        centres.push(((c.x_sum / c.count) as u32, (c.y_sum / c.count) as u32));
        k = k + 1;
    }
    assert(centres@ =~= merged(points@));
    centres
}

/// The average of `count` coordinates is a coordinate.
proof fn lemma_average_is_pixel(sum: int, count: int)
    requires
        count >= 1,
        0 <= sum <= 0xffff_ffff * count,
    ensures
        0 <= sum / count <= 0xffff_ffff,
{
    vstd::arithmetic::div_mod::lemma_fundamental_div_mod(sum, count);
    lemma_mod_pos_bound_any(sum, count);
    vstd::arithmetic::div_mod::lemma_div_pos_is_pos(sum, count);
    let q = sum / count;
    if q > 0xffff_ffff {
        assert(count * q >= count * 0x1_0000_0000) by (nonlinear_arith)
            requires
                q >= 0x1_0000_0000,
                count >= 1,
        ;
        assert(count * 0x1_0000_0000 > 0xffff_ffff * count) by (nonlinear_arith)
            requires
                count >= 1,
        ;
    }
}

/// The squared distance between two pixels.
pub open spec fn span(p: (u32, u32), q: (u32, u32)) -> int {
    (p.0 - q.0) * (p.0 - q.0) + (p.1 - q.1) * (p.1 - q.1)
}

/// Whether the three pixels nearly lie on one line: the triangle they span
/// has less than half of `COLLINEAR_AREA2` in area.
pub open spec fn nearly_collinear(p: (u32, u32), q: (u32, u32), r: (u32, u32)) -> bool {
    -COLLINEAR_AREA2 < area2(p, q, r) < COLLINEAR_AREA2
}

/// Whether the triple of points `i < j < k` shows point `m` to be redundant:
/// the three nearly lie on one line and `m` is the one opposite the longest
/// side, which lies between the other two.
pub open spec fn shows_redundant(points: Seq<(u32, u32)>, i: int, j: int, k: int, m: int) -> bool {
    let side_ij = span(points[i], points[j]);
    let side_jk = span(points[j], points[k]);
    let side_ik = span(points[i], points[k]);
    &&& nearly_collinear(points[i], points[j], points[k])
    &&& {
        ||| m == k && side_ij >= side_jk && side_ij >= side_ik
        ||| m == i && side_jk >= side_ik && side_jk >= side_ij
        ||| m == j && side_ik >= side_ij && side_ik >= side_jk
    }
}

/// Whether a triple `i < j < k` with `k < n` shows `m` to be redundant.
pub open spec fn marked_by_pair(points: Seq<(u32, u32)>, m: int, i: int, j: int, n: int) -> bool
    decreases n - j,
{
    if n <= j + 1 {
        false
    } else {
        marked_by_pair(points, m, i, j, n - 1) || shows_redundant(points, i, j, n - 1, m)
    }
}

/// Whether a triple `i < j < k` with `j < n` shows `m` to be redundant.
pub open spec fn marked_by_first(points: Seq<(u32, u32)>, m: int, i: int, n: int) -> bool
    decreases n - i,
{
    if n <= i + 1 {
        false
    } else {
        marked_by_first(points, m, i, n - 1) || marked_by_pair(
            points,
            m,
            i,
            n - 1,
            points.len() as int,
        )
    }
}

/// Whether a triple `i < j < k` with `i < n` shows `m` to be redundant.
pub open spec fn marked(points: Seq<(u32, u32)>, m: int, n: int) -> bool
    decreases n,
{
    if n <= 0 {
        false
    } else {
        marked(points, m, n - 1) || marked_by_first(points, m, n - 1, points.len() as int)
    }
}

/// Whether point `m` is redundant: some triple of points shows it to be.
pub open spec fn is_redundant(points: Seq<(u32, u32)>, m: int) -> bool {
    marked(points, m, points.len() as int)
}

/// The points among the first `n` that are not redundant, in order.
pub open spec fn kept(points: Seq<(u32, u32)>, n: int) -> Seq<(u32, u32)>
    decreases n,
{
    if n <= 0 {
        Seq::empty()
    } else if is_redundant(points, n - 1) {
        kept(points, n - 1)
    } else {
        kept(points, n - 1).push(points[n - 1])
    }
}

/// The points without the redundant ones.
pub open spec fn without_collinear(points: Seq<(u32, u32)>) -> Seq<(u32, u32)> {
    kept(points, points.len() as int)
}

/// A redundant point is shown to be redundant by a triple of points.
pub proof fn lemma_redundant_has_triple(points: Seq<(u32, u32)>, m: int)
    requires
        is_redundant(points, m),
    ensures
        exists|i: int, j: int, k: int|
            0 <= i < j < k < points.len() && #[trigger] shows_redundant(points, i, j, k, m),
{
    lemma_marked_has_triple(points, m, points.len() as int);
}

proof fn lemma_marked_has_triple(points: Seq<(u32, u32)>, m: int, n: int)
    requires
        marked(points, m, n),
        n <= points.len(),
    ensures
        exists|i: int, j: int, k: int|
            0 <= i < j < k < points.len() && #[trigger] shows_redundant(points, i, j, k, m),
    decreases n,
{
    if marked(points, m, n - 1) {
        lemma_marked_has_triple(points, m, n - 1);
    } else {
        lemma_first_has_triple(points, m, n - 1, points.len() as int);
    }
}

proof fn lemma_first_has_triple(points: Seq<(u32, u32)>, m: int, i: int, n: int)
    requires
        marked_by_first(points, m, i, n),
        0 <= i,
        n <= points.len(),
    ensures
        exists|i: int, j: int, k: int|
            0 <= i < j < k < points.len() && #[trigger] shows_redundant(points, i, j, k, m),
    decreases n - i,
{
    if marked_by_first(points, m, i, n - 1) {
        lemma_first_has_triple(points, m, i, n - 1);
    } else {
        lemma_pair_has_triple(points, m, i, n - 1, points.len() as int);
    }
}

proof fn lemma_pair_has_triple(points: Seq<(u32, u32)>, m: int, i: int, j: int, n: int)
    requires
        marked_by_pair(points, m, i, j, n),
        0 <= i < j,
        n <= points.len(),
    ensures
        exists|i: int, j: int, k: int|
            0 <= i < j < k < points.len() && #[trigger] shows_redundant(points, i, j, k, m),
    decreases n - j,
{
    if marked_by_pair(points, m, i, j, n - 1) {
        lemma_pair_has_triple(points, m, i, j, n - 1);
    } else {
        assert(shows_redundant(points, i, j, n - 1, m));
    }
}

/// A point that a triple of points shows to be redundant is redundant.
pub proof fn lemma_triple_makes_redundant(points: Seq<(u32, u32)>, i: int, j: int, k: int, m: int)
    requires
        0 <= i < j < k < points.len(),
        shows_redundant(points, i, j, k, m),
    ensures
        is_redundant(points, m),
{
    lemma_pair_grows(points, m, i, j, k + 1, points.len() as int);
    lemma_first_grows(points, m, i, j + 1, points.len() as int);
    lemma_marked_grows(points, m, i + 1, points.len() as int);
}

proof fn lemma_pair_grows(points: Seq<(u32, u32)>, m: int, i: int, j: int, n: int, limit: int)
    requires
        marked_by_pair(points, m, i, j, n),
        n <= limit,
    ensures
        marked_by_pair(points, m, i, j, limit),
    decreases limit - n,
{
    if n < limit {
        lemma_pair_grows(points, m, i, j, n, limit - 1);
    }
}

proof fn lemma_first_grows(points: Seq<(u32, u32)>, m: int, i: int, n: int, limit: int)
    requires
        marked_by_first(points, m, i, n),
        n <= limit,
    ensures
        marked_by_first(points, m, i, limit),
    decreases limit - n,
{
    if n < limit {
        lemma_first_grows(points, m, i, n, limit - 1);
    }
}

proof fn lemma_marked_grows(points: Seq<(u32, u32)>, m: int, n: int, limit: int)
    requires
        marked(points, m, n),
        n <= limit,
    ensures
        marked(points, m, limit),
    decreases limit - n,
{
    if n < limit {
        lemma_marked_grows(points, m, n, limit - 1);
    }
}

/// Computes the squared distance between two pixels.
fn span_of(p: (u32, u32), q: (u32, u32)) -> (d: i128)
    ensures
        d == span(p, q),
{
    let dx: i128 = p.0 as i128 - q.0 as i128;
    let dy: i128 = p.1 as i128 - q.1 as i128;
    proof {
        lemma_product_bound(dx as int, dx as int, 0xffff_ffff, 0xffff_ffff);
        lemma_product_bound(dy as int, dy as int, 0xffff_ffff, 0xffff_ffff);
    }
    dx * dx + dy * dy
}

/// Decides, for each point of the triple `i < j < k`, whether the triple
/// shows it to be redundant.
fn middle_of(points: &Vec<(u32, u32)>, i: usize, j: usize, k: usize) -> (m: (bool, bool, bool))
    requires
        i < j < k < points.len(),
    ensures
        m.0 == shows_redundant(points@, i as int, j as int, k as int, i as int),
        m.1 == shows_redundant(points@, i as int, j as int, k as int, j as int),
        m.2 == shows_redundant(points@, i as int, j as int, k as int, k as int),
        forall|n: int|
            n != i && n != j && n != k ==> !shows_redundant(points@, i as int, j as int, k as int, n),
{
    let a: i128 = area(points[i], points[j], points[k]);
    if -(COLLINEAR_AREA2 as i128) < a && a < COLLINEAR_AREA2 as i128 {
        let side_ij: i128 = span_of(points[i], points[j]);
        let side_jk: i128 = span_of(points[j], points[k]);
        let side_ik: i128 = span_of(points[i], points[k]);
        (
            side_jk >= side_ik && side_jk >= side_ij,
            side_ik >= side_ij && side_ik >= side_jk,
            side_ij >= side_jk && side_ij >= side_ik,
        )
    } else {
        (false, false, false)
    }
}

/// Drops the points that are redundant.
///
/// Of every three points that nearly lie on one line, the one between the
/// other two is redundant: the one opposite the longest side of the
/// triangle they span. The other points are kept, in order.
pub fn drop_collinear(points: &Vec<(u32, u32)>) -> (rest: Vec<(u32, u32)>)
    ensures
        rest@ == without_collinear(points@),
        rest.len() <= points.len(),
{
    let count: usize = points.len();
    let mut redundant: Vec<bool> = Vec::new();
    let mut n: usize = 0;
    while n < count
        invariant
            n <= count,
            redundant.len() == n,
            forall|m: int| 0 <= m < n ==> !redundant[m],
        decreases count - n,
    {
        redundant.push(false);
        n = n + 1;
    }
    let mut i: usize = 0;
    while i < count
        invariant
            i <= count,
            count == points.len(),
            redundant.len() == count,
            forall|m: int| 0 <= m < count ==> #[trigger] redundant[m] == marked(points@, m, i as int),
        decreases count - i,
    {
        let mut j: usize = i + 1;
        while j < count
            invariant
                i < count,
                i + 1 <= j <= count,
                count == points.len(),
                redundant.len() == count,
                forall|m: int|
                    0 <= m < count ==> #[trigger] redundant[m] == (marked(points@, m, i as int)
                        || marked_by_first(points@, m, i as int, j as int)),
            decreases count - j,
        {
            let mut k: usize = j + 1;
            while k < count
                invariant
                    i < j < count,
                    j + 1 <= k <= count,
                    count == points.len(),
                    redundant.len() == count,
                    forall|m: int|
                        0 <= m < count ==> #[trigger] redundant[m] == (marked(points@, m, i as int)
                            || marked_by_first(points@, m, i as int, j as int) || marked_by_pair(
                            points@,
                            m,
                            i as int,
                            j as int,
                            k as int,
                        )),
                decreases count - k,
            {
                let (first, second, third) = middle_of(points, i, j, k);
                if first {
                    redundant[i] = true;
                }
                if second {
                    redundant[j] = true;
                }
                if third {
                    redundant[k] = true;
                }
                k = k + 1;
            }
            j = j + 1;
        }
        i = i + 1;
    }
    let mut rest: Vec<(u32, u32)> = Vec::new();
    let mut m: usize = 0;
    while m < count
        invariant
            m <= count,
            count == points.len(),
            redundant.len() == count,
            forall|q: int| 0 <= q < count ==> #[trigger] redundant[q] == is_redundant(points@, q),
            rest@ == kept(points@, m as int),
            rest.len() <= m,
        decreases count - m,
    {
        if !redundant[m] {
            rest.push(points[m]);
        }
        m = m + 1;
    }
    rest
}

/// The corners that the line candidates give once their crossings have been
/// filtered.
pub open spec fn filtered_corners_of(lines: Seq<LineCandidate>, width: int, height: int) -> Seq<(u32, u32)> {
    corners_from(without_collinear(merged(crossings_of(lines, width, height))), width, height)
}

/// The largest number of line candidates whose crossings can be filtered.
pub const MAX_LINES: usize = 1024;

/// Resolves the corners of the card from the line candidates, with
/// filtering.
///
/// The crossings of the candidates inside the image are merged where they
/// nearly coincide, and those that lie between two others on a line are
/// dropped. If exactly four are left, `corners` gets them in the order
/// top-left, top-right, bottom-left, bottom-right, each being the crossing
/// nearest to that corner of the image. Otherwise `corners` is left empty.
pub fn calculate(lines: &Vec<LineCandidate>, width: u32, height: u32, corners: &mut Vec<(u32, u32)>)
    requires
        lines.len() <= MAX_LINES,
        forall|j: int| 0 <= j < lines.len() ==> (#[trigger] lines[j]).wf(),
    ensures
        final(corners)@ == filtered_corners_of(lines@, width as int, height as int),
        final(corners).len() == 0 || final(corners).len() == 4,
{
    let points: Vec<(u32, u32)> = crossings(lines, width, height);
    assert(lines.len() * lines.len() <= 1024 * 1024) by (nonlinear_arith)
        requires
            lines.len() <= 1024,
    ;
    let centres: Vec<(u32, u32)> = merge(&points);
    let rest: Vec<(u32, u32)> = drop_collinear(&centres);
    assign(&rest, width, height, corners);
}

} // verus!
