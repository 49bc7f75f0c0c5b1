//! Line clustering: accumulator cells with enough votes are merged greedily
//! into a few line candidates, with the angle averaged around the ring.
use vstd::prelude::*;
use crate::hough::RHOS;
use crate::trig::ANGLES;

verus! {

/// A cell needs more votes than this to count as a raw line.
pub const LINE_THRESHOLD: u32 = 200;

/// Half the circumference of the ring of angle buckets.
pub const HALF_TURN: usize = 450;

/// A raw line joins a candidate whose angle is less than this many buckets away.
pub const ANGLE_REACH: usize = 20;

/// A raw line joins a candidate whose radius is less than this many buckets away.
pub const RADIUS_REACH: usize = 50;

/// The number of cells of the accumulator.
pub const CELLS: usize = 810000;

/// A cluster of accumulator cells.
///
/// The angle and the radius of the candidate are averages over the merged
/// cells and are held exactly, as the ratios `angle_sum / support` and
/// `radius_sum / support`, in buckets. Cells that lie on the far side of the
/// wraparound enter `angle_sum` shifted by a full turn, so the angle may leave
/// `[0, ANGLES)` by a little.
#[derive(Clone, Copy, Debug, PartialEq, Eq)]
pub struct LineCandidate {
    pub angle_sum: i64,
    pub radius_sum: u64,
    pub support: usize,
}

impl LineCandidate {
    /// The bounds that every candidate built from accumulator cells meets.
    pub open spec fn wf(&self) -> bool {
        &&& 1 <= self.support <= CELLS
        &&& -2 * ANGLES * self.support <= self.angle_sum <= 2 * ANGLES * self.support
        &&& self.radius_sum <= RHOS * self.support
    }

    /// The number of full turns by which angle bucket `a` is shifted to reach
    /// the candidate the short way round the ring.
    pub open spec fn turns(&self, a: int) -> int {
        let s = self.angle_sum as int;
        let c = self.support as int;
        if s > a * c {
            if s - a * c < HALF_TURN * c {
                0
            } else {
                1
            }
        } else {
            if a * c - s < HALF_TURN * c {
                0
            } else {
                -1
            }
        }
    }

    /// The wrapped distance from the candidate's angle to bucket `a`, times
    /// the candidate's support.
    pub open spec fn scaled_delta(&self, a: int) -> int {
        (a + self.turns(a) * ANGLES) * self.support - self.angle_sum
    }

    /// The distance from the candidate's radius to bucket `r`, times the
    /// candidate's support.
    pub open spec fn scaled_radius_gap(&self, r: int) -> int {
        self.radius_sum - r * self.support
    }

    /// Whether the cell `(a, r)` is close enough to join the candidate.
    pub open spec fn is_near(&self, a: int, r: int) -> bool {
        &&& -ANGLE_REACH * self.support < self.scaled_delta(a) < ANGLE_REACH * self.support
        &&& -RADIUS_REACH * self.support < self.scaled_radius_gap(r) < RADIUS_REACH * self.support
    }

    /// The candidate after the cell `(a, r)` has joined it: the angle moves
    /// from the old average toward the cell, the short way round, in
    /// proportion to the cell's weight; the radius is the plain average.
    pub open spec fn merged(&self, a: int, r: int) -> LineCandidate {
        LineCandidate {
            angle_sum: (self.angle_sum + a + self.turns(a) * ANGLES) as i64,
            radius_sum: (self.radius_sum + r) as u64,
            support: (self.support + 1) as usize,
        }
    }

    /// The candidate made of the single cell `(a, r)`.
    pub open spec fn single(a: int, r: int) -> LineCandidate {
        LineCandidate { angle_sum: a as i64, radius_sum: r as u64, support: 1 }
    }
}

/// The named constants times a support, as plain multiples.
proof fn lemma_scale(c: int)
    ensures
        ANGLES * c == 900 * c,
        2 * ANGLES * c == 1800 * c,
        -2 * ANGLES * c == -1800 * c,
        3 * ANGLES * c == 2700 * c,
        -3 * ANGLES * c == -2700 * c,
        RHOS * c == 900 * c,
        HALF_TURN * c == 450 * c,
        -HALF_TURN * c == -450 * c,
        ANGLE_REACH * c == 20 * c,
        -ANGLE_REACH * c == -20 * c,
        RADIUS_REACH * c == 50 * c,
        -RADIUS_REACH * c == -50 * c,
{
    assert(ANGLES * c == 900 * c && 2 * ANGLES * c == 1800 * c && -2 * ANGLES * c == -1800 * c
        && 3 * ANGLES * c == 2700 * c && -3 * ANGLES * c == -2700 * c) by (nonlinear_arith)
        requires
            ANGLES == 900,
    ;
    assert(RHOS * c == 900 * c) by (nonlinear_arith)
        requires
            RHOS == 900,
    ;
    assert(HALF_TURN * c == 450 * c && -HALF_TURN * c == -450 * c) by (nonlinear_arith)
        requires
            HALF_TURN == 450,
    ;
    assert(ANGLE_REACH * c == 20 * c && -ANGLE_REACH * c == -20 * c) by (nonlinear_arith)
        requires
            ANGLE_REACH == 20,
    ;
    assert(RADIUS_REACH * c == 50 * c && -RADIUS_REACH * c == -50 * c) by (nonlinear_arith)
        requires
            RADIUS_REACH == 50,
    ;
}

/// The wrapped distance written out for each number of turns.
proof fn lemma_shifted(line: LineCandidate, a: int)
    ensures
        -1 <= line.turns(a) <= 1,
        line.turns(a) * ANGLES == line.turns(a) * 900,
        line.scaled_delta(a) == (a + line.turns(a) * 900) * line.support - line.angle_sum,
        line.turns(a) == 0 ==> line.scaled_delta(a) == a * line.support - line.angle_sum,
        line.turns(a) == 1 ==> line.scaled_delta(a) == a * line.support + 900 * line.support
            - line.angle_sum,
        line.turns(a) == -1 ==> line.scaled_delta(a) == a * line.support - 900 * line.support
            - line.angle_sum,
        line.turns(a) == 0 ==> -450 * line.support < a * line.support - line.angle_sum < 450
            * line.support,
        line.turns(a) == 1 ==> line.angle_sum - a * line.support >= 450 * line.support,
        line.turns(a) == -1 ==> a * line.support - line.angle_sum >= 450 * line.support,
{
    let k = line.turns(a);
    let c = line.support as int;
    assert(k * ANGLES == k * 900) by (nonlinear_arith)
        requires
            ANGLES == 900,
    ;
    assert(HALF_TURN * c == 450 * c) by (nonlinear_arith)
        requires
            HALF_TURN == 450,
    ;
    assert((a + 900) * c == a * c + 900 * c) by (nonlinear_arith);
    assert((a - 900) * c == a * c - 900 * c) by (nonlinear_arith);
    assert((a + 0) * c == a * c) by (nonlinear_arith);
}

/// The wrapped distance on the ring runs the short way round: from a
/// candidate on the ring to a bucket on the ring it is never longer than
/// half a turn.
pub proof fn lemma_wrapped_delta_short(line: LineCandidate, a: int)
    requires
        line.support >= 1,
        0 <= line.angle_sum < ANGLES * line.support,
        0 <= a < ANGLES,
    ensures
        -1 <= line.turns(a) <= 1,
        -HALF_TURN * line.support <= line.scaled_delta(a) <= HALF_TURN * line.support,
{
    let s = line.angle_sum as int;
    let c = line.support as int;
    lemma_scale(c);
    lemma_shifted(line, a);
    assert(0 <= a * c < 900 * c) by (nonlinear_arith)
        requires
            0 <= a < 900,
            c >= 1,
    ;
    assert((a + 900) * c == a * c + 900 * c) by (nonlinear_arith);
    assert((a - 900) * c == a * c - 900 * c) by (nonlinear_arith);
    assert((a + 0) * c == a * c) by (nonlinear_arith);
}

/// The wrapped distance does not depend on where the ring starts: when the
/// candidate and the bucket are both turned by the same angle, and stay on
/// the ring or re-enter it from the other end, the distance between them is
/// what it was. Only two points that lie exactly opposite each other, which
/// have two shortest ways, are left out.
pub proof fn lemma_relabel(line: LineCandidate, a: int, turned: LineCandidate, b: int, by_line: int, by_bucket: int)
    requires
        line.support >= 1,
        turned.support == line.support,
        0 <= line.angle_sum < ANGLES * line.support,
        0 <= turned.angle_sum < ANGLES * line.support,
        0 <= a < ANGLES,
        0 <= b < ANGLES,
        turned.angle_sum == line.angle_sum + by_line * line.support,
        b == a + by_bucket,
        by_line == by_bucket || by_line == by_bucket + ANGLES || by_line == by_bucket - ANGLES,
        2 * (a * line.support - line.angle_sum) != ANGLES * line.support,
        2 * (line.angle_sum - a * line.support) != ANGLES * line.support,
    ensures
        turned.scaled_delta(b) == line.scaled_delta(a),
{
    let c = line.support as int;
    let excess = by_line - by_bucket;
    lemma_scale(c);
    lemma_shifted(line, a);
    lemma_shifted(turned, b);
    assert(0 <= a * c < 900 * c && 0 <= b * c < 900 * c) by (nonlinear_arith)
        requires
            0 <= a < 900,
            0 <= b < 900,
            c >= 1,
    ;
    assert(b * c == a * c + by_bucket * c) by (nonlinear_arith)
        requires
            b == a + by_bucket,
    ;
    assert(by_line * c == by_bucket * c + excess * c) by (nonlinear_arith)
        requires
            by_line == by_bucket + excess,
    ;
    assert(excess * c == 0 || excess * c == 900 * c || excess * c == -900 * c) by (nonlinear_arith)
        requires
            excess == 0 || excess == 900 || excess == -900,
    ;
    let u = a * c;
    let s = line.angle_sum as int;
    let d1 = line.scaled_delta(a);
    let d2 = turned.scaled_delta(b);
    assert(b * turned.support == u + by_bucket * c);
    assert(turned.angle_sum == s + by_bucket * c + excess * c);
    assert(-450 * c < d1 < 450 * c);
    assert(-450 * c < d2 < 450 * c);
    assert(d2 - d1 == 0 || d2 - d1 == 900 * c || d2 - d1 == -900 * c || d2 - d1 == 1800 * c || d2
        - d1 == -1800 * c || d2 - d1 == 2700 * c || d2 - d1 == -2700 * c);
}

/// Merging a cell puts the average angle between the old average and the
/// cell, the short way round: with `p = angle_sum / support` before, `q`
/// after, and `t` the cell's bucket shifted by the turns that bring it
/// closest to `p`, `q - p == (t - p) / (support + 1)`.
pub proof fn lemma_merged_angle(line: LineCandidate, a: int, r: int)
    requires
        line.wf(),
        line.support < CELLS,
        0 <= a < ANGLES,
        0 <= r < RHOS,
    ensures
        line.merged(a, r).support == line.support + 1,
        line.merged(a, r).angle_sum == line.angle_sum + a + line.turns(a) * ANGLES,
        line.merged(a, r).angle_sum * line.support - line.angle_sum * (line.support + 1)
            == line.scaled_delta(a),
        line.merged(a, r).radius_sum == line.radius_sum + r,
        line.merged(a, r).wf(),
{
    let s = line.angle_sum as int;
    let c = line.support as int;
    lemma_scale(c);
    lemma_scale(c + 1);
    lemma_shifted(line, a);
    let t = a + line.turns(a) * 900;
    assert(-900 <= t < 1800);
    assert((s + t) * c - s * (c + 1) == t * c - s) by (nonlinear_arith);
}

/// The position of the first candidate, from `i` on, that the cell `(a, r)`
/// is near to; the length of the list if there is none.
pub open spec fn find_near(lines: Seq<LineCandidate>, a: int, r: int, i: int) -> int
    decreases lines.len() - i,
{
    if i < 0 || i >= lines.len() {
        lines.len() as int
    } else if lines[i].is_near(a, r) {
        i
    } else {
        find_near(lines, a, r, i + 1)
    }
}

/// The list of candidates after the cell `(a, r)` has been taken in: it
/// joins the first candidate it is near to, or starts a candidate of its own.
pub open spec fn cluster_step(lines: Seq<LineCandidate>, a: int, r: int) -> Seq<LineCandidate> {
    let i = find_near(lines, a, r, 0);
    if i < lines.len() {
        lines.update(i, lines[i].merged(a, r))
    } else {
        lines.push(LineCandidate::single(a, r))
    }
}

/// The candidates that the first `n` cells of the accumulator give, taken in
/// storage order: angle by angle, and radius by radius within an angle.
pub open spec fn clusters(hough: Seq<u32>, n: int) -> Seq<LineCandidate>
    decreases n,
{
    if n <= 0 {
        Seq::empty()
    } else {
        let before = clusters(hough, n - 1);
        if hough[n - 1] > LINE_THRESHOLD {
            cluster_step(before, (n - 1) / (RHOS as int), (n - 1) % (RHOS as int))
        } else {
            before
        }
    }
}

proof fn lemma_find_near_skip(lines: Seq<LineCandidate>, a: int, r: int, i: int)
    requires
        0 <= i <= lines.len(),
        forall|j: int| 0 <= j < i ==> !(#[trigger] lines[j]).is_near(a, r),
    ensures
        find_near(lines, a, r, 0) == find_near(lines, a, r, i),
    decreases i,
{
    if i > 0 {
        lemma_find_near_skip(lines, a, r, i - 1);
    }
}

/// Computes the number of full turns that bring `angle` closest to the
/// candidate.
fn turns_of(line: &LineCandidate, angle: u32) -> (k: i64)
    requires
        line.wf(),
        angle < ANGLES,
    ensures
        k == line.turns(angle as int),
        -1 <= k <= 1,
{
    let c: i64 = line.support as i64;
    let s: i64 = line.angle_sum;
    proof {
        lemma_scale(c as int);
    }
    assert(0 <= angle * c <= 900 * c) by (nonlinear_arith)
        requires
            0 <= angle < 900,
            1 <= c,
    ;
    let ac: i64 = angle as i64 * c;
    let half: i64 = HALF_TURN as i64 * c;
    if s > ac {
        if s - ac < half {
            0
        } else {
            1
        }
    } else {
        if ac - s < half {
            0
        } else {
            -1
        }
    }
}

/// The wrapped distance from the candidate's angle to `angle`, times the
/// candidate's support.
pub fn wrapped_delta(line: &LineCandidate, angle: u32) -> (d: i64)
    requires
        line.wf(),
        angle < ANGLES,
    ensures
        d == line.scaled_delta(angle as int),
        -2700 * line.support <= d <= 2700 * line.support,
{
    let c: i64 = line.support as i64;
    let s: i64 = line.angle_sum;
    proof {
        lemma_scale(c as int);
        lemma_shifted(*line, angle as int);
    }
    assert(0 <= angle * c <= 900 * c) by (nonlinear_arith)
        requires
            0 <= angle < 900,
            1 <= c,
    ;
    let ac: i64 = angle as i64 * c;
    let turn: i64 = ANGLES as i64 * c;
    let k: i64 = turns_of(line, angle);
    if k == 0 {
        ac - s
    } else if k == 1 {
        ac + turn - s
    } else {
        ac - turn - s
    }
}

/// The sum of angles of the candidate after the cell at `angle` has joined
/// it: the cell enters the sum shifted by the turns that bring it closest
/// to the candidate.
pub fn wrapped_weighted_average(line: &LineCandidate, angle: u32) -> (sum: i64)
    requires
        line.wf(),
        angle < ANGLES,
    ensures
        sum == line.angle_sum + angle + line.turns(angle as int) * ANGLES,
        sum * line.support - line.angle_sum * (line.support + 1) == line.scaled_delta(angle as int),
{
    let c: i64 = line.support as i64;
    let s: i64 = line.angle_sum;
    proof {
        lemma_scale(c as int);
        lemma_shifted(*line, angle as int);
    }
    let k: i64 = turns_of(line, angle);
    let shifted: i64 = if k == 0 {
        angle as i64
    } else if k == 1 {
        angle as i64 + ANGLES as i64
    } else {
        angle as i64 - ANGLES as i64
    };
    proof {
        assert((s + shifted) * c - s * (c + 1) == shifted * c - s) by (nonlinear_arith);
        assert((angle + 900) * c == angle * c + 900 * c) by (nonlinear_arith);
        assert((angle - 900) * c == angle * c - 900 * c) by (nonlinear_arith);
    }
    s + shifted
}

/// Whether the cell `(angle, radius)` is close enough to join the candidate.
fn is_near(line: &LineCandidate, angle: u32, radius: u32) -> (near: bool)
    requires
        line.wf(),
        angle < ANGLES,
        radius < RHOS,
    ensures
        near == line.is_near(angle as int, radius as int),
{
    let c: i64 = line.support as i64;
    let d: i64 = wrapped_delta(line, angle);
    proof {
        lemma_scale(c as int);
    }
    assert(0 <= radius * c <= 900 * c) by (nonlinear_arith)
        requires
            0 <= radius < 900,
            1 <= c,
    ;
    let gap: i64 = line.radius_sum as i64 - radius as i64 * c;
    let angle_reach: i64 = ANGLE_REACH as i64 * c;
    let radius_reach: i64 = RADIUS_REACH as i64 * c;
    -angle_reach < d && d < angle_reach && -radius_reach < gap && gap < radius_reach
}

/// Takes the cell `(angle, radius)` into the list of candidates.
fn take_in(lines: &mut Vec<LineCandidate>, angle: u32, radius: u32, Ghost(seen): Ghost<int>)
    requires
        angle < ANGLES,
        radius < RHOS,
        0 <= seen < CELLS,
        forall|j: int| 0 <= j < old(lines).len() ==> (#[trigger] old(lines)[j]).wf() && old(lines)[j].support <= seen,
    ensures
        final(lines)@ == cluster_step(old(lines)@, angle as int, radius as int),
        forall|j: int| 0 <= j < final(lines).len() ==> (#[trigger] final(lines)[j]).wf() && final(lines)[j].support <= seen + 1,
{
    let n: usize = lines.len();
    let mut i: usize = 0;
    while i < n
        invariant
            i <= n,
            n == lines.len(),
            lines@ == old(lines)@,
            angle < ANGLES,
            radius < RHOS,
            forall|j: int| 0 <= j < lines.len() ==> (#[trigger] lines[j]).wf(),
            forall|j: int| 0 <= j < i ==> !(#[trigger] lines[j]).is_near(angle as int, radius as int),
        ensures
            i < n ==> lines[i as int].is_near(angle as int, radius as int),
        decreases n - i,
    {
        if is_near(&lines[i], angle, radius) {
            break ;
        }
        i = i + 1;
    }
    proof {
        lemma_find_near_skip(lines@, angle as int, radius as int, i as int);
    }
    if i < n {
        let line: LineCandidate = lines[i];
        proof {
            lemma_merged_angle(line, angle as int, radius as int);
        }
        let merged: LineCandidate = LineCandidate {
            angle_sum: wrapped_weighted_average(&line, angle),
            radius_sum: line.radius_sum + radius as u64,
            support: line.support + 1,
        };
        assert(merged == line.merged(angle as int, radius as int));
        lines[i] = merged;
    } else {
        lines.push(LineCandidate { angle_sum: angle as i64, radius_sum: radius as u64, support: 1 });
    }
}

/// Extracts the line candidates from the accumulator `hough` into `lines`.
///
/// Every cell with more than `LINE_THRESHOLD` votes is a raw line. The raw
/// lines are taken in storage order; each joins the first candidate that it
/// is near to, or else starts a new one.
pub fn calculate(hough: &Vec<u32>, lines: &mut Vec<LineCandidate>)
    requires
        hough.len() == ANGLES * RHOS,
    ensures
        final(lines)@ == clusters(hough@, (ANGLES * RHOS) as int),
        forall|j: int| 0 <= j < final(lines).len() ==> (#[trigger] final(lines)[j]).wf(),
{
    lines.clear();
    let mut i: usize = 0;
    while i < CELLS
        invariant
            i <= CELLS,
            hough.len() == ANGLES * RHOS,
            lines@ == clusters(hough@, i as int),
            forall|j: int| 0 <= j < lines.len() ==> (#[trigger] lines[j]).wf() && lines[j].support <= i,
        decreases CELLS - i,
    {
        if hough[i] > LINE_THRESHOLD {
            let a: u32 = (i / RHOS) as u32;
            let r: u32 = (i % RHOS) as u32;
            take_in(lines, a, r, Ghost(i as int));
        }
        i = i + 1;
    }
}

} // verus!
