use vstd::prelude::*;
use crate::canvas::sample_point;
use crate::geometry::{sq_dist, sq_dist_exec, Point};
use crate::stroke::{stroke_views, Stroke, StrokePoint, StrokeView};

verus! {

/// Why a stroke list could not be closed.
#[derive(Clone, Copy, Debug, PartialEq, Eq, Structural)]
pub enum CloseError {
    /// There is no sample to build a polygon from.
    NothingToClose,
}

/// Endpoint `k` of stroke `i`: its first sample for `k == 0`, its last otherwise.
pub open spec fn endpoint(s: Seq<StrokeView>, i: int, k: int) -> StrokePoint {
    if k == 0 {
        s[i].points[0]
    } else {
        s[i].points.last()
    }
}

/// `(i, j, k, l)` picks endpoint `k` of stroke `i` and endpoint `l` of a later
/// stroke `j`, both strokes having at least two samples.
pub open spec fn valid_match(s: Seq<StrokeView>, i: int, j: int, k: int, l: int) -> bool {
    &&& 0 <= i < j < s.len()
    &&& s[i].points.len() >= 2
    &&& s[j].points.len() >= 2
    &&& 0 <= k < 2
    &&& 0 <= l < 2
}

/// The squared distance between the endpoints that `(i, j, k, l)` picks.
pub open spec fn match_dist(s: Seq<StrokeView>, i: int, j: int, k: int, l: int) -> int {
    sq_dist(sample_point(endpoint(s, i, k)), sample_point(endpoint(s, j, l)))
}

/// `(i1, j1, k1, l1)` comes before `(i2, j2, k2, l2)` in the scan order.
pub open spec fn lex_lt(i1: int, j1: int, k1: int, l1: int, i2: int, j2: int, k2: int, l2: int) -> bool {
    i1 < i2 || (i1 == i2 && (j1 < j2 || (j1 == j2 && (k1 < k2 || (k1 == k2 && l1 < l2)))))
}

/// `(i, j, k, l)` has the least endpoint distance, and is the first such match in
/// the scan order.
pub open spec fn is_first_min(s: Seq<StrokeView>, i: int, j: int, k: int, l: int) -> bool {
    &&& valid_match(s, i, j, k, l)
    &&& forall|i2: int, j2: int, k2: int, l2: int|
        #[trigger] valid_match(s, i2, j2, k2, l2) ==> match_dist(s, i, j, k, l) <= match_dist(s, i2, j2, k2, l2)
            && (lex_lt(i2, j2, k2, l2, i, j, k, l) ==> match_dist(s, i, j, k, l) < match_dist(
            s,
            i2,
            j2,
            k2,
            l2,
        ))
}

/// Some pair of strokes qualifies for a match.
pub open spec fn has_valid_match(s: Seq<StrokeView>) -> bool {
    exists|i: int, j: int, k: int, l: int| valid_match(s, i, j, k, l)
}

/// Some match is the nearest, first in scan order among equals.
pub open spec fn has_nearest_match(s: Seq<StrokeView>) -> bool {
    exists|c: (int, int, int, int)| is_first_min(s, c.0, c.1, c.2, c.3)
}

/// The match that the closer takes.
pub open spec fn best_match(s: Seq<StrokeView>) -> (int, int, int, int) {
    choose|c: (int, int, int, int)| is_first_min(s, c.0, c.1, c.2, c.3)
}

/// `a` followed by `b`; where the last sample of `a` and the first of `b` sit on
/// the same pixel, that shared sample appears once.
pub open spec fn join_points(a: Seq<StrokePoint>, b: Seq<StrokePoint>) -> Seq<StrokePoint> {
    if a.len() > 0 && b.len() > 0 && sample_point(a.last()) == sample_point(b[0]) {
        a + b.drop_first()
    } else {
        a + b
    }
}

pub open spec fn join_views(front: StrokeView, back: Seq<StrokePoint>) -> StrokeView {
    StrokeView { points: join_points(front.points, back), brush: front.brush, finished: front.finished }
}

pub open spec fn reversed(v: StrokeView) -> StrokeView {
    StrokeView { points: v.points.reverse(), brush: v.brush, finished: v.finished }
}

/// Stroke `s1` and stroke `s2` joined so that endpoint `k` of `s1` and endpoint `l`
/// of `s2` become neighbours.
pub open spec fn merge_pair(s1: StrokeView, s2: StrokeView, k: int, l: int) -> StrokeView {
    if k == 1 && l == 0 {
        join_views(s1, s2.points)
    } else if k == 1 && l == 1 {
        join_views(s2, s1.points.reverse())
    } else if k == 0 && l == 0 {
        join_views(reversed(s1), s2.points)
    } else {
        join_views(s2, s1.points)
    }
}

/// `s` without element `i`, whose place the last element takes.
pub open spec fn swap_removed<T>(s: Seq<T>, i: int) -> Seq<T> {
    s.update(i, s.last()).drop_last()
}

/// One step of the closer on a list of at least two strokes. The nearest pair of
/// endpoints of two different strokes is found; those two strokes leave the list
/// and their join comes last. Where no stroke pair qualifies (strokes under two
/// samples take no part), the first and the last stroke are joined start to start.
pub open spec fn connect_step(s: Seq<StrokeView>) -> Seq<StrokeView> {
    if has_valid_match(s) {
        let c = best_match(s);
        swap_removed(swap_removed(s, c.1), c.0).push(merge_pair(s[c.0], s[c.1], c.2, c.3))
    } else {
        swap_removed(swap_removed(s, 0), 0).push(merge_pair(s[0], s.last(), 0, 0))
    }
}

/// The closer run until at most one stroke is left.
pub open spec fn connect_all(s: Seq<StrokeView>) -> Seq<StrokeView>
    decreases s.len(),
{
    if s.len() <= 1 {
        s
    } else {
        proof {
            lemma_connect_step_len(s);
        }
        connect_all(connect_step(s))
    }
}

/// A step of the closer shortens the list by one.
pub proof fn lemma_connect_step_len(s: Seq<StrokeView>)
    requires
        s.len() >= 2,
    ensures
        connect_step(s).len() == s.len() - 1,
{
    if has_valid_match(s) {
        lemma_nearest_exists(s);
    }
}

/// Two first minima are the same match.
proof fn lemma_first_min_unique(s: Seq<StrokeView>, a: (int, int, int, int), b: (int, int, int, int))
    requires
        is_first_min(s, a.0, a.1, a.2, a.3),
        is_first_min(s, b.0, b.1, b.2, b.3),
    ensures
        a == b,
{
    assert(valid_match(s, a.0, a.1, a.2, a.3));
    assert(valid_match(s, b.0, b.1, b.2, b.3));
}

/// The best match found so far by a scan.
struct Best {
    found: bool,
    d: u128,
    i: usize,
    j: usize,
    k: usize,
    l: usize,
}

/// Every valid match before `(ci, cj, ck, cl)` has been weighed: when `found`,
/// `(bi, bj, bk, bl)` at distance `bd` is the first least one among them.
spec fn scan_state(
    s: Seq<StrokeView>,
    found: bool,
    bd: int,
    bi: int,
    bj: int,
    bk: int,
    bl: int,
    ci: int,
    cj: int,
    ck: int,
    cl: int,
) -> bool {
    &&& found ==> valid_match(s, bi, bj, bk, bl) && bd == match_dist(s, bi, bj, bk, bl) && lex_lt(
        bi,
        bj,
        bk,
        bl,
        ci,
        cj,
        ck,
        cl,
    )
    &&& forall|i2: int, j2: int, k2: int, l2: int|
        #[trigger] valid_match(s, i2, j2, k2, l2) && lex_lt(i2, j2, k2, l2, ci, cj, ck, cl) ==> found && bd
            <= match_dist(s, i2, j2, k2, l2) && (lex_lt(i2, j2, k2, l2, bi, bj, bk, bl) ==> bd < match_dist(
            s,
            i2,
            j2,
            k2,
            l2,
        ))
}

spec fn scanned_upto(s: Seq<StrokeView>, b: Best, ci: int, cj: int, ck: int, cl: int) -> bool {
    scan_state(s, b.found, b.d as int, b.i as int, b.j as int, b.k as int, b.l as int, ci, cj, ck, cl)
}

/// The scan of the closer, run in proof from position `(i, j, k, l)` to the end.
proof fn lemma_scan(
    s: Seq<StrokeView>,
    found: bool,
    bd: int,
    bi: int,
    bj: int,
    bk: int,
    bl: int,
    i: int,
    j: int,
    k: int,
    l: int,
) -> (r: (bool, int, int, int, int, int))
    requires
        0 <= i,
        i + 1 <= j,
        0 <= k < 2,
        0 <= l < 2,
        i < s.len() ==> j <= s.len(),
        i >= s.len() ==> j == i + 1 && k == 0 && l == 0,
        scan_state(s, found, bd, bi, bj, bk, bl, i, j, k, l),
    ensures
        scan_state(s, r.0, r.1, r.2, r.3, r.4, r.5, s.len() as int, s.len() as int + 1, 0, 0),
    decreases s.len() - i, s.len() + 2 - j, 2 - k, 2 - l,
{
    let n = s.len() as int;
    if i >= n {
        (found, bd, bi, bj, bk, bl)
    } else if j >= n {
        lemma_scan(s, found, bd, bi, bj, bk, bl, i + 1, i + 2, 0, 0)
    } else {
        let d = match_dist(s, i, j, k, l);
        let take = valid_match(s, i, j, k, l) && (!found || d < bd);
        let (f2, d2, i2, j2, k2, l2) = if take {
            (true, d, i, j, k, l)
        } else {
            (found, bd, bi, bj, bk, bl)
        };
        if l == 0 {
            assert(scan_state(s, f2, d2, i2, j2, k2, l2, i, j, k, 1));
            lemma_scan(s, f2, d2, i2, j2, k2, l2, i, j, k, 1)
        } else if k == 0 {
            assert(scan_state(s, f2, d2, i2, j2, k2, l2, i, j, 1, 0));
            lemma_scan(s, f2, d2, i2, j2, k2, l2, i, j, 1, 0)
        } else {
            assert(scan_state(s, f2, d2, i2, j2, k2, l2, i, j + 1, 0, 0));
            lemma_scan(s, f2, d2, i2, j2, k2, l2, i, j + 1, 0, 0)
        }
    }
}

/// As soon as some pair of strokes qualifies, there is a nearest match.
pub proof fn lemma_nearest_exists(s: Seq<StrokeView>)
    requires
        has_valid_match(s),
    ensures
        has_nearest_match(s),
{
    let r = lemma_scan(s, false, 0, 0, 0, 0, 0, 0, 1, 0, 0);
    let (i, j, k, l) = choose|i: int, j: int, k: int, l: int| valid_match(s, i, j, k, l);
    assert(lex_lt(i, j, k, l, s.len() as int, s.len() as int + 1, 0, 0));
    assert(is_first_min(s, r.2, r.3, r.4, r.5));
    let c = (r.2, r.3, r.4, r.5);
    assert(is_first_min(s, c.0, c.1, c.2, c.3));
}

fn endpoint_exec(s: &Vec<Stroke>, i: usize, k: usize) -> (p: Point)
    requires
        i < s@.len(),
        s@[i as int]@.points.len() >= 1,
    ensures
        p == sample_point(endpoint(stroke_views(s@), i as int, k as int)),
{
    assert(stroke_views(s@)[i as int] == s@[i as int]@);
    let n = s[i].points.len();
    let q = if k == 0 {
        s[i].points[0]
    } else {
        s[i].points[n - 1]
    };
    Point::new(q.x, q.y)
}

/// Weighs match `(i, j, k, l)` against the best so far; the earlier match wins ties.
fn consider(b: &mut Best, s: &Vec<Stroke>, i: usize, j: usize, k: usize, l: usize)
    requires
        valid_match(stroke_views(s@), i as int, j as int, k as int, l as int),
        scanned_upto(stroke_views(s@), *old(b), i as int, j as int, k as int, l as int),
        k < 2,
        l < 2,
    ensures
        scanned_upto(stroke_views(s@), *final(b), i as int, j as int, k as int, l as int + 1),
{
    let ghost sv = stroke_views(s@);
    assert(sv[i as int] == s@[i as int]@);
    assert(sv[j as int] == s@[j as int]@);
    let p = endpoint_exec(s, i, k);
    let q = endpoint_exec(s, j, l);
    let d = sq_dist_exec(p, q);
    if !b.found || d < b.d {
        *b = Best { found: true, d, i, j, k, l };
    }
}

/// One step of the closer: takes the two strokes whose endpoints lie nearest,
/// removes them and appends their join, so that the list shrinks by one. This scans
/// all pairs of strokes, quadratic in the list's length; run until one stroke is
/// left, it is cubic, which suits the few gestures drawn before a close.
pub fn connect_closed_points(strokes: Vec<Stroke>) -> (res: Vec<Stroke>)
    requires
        strokes@.len() >= 2,
    ensures
        stroke_views(res@) == connect_step(stroke_views(strokes@)),
{
    let ghost sv = stroke_views(strokes@);
    let n = strokes.len();
    let mut b = Best { found: false, d: 0, i: 0, j: 0, k: 0, l: 0 };
    let mut i: usize = 0;
    while i < n
        invariant
            n == strokes@.len(),
            sv == stroke_views(strokes@),
            i <= n,
            scanned_upto(sv, b, i as int, 0, 0, 0),
        decreases n - i,
    {
        let mut j: usize = i + 1;
        while j < n
            invariant
                n == strokes@.len(),
                sv == stroke_views(strokes@),
                i < n,
                i + 1 <= j <= n,
                scanned_upto(sv, b, i as int, j as int, 0, 0),
            decreases n - j,
        {
            assert(sv[i as int] == strokes@[i as int]@);
            assert(sv[j as int] == strokes@[j as int]@);
            if strokes[i].points.len() >= 2 && strokes[j].points.len() >= 2 {
                consider(&mut b, &strokes, i, j, 0, 0);
                consider(&mut b, &strokes, i, j, 0, 1);
                assert(scanned_upto(sv, b, i as int, j as int, 1, 0));
                consider(&mut b, &strokes, i, j, 1, 0);
                consider(&mut b, &strokes, i, j, 1, 1);
            }
            assert(scanned_upto(sv, b, i as int, j + 1, 0, 0));
            j = j + 1;
        }
        assert(scanned_upto(sv, b, i + 1, 0, 0, 0));
        i = i + 1;
    }
    let mut strokes = strokes;
    if b.found {
        proof {
            let w = (b.i as int, b.j as int, b.k as int, b.l as int);
            assert(is_first_min(sv, w.0, w.1, w.2, w.3));
            let c = best_match(sv);
            assert(has_nearest_match(sv));
            lemma_first_min_unique(sv, c, w);
            assert(has_valid_match(sv));
        }
        let s2 = strokes.swap_remove(b.j);
        let s1 = strokes.swap_remove(b.i);
        let merged = merge_strokes(s1, s2, b.k, b.l);
        strokes.push(merged);
        proof {
            assert(stroke_views(strokes@) =~= connect_step(sv));
        }
        strokes
    } else {
        proof {
            if has_valid_match(sv) {
                let (i2, j2, k2, l2) = choose|i2: int, j2: int, k2: int, l2: int| valid_match(sv, i2, j2, k2, l2);
                assert(lex_lt(i2, j2, k2, l2, n as int, 0, 0, 0));
            }
        }
        let s1 = strokes.swap_remove(0);
        let s2 = strokes.swap_remove(0);
        let merged = merge_strokes(s1, s2, 0, 0);
        strokes.push(merged);
        proof {
            assert(stroke_views(strokes@) =~= connect_step(sv));
        }
        strokes
    }
}

/// Joins `front` and `back` into one stroke that keeps `front`'s brush and state;
/// a sample shared by the junction appears once.
fn join(front: Stroke, back: Stroke) -> (res: Stroke)
    ensures
        res@ == join_views(front@, back@.points),
{
    let mut front = front;
    let mut back = back;
    let ghost bp = back@.points;
    if front.points.len() > 0 && back.points.len() > 0 {
        let a = front.points[front.points.len() - 1];
        let b = back.points[0];
        if a.x == b.x && a.y == b.y {
            back.points.remove(0);
        }
    }
    let ghost fp = front@.points;
    front.extend(back);
    proof {
        assert(front@.points =~= join_points(fp, bp)) by {
            if fp.len() > 0 && bp.len() > 0 && sample_point(fp.last()) == sample_point(bp[0]) {
                assert(bp.drop_first() =~= bp.subrange(1, bp.len() as int));
            }
        }
    }
    front
}

/// Joins two strokes so that endpoint `k` of `s1` meets endpoint `l` of `s2`.
fn merge_strokes(s1: Stroke, s2: Stroke, k: usize, l: usize) -> (res: Stroke)
    requires
        k < 2,
        l < 2,
    ensures
        res@ == merge_pair(s1@, s2@, k as int, l as int),
{
    let mut s1 = s1;
    if k > l {
        join(s1, s2)
    } else if k == l {
        if k == 1 {
            s1.reverse();
            join(s2, s1)
        } else {
            s1.reverse();
            join(s1, s2)
        }
    } else {
        join(s2, s1)
    }
}

/// The polygon that closing `strokes` yields: the strokes joined into one, with a
/// copy of its first sample appended; `None` when there is no sample at all.
pub open spec fn closed_polygon(s: Seq<StrokeView>) -> Option<StrokeView> {
    if s.len() == 0 || connect_all(s)[0].points.len() == 0 {
        None
    } else {
        let c = connect_all(s)[0];
        Some(StrokeView { points: c.points.push(c.points[0]), brush: c.brush, finished: c.finished })
    }
}

/// No stroke of the list has a sample.
pub open spec fn all_empty(s: Seq<StrokeView>) -> bool {
    forall|i: int| 0 <= i < s.len() ==> (#[trigger] s[i]).points.len() == 0
}

/// Where element `t` of `s` sits after `swap_removed(s, a)`.
proof fn lemma_swap_removed_keeps(s: Seq<StrokeView>, a: int, t: int) -> (t2: int)
    requires
        0 <= a < s.len(),
        0 <= t < s.len(),
        t != a,
    ensures
        0 <= t2 < s.len() - 1,
        swap_removed(s, a)[t2] == s[t],
        t < s.len() - 1 ==> t2 == t,
        t == s.len() - 1 ==> t2 == a,
{
    if t == s.len() - 1 {
        a
    } else {
        t
    }
}

/// Joins and merges are empty exactly when both parts are.
proof fn lemma_merge_pair_empty(s1: StrokeView, s2: StrokeView, k: int, l: int)
    ensures
        (merge_pair(s1, s2, k, l).points.len() == 0) == (s1.points.len() == 0 && s2.points.len() == 0),
{
}

/// A step of the closer keeps "no stroke has a sample" as it was.
proof fn lemma_connect_step_empty(s: Seq<StrokeView>)
    requires
        s.len() >= 2,
    ensures
        all_empty(connect_step(s)) == all_empty(s),
{
    let n = s.len() as int;
    let r = connect_step(s);
    if has_valid_match(s) {
        lemma_nearest_exists(s);
        let c = best_match(s);
        assert(valid_match(s, c.0, c.1, c.2, c.3));
        let r1 = swap_removed(s, c.1);
        let r2 = swap_removed(r1, c.0);
        lemma_merge_pair_empty(s[c.0], s[c.1], c.2, c.3);
        assert(r1[c.0] == s[c.0]);
        if all_empty(s) {
            assert forall|i: int| 0 <= i < r.len() implies (#[trigger] r[i]).points.len() == 0 by {
                if i < r2.len() {
                    if i == c.0 {
                        assert(r2[i] == r1.last());
                    } else {
                        assert(r2[i] == r1[i]);
                    }
                }
            }
        }
        if all_empty(r) {
            assert(r[r.len() - 1] == merge_pair(s[c.0], s[c.1], c.2, c.3));
            assert(r[r.len() - 1].points.len() == 0);
            assert forall|t: int| 0 <= t < n implies (#[trigger] s[t]).points.len() == 0 by {
                if t != c.0 && t != c.1 {
                    let t1 = lemma_swap_removed_keeps(s, c.1, t);
                    let t2 = lemma_swap_removed_keeps(r1, c.0, t1);
                    assert(r[t2] == r2[t2]);
                }
            }
        }
    } else {
        let r1 = swap_removed(s, 0);
        let r2 = swap_removed(r1, 0);
        lemma_merge_pair_empty(s[0], s.last(), 0, 0);
        assert(r1[0] == s.last());
        if all_empty(s) {
            assert forall|i: int| 0 <= i < r.len() implies (#[trigger] r[i]).points.len() == 0 by {
                if i < r2.len() {
                    if i == 0 {
                        assert(r2[i] == r1.last());
                    } else {
                        assert(r2[i] == r1[i]);
                    }
                }
            }
        }
        if all_empty(r) {
            assert(r[r.len() - 1] == merge_pair(s[0], s.last(), 0, 0));
            assert(r[r.len() - 1].points.len() == 0);
            assert(s.last() == s[n - 1]);
            assert forall|t: int| 0 <= t < n implies (#[trigger] s[t]).points.len() == 0 by {
                if t != 0 && t != n - 1 {
                    let t1 = lemma_swap_removed_keeps(s, 0, t);
                    let t2 = lemma_swap_removed_keeps(r1, 0, t1);
                    assert(r[t2] == r2[t2]);
                }
            }
        }
    }
}

/// The closer leaves one stroke, with a sample exactly when some input stroke had one.
proof fn lemma_connect_all(s: Seq<StrokeView>)
    requires
        s.len() >= 1,
    ensures
        connect_all(s).len() == 1,
        all_empty(connect_all(s)) == all_empty(s),
    decreases s.len(),
{
    if s.len() > 1 {
        lemma_connect_step_len(s);
        lemma_connect_step_empty(s);
        lemma_connect_all(connect_step(s));
    }
}

/// Closing yields nothing exactly when no stroke has a sample.
pub proof fn lemma_closed_polygon_none(s: Seq<StrokeView>)
    ensures
        closed_polygon(s) is None <==> all_empty(s),
{
    if s.len() >= 1 {
        lemma_connect_all(s);
        let c = connect_all(s);
        assert(all_empty(c) == (c[0].points.len() == 0));
    }
}

/// A copy of a list of strokes.
fn copy_strokes(strokes: &Vec<Stroke>) -> (res: Vec<Stroke>)
    ensures
        stroke_views(res@) == stroke_views(strokes@),
{
    let mut out: Vec<Stroke> = Vec::new();
    let mut i: usize = 0;
    while i < strokes.len()
        invariant
            i <= strokes.len(),
            out@.len() == i,
            forall|k: int| 0 <= k < i ==> (#[trigger] out@[k])@ == strokes@[k]@,
        decreases strokes.len() - i,
    {
        let s = strokes[i].duplicate();
        out.push(s);
        i = i + 1;
    }
    assert(stroke_views(out@) =~= stroke_views(strokes@));
    out
}

/// Closes the strokes of one layer into one polygon: the closer runs until one
/// stroke is left, and that stroke gets a copy of its first sample at its end.
/// A list with no sample at all has nothing to close.
pub fn get_closed_stroke(strokes: &Vec<Stroke>) -> (res: Result<Stroke, CloseError>)
    ensures
        match closed_polygon(stroke_views(strokes@)) {
            Some(p) => res is Ok && res->Ok_0@ == p,
            None => res == Err::<Stroke, CloseError>(CloseError::NothingToClose),
        },
        res is Err <==> forall|i: int| 0 <= i < strokes@.len() ==> (#[trigger] strokes@[i])@.points.len() == 0,
        strokes@.len() == 1 && strokes@[0]@.points.len() > 0 ==> res is Ok && res->Ok_0@.points
            == strokes@[0]@.points.push(strokes@[0]@.points[0]),
{
    proof {
        let sv = stroke_views(strokes@);
        lemma_closed_polygon_none(sv);
        assert(all_empty(sv) <==> forall|i: int| 0 <= i < strokes@.len() ==> (#[trigger] strokes@[i])@.points.len() == 0) by {
            if !all_empty(sv) {
                let i = choose|i: int| 0 <= i < sv.len() && #[trigger] sv[i].points.len() != 0;
                assert(sv[i] == strokes@[i]@);
            }
            if !(forall|i: int| 0 <= i < strokes@.len() ==> (#[trigger] strokes@[i])@.points.len() == 0) {
                let i = choose|i: int| 0 <= i < strokes@.len() && (#[trigger] strokes@[i])@.points.len() != 0;
                assert(sv[i] == strokes@[i]@);
            }
        }
    }
    let ghost sv = stroke_views(strokes@);
    let mut working = copy_strokes(strokes);
    while working.len() > 1
        invariant
            connect_all(stroke_views(working@)) == connect_all(sv),
            working@.len() == 0 ==> sv.len() == 0,
            working@.len() >= 1 ==> sv.len() >= 1,
        decreases working@.len(),
    {
        let ghost before = stroke_views(working@);
        working = connect_closed_points(working);
        proof {
            assert(stroke_views(working@).len() == working@.len());
            lemma_connect_step_len(before);
        }
    }
    proof {
        assert(stroke_views(working@).len() == working@.len());
    }
    let ghost last_list = working@;
    match working.pop() {
        None => Err(CloseError::NothingToClose),
        Some(st) => {
            proof {
                assert(stroke_views(last_list)[0] == st@) by {
                    assert(last_list.len() == 1);
                }
                assert(connect_all(sv) == stroke_views(last_list));
            }
            if st.points.len() == 0 {
                Err(CloseError::NothingToClose)
            } else {
                let mut st = st;
                let first = st.points[0];
                st.push(first);
                Ok(st)
            }
        },
    }
}

} // verus!
