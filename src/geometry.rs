use vstd::prelude::*;

verus! {

/// A pixel position on the canvas, or a pointer position rounded to whole pixels.
#[derive(Clone, Copy, Debug, PartialEq, Eq, Structural)]
pub struct Point {
    pub x: i32,
    pub y: i32,
}

impl Point {
    pub fn new(x: i32, y: i32) -> (p: Point)
        ensures
            p.x == x,
            p.y == y,
    {
        Point { x, y }
    }
}

/// An axis-aligned box: `lt` is the top-left corner, `rb` the bottom-right one.
/// Used as the dirty-region accumulator, with `rb` exclusive when it bounds pixels.
#[derive(Clone, Copy, Debug, PartialEq, Eq, Structural)]
pub struct Rect {
    pub lt_x: i32,
    pub lt_y: i32,
    pub rb_x: i32,
    pub rb_y: i32,
}

pub open spec fn min_int(a: int, b: int) -> int {
    if a <= b {
        a
    } else {
        b
    }
}

pub open spec fn max_int(a: int, b: int) -> int {
    if a >= b {
        a
    } else {
        b
    }
}

/// The smallest box holding both `a` and `b`.
pub open spec fn rect_union(a: Rect, b: Rect) -> Rect {
    Rect {
        lt_x: min_int(a.lt_x as int, b.lt_x as int) as i32,
        lt_y: min_int(a.lt_y as int, b.lt_y as int) as i32,
        rb_x: max_int(a.rb_x as int, b.rb_x as int) as i32,
        rb_y: max_int(a.rb_y as int, b.rb_y as int) as i32,
    }
}

/// `outer` reaches at least as far as `inner` on every side.
pub open spec fn rect_contains(outer: Rect, inner: Rect) -> bool {
    &&& outer.lt_x <= inner.lt_x
    &&& outer.lt_y <= inner.lt_y
    &&& inner.rb_x <= outer.rb_x
    &&& inner.rb_y <= outer.rb_y
}

/// Folds a box into an optional accumulator.
pub open spec fn opt_union(acc: Option<Rect>, r: Rect) -> Option<Rect> {
    match acc {
        None => Some(r),
        Some(a) => Some(rect_union(a, r)),
    }
}

impl Rect {
    pub fn new(lt_x: i32, lt_y: i32, rb_x: i32, rb_y: i32) -> (r: Rect)
        ensures
            r == (Rect { lt_x, lt_y, rb_x, rb_y }),
    {
        Rect { lt_x, lt_y, rb_x, rb_y }
    }

    /// Grows this box to the union of itself and `other`; it never shrinks.
    pub fn merge(&mut self, other: Rect)
        ensures
            *final(self) == rect_union(*old(self), other),
    {
        if other.lt_x < self.lt_x {
            self.lt_x = other.lt_x;
        }
        if other.lt_y < self.lt_y {
            self.lt_y = other.lt_y;
        }
        if other.rb_x > self.rb_x {
            self.rb_x = other.rb_x;
        }
        if other.rb_y > self.rb_y {
            self.rb_y = other.rb_y;
        }
    }
}

/// Folds `r` into an optional accumulator box.
pub fn merge_into(acc: Option<Rect>, r: Rect) -> (res: Option<Rect>)
    ensures
        res == opt_union(acc, r),
{
    match acc {
        None => Some(r),
        Some(a) => {
            let mut a = a;
            a.merge(r);
            Some(a)
        },
    }
}

pub open spec fn clamp(v: int, lo: int, hi: int) -> int {
    if v < lo {
        lo
    } else if v > hi {
        hi
    } else {
        v
    }
}

/// Clamps `v` into `[min, max]`.
pub fn saturate(v: i32, min: i32, max: i32) -> (r: i32)
    requires
        min <= max,
    ensures
        r == clamp(v as int, min as int, max as int),
{
    if v < min {
        min
    } else if v > max {
        max
    } else {
        v
    }
}

/// The same clamp on a wider integer.
pub fn saturate_wide(v: i64, min: i64, max: i64) -> (r: i64)
    requires
        min <= max,
    ensures
        r == clamp(v as int, min as int, max as int),
{
    if v < min {
        min
    } else if v > max {
        max
    } else {
        v
    }
}

/// The bounding box of a circle of radius `r` around `(cx, cy)`, clamped to a
/// `w` by `h` canvas.
pub open spec fn circle_rect(cx: int, cy: int, r: int, w: int, h: int) -> Rect {
    Rect {
        lt_x: clamp(cx - r, 0, w) as i32,
        lt_y: clamp(cy - r, 0, h) as i32,
        rb_x: clamp(cx + r, 0, w) as i32,
        rb_y: clamp(cy + r, 0, h) as i32,
    }
}

/// Pixel `(x, y)` lies strictly inside the circle of radius `r` around `(cx, cy)`.
pub open spec fn circle_covers(cx: int, cy: int, r: int, x: int, y: int) -> bool {
    (x - cx) * (x - cx) + (y - cy) * (y - cy) < r * r
}

pub open spec fn sq_dist(a: Point, b: Point) -> int {
    (a.x - b.x) * (a.x - b.x) + (a.y - b.y) * (a.y - b.y)
}

/// `s` is the least natural number whose square reaches `v`.
pub open spec fn is_ceil_sqrt(v: int, s: int) -> bool {
    &&& 0 <= s
    &&& v <= s * s
    &&& (s == 0 || (s - 1) * (s - 1) < v)
}

/// The ceiling of the square root of `v`.
pub open spec fn ceil_sqrt(v: int) -> int {
    choose|s: int| is_ceil_sqrt(v, s)
}

pub proof fn lemma_ceil_sqrt_unique(v: int, s1: int, s2: int)
    requires
        is_ceil_sqrt(v, s1),
        is_ceil_sqrt(v, s2),
    ensures
        s1 == s2,
{
    if s1 < s2 {
        assert(s1 * s1 <= (s2 - 1) * (s2 - 1)) by (nonlinear_arith)
            requires
                0 <= s1 <= s2 - 1,
        ;
    } else if s2 < s1 {
        assert(s2 * s2 <= (s1 - 1) * (s1 - 1)) by (nonlinear_arith)
            requires
                0 <= s2 <= s1 - 1,
        ;
    }
}

/// The number of steps used to sweep a circle from `p0` to `p1`: the length of the
/// segment rounded up.
pub open spec fn sweep_steps(p0: Point, p1: Point) -> int {
    ceil_sqrt(sq_dist(p0, p1))
}

/// `a * t / n` rounded toward zero.
pub open spec fn scaled_offset(a: int, t: int, n: int) -> int {
    if a >= 0 {
        (a * t) / n
    } else {
        -(((-a) * t) / n)
    }
}

/// The `t`-th of the `n + 1` evenly spaced stamp centers from `p0` to `p1`.
pub open spec fn sweep_point(p0: Point, p1: Point, n: int, t: int) -> Point {
    if n == 0 {
        p0
    } else {
        Point {
            x: (p0.x + scaled_offset(p1.x - p0.x, t, n)) as i32,
            y: (p0.y + scaled_offset(p1.y - p0.y, t, n)) as i32,
        }
    }
}

/// The merged bounding boxes of the stamps `0..=k` of a sweep.
pub open spec fn sweep_rect_upto(p0: Point, p1: Point, r: int, w: int, h: int, k: int) -> Rect
    decreases k,
{
    let n = sweep_steps(p0, p1);
    let c = sweep_point(p0, p1, n, k);
    if k <= 0 {
        circle_rect(p0.x as int, p0.y as int, r, w, h)
    } else {
        rect_union(
            sweep_rect_upto(p0, p1, r, w, h, k - 1),
            circle_rect(c.x as int, c.y as int, r, w, h),
        )
    }
}

/// The box that a whole sweep from `p0` to `p1` reports.
pub open spec fn sweep_rect(p0: Point, p1: Point, r: int, w: int, h: int) -> Rect {
    sweep_rect_upto(p0, p1, r, w, h, sweep_steps(p0, p1))
}

/// Some stamp of the sweep from `p0` to `p1` covers pixel `(x, y)`.
pub open spec fn sweep_covers(p0: Point, p1: Point, r: int, x: int, y: int) -> bool {
    exists|t: int|
        0 <= t <= sweep_steps(p0, p1) && #[trigger] circle_covers(
            sweep_point(p0, p1, sweep_steps(p0, p1), t).x as int,
            sweep_point(p0, p1, sweep_steps(p0, p1), t).y as int,
            r,
            x,
            y,
        )
}

/// Returns the least `s` with `v <= s * s`.
pub fn ceil_sqrt_exec(v: u128) -> (s: u128)
    requires
        v <= 0x4_0000_0000_0000_0000u128,
    ensures
        is_ceil_sqrt(v as int, s as int),
        s <= 0x4_0000_0000u128,
{
    if v == 0 {
        return 0;
    }
    let mut lo: u128 = 0;
    let mut hi: u128 = 0x4_0000_0000u128;
    assert(v <= hi * hi) by (nonlinear_arith)
        requires
            hi == 0x4_0000_0000u128,
            v <= 0x4_0000_0000_0000_0000u128,
    ;
    while hi - lo > 1
        invariant
            lo < hi <= 0x4_0000_0000u128,
            lo * lo < v,
            v <= hi * hi,
        decreases hi - lo,
    {
        let mid = lo + (hi - lo) / 2;
        assert(mid * mid <= 0x4_0000_0000u128 * 0x4_0000_0000u128) by (nonlinear_arith)
            requires
                mid <= 0x4_0000_0000u128,
        ;
        if mid * mid >= v {
            hi = mid;
        } else {
            lo = mid;
        }
    }
    assert(hi - 1 == lo);
    hi
}

/// The squared distance between two points.
pub fn sq_dist_exec(a: Point, b: Point) -> (d: u128)
    ensures
        d as int == sq_dist(a, b),
{
    let dx = (a.x as i64 - b.x as i64) as i128;
    let dy = (a.y as i64 - b.y as i64) as i128;
    assert(dx * dx <= 0x1_0000_0000i128 * 0x1_0000_0000i128) by (nonlinear_arith)
        requires
            -0x1_0000_0000i128 <= dx <= 0x1_0000_0000i128,
    ;
    assert(dy * dy <= 0x1_0000_0000i128 * 0x1_0000_0000i128) by (nonlinear_arith)
        requires
            -0x1_0000_0000i128 <= dy <= 0x1_0000_0000i128,
    ;
    assert(dx * dx >= 0) by (nonlinear_arith);
    assert(dy * dy >= 0) by (nonlinear_arith);
    (dx * dx + dy * dy) as u128
}

/// Returns the number of stamps, less one, that a sweep from `p0` to `p1` takes.
pub fn sweep_steps_exec(p0: Point, p1: Point) -> (n: u128)
    ensures
        n as int == sweep_steps(p0, p1),
        n <= 0x4_0000_0000u128,
{
    let d = sq_dist_exec(p0, p1);
    assert(d <= 0x4_0000_0000_0000_0000u128) by (nonlinear_arith)
        requires
            d as int == sq_dist(p0, p1),
            -0x1_0000_0000 <= p0.x - p1.x <= 0x1_0000_0000,
            -0x1_0000_0000 <= p0.y - p1.y <= 0x1_0000_0000,
    ;
    let n = ceil_sqrt_exec(d);
    proof {
        lemma_ceil_sqrt_unique(d as int, n as int, ceil_sqrt(d as int));
    }
    n
}

proof fn lemma_scaled_offset_bounds(a: int, t: int, n: int)
    requires
        0 <= t <= n,
        0 < n,
    ensures
        a >= 0 ==> 0 <= scaled_offset(a, t, n) <= a,
        a < 0 ==> a <= scaled_offset(a, t, n) <= 0,
        t == 0 ==> scaled_offset(a, t, n) == 0,
        t == n ==> scaled_offset(a, t, n) == a,
{
    let m = if a >= 0 { a } else { -a };
    assert(0 <= m * t <= m * n) by (nonlinear_arith)
        requires
            0 <= t <= n,
            0 <= m,
    ;
    assert((m * t) / n <= m) by {
        vstd::arithmetic::div_mod::lemma_div_is_ordered(m * t, m * n, n);
        vstd::arithmetic::div_mod::lemma_div_multiples_vanish(m, n);
        assert(m * n == n * m) by (nonlinear_arith);
    }
    assert((m * t) / n >= 0) by {
        vstd::arithmetic::div_mod::lemma_div_pos_is_pos(m * t, n);
    }
    if t == n {
        assert(m * t == n * m) by (nonlinear_arith)
            requires
                t == n,
        ;
        vstd::arithmetic::div_mod::lemma_div_multiples_vanish(m, n);
    }
    if t == 0 {
        assert(m * t == 0) by (nonlinear_arith)
            requires
                t == 0,
        ;
    }
}

/// `a * t / n` rounded toward zero, for an `a` that fits in 33 bits.
fn scaled_offset_exec(a: i64, t: u128, n: u128) -> (r: i64)
    requires
        -0x1_0000_0000 <= a <= 0x1_0000_0000,
        0 <= t <= n,
        0 < n <= 0x4_0000_0000u128,
    ensures
        r as int == scaled_offset(a as int, t as int, n as int),
{
    proof {
        lemma_scaled_offset_bounds(a as int, t as int, n as int);
    }
    let m: u128 = if a >= 0 { a as u128 } else { (-a) as u128 };
    assert(m * t <= 0x1_0000_0000u128 * 0x4_0000_0000u128) by (nonlinear_arith)
        requires
            m <= 0x1_0000_0000u128,
            t <= 0x4_0000_0000u128,
    ;
    let q = (m * t) / n;
    if a >= 0 {
        q as i64
    } else {
        -(q as i64)
    }
}

/// The `t`-th stamp center of the sweep from `p0` to `p1` in `n` steps.
pub fn sweep_point_exec(p0: Point, p1: Point, n: u128, t: u128) -> (c: Point)
    requires
        t <= n <= 0x4_0000_0000u128,
    ensures
        c == sweep_point(p0, p1, n as int, t as int),
{
    if n == 0 {
        return p0;
    }
    let dx = p1.x as i64 - p0.x as i64;
    let dy = p1.y as i64 - p0.y as i64;
    let ox = scaled_offset_exec(dx, t, n);
    let oy = scaled_offset_exec(dy, t, n);
    proof {
        lemma_scaled_offset_bounds(dx as int, t as int, n as int);
        lemma_scaled_offset_bounds(dy as int, t as int, n as int);
    }
    Point { x: (p0.x as i64 + ox) as i32, y: (p0.y as i64 + oy) as i32 }
}

/// The first stamp of a sweep sits on `p0` and the last on `p1`.
pub proof fn lemma_sweep_ends(p0: Point, p1: Point)
    ensures
        sweep_point(p0, p1, sweep_steps(p0, p1), 0) == p0,
        sweep_point(p0, p1, sweep_steps(p0, p1), sweep_steps(p0, p1)) == p1,
{
    let n = sweep_steps(p0, p1);
    let d = sq_dist(p0, p1);
    assert(d >= 0) by (nonlinear_arith)
        requires
            d == sq_dist(p0, p1),
    ;
    lemma_ceil_sqrt_exists(d);
    if n > 0 {
        lemma_scaled_offset_bounds(p1.x - p0.x, 0, n);
        lemma_scaled_offset_bounds(p1.y - p0.y, 0, n);
        lemma_scaled_offset_bounds(p1.x - p0.x, n, n);
        lemma_scaled_offset_bounds(p1.y - p0.y, n, n);
    } else {
        assert(d <= 0) by (nonlinear_arith)
            requires
                is_ceil_sqrt(d, n),
                n == 0,
        ;
        assert((p0.x - p1.x) * (p0.x - p1.x) >= 0) by (nonlinear_arith);
        assert((p0.y - p1.y) * (p0.y - p1.y) >= 0) by (nonlinear_arith);
        assert(p0.x == p1.x) by (nonlinear_arith)
            requires
                (p0.x - p1.x) * (p0.x - p1.x) <= 0,
        ;
        assert(p0.y == p1.y) by (nonlinear_arith)
            requires
                (p0.y - p1.y) * (p0.y - p1.y) <= 0,
        ;
    }
}

/// The union of two boxes contains both.
pub proof fn lemma_union_contains(a: Rect, b: Rect)
    ensures
        rect_contains(rect_union(a, b), a),
        rect_contains(rect_union(a, b), b),
{
}

/// Containment of boxes is transitive.
pub proof fn lemma_contains_trans(a: Rect, b: Rect, c: Rect)
    requires
        rect_contains(a, b),
        rect_contains(b, c),
    ensures
        rect_contains(a, c),
{
}

/// The box of the first `k + 1` stamps holds the box of the first stamp and that
/// of stamp `k`.
proof fn lemma_sweep_rect_upto_contains(p0: Point, p1: Point, r: int, w: int, h: int, k: int)
    requires
        0 <= k,
    ensures
        rect_contains(sweep_rect_upto(p0, p1, r, w, h, k), circle_rect(p0.x as int, p0.y as int, r, w, h)),
        rect_contains(
            sweep_rect_upto(p0, p1, r, w, h, k),
            circle_rect(
                sweep_point(p0, p1, sweep_steps(p0, p1), k).x as int,
                sweep_point(p0, p1, sweep_steps(p0, p1), k).y as int,
                r,
                w,
                h,
            ),
        ),
    decreases k,
{
    lemma_sweep_ends(p0, p1);
    if k > 0 {
        lemma_sweep_rect_upto_contains(p0, p1, r, w, h, k - 1);
        let c = sweep_point(p0, p1, sweep_steps(p0, p1), k);
        let prev = sweep_rect_upto(p0, p1, r, w, h, k - 1);
        let cr = circle_rect(c.x as int, c.y as int, r, w, h);
        lemma_union_contains(prev, cr);
        lemma_contains_trans(
            sweep_rect_upto(p0, p1, r, w, h, k),
            prev,
            circle_rect(p0.x as int, p0.y as int, r, w, h),
        );
    }
}

/// The box that a sweep from `p0` to `p1` reports holds the boxes of single stamps
/// at `p0` and at `p1`.
pub proof fn lemma_sweep_rect_contains_end_stamps(p0: Point, p1: Point, r: int, w: int, h: int)
    ensures
        rect_contains(sweep_rect(p0, p1, r, w, h), circle_rect(p0.x as int, p0.y as int, r, w, h)),
        rect_contains(sweep_rect(p0, p1, r, w, h), circle_rect(p1.x as int, p1.y as int, r, w, h)),
{
    let d = sq_dist(p0, p1);
    assert(d >= 0) by (nonlinear_arith)
        requires
            d == sq_dist(p0, p1),
    ;
    lemma_ceil_sqrt_exists(d);
    lemma_sweep_ends(p0, p1);
    lemma_sweep_rect_upto_contains(p0, p1, r, w, h, sweep_steps(p0, p1));
}

/// Every non-negative integer has a ceiling square root.
pub proof fn lemma_ceil_sqrt_exists(v: int)
    requires
        0 <= v,
    ensures
        is_ceil_sqrt(v, ceil_sqrt(v)),
        ceil_sqrt(v) >= 0,
{
    let s = ceil_sqrt_witness(v, 0);
    assert(is_ceil_sqrt(v, s));
}

proof fn ceil_sqrt_witness(v: int, s: int) -> (r: int)
    requires
        0 <= s,
        0 <= v,
        s == 0 || (s - 1) * (s - 1) < v,
    ensures
        is_ceil_sqrt(v, r),
    decreases v - (s - 1),
{
    if v <= s * s {
        s
    } else {
        assert(s * s >= s - 1) by (nonlinear_arith)
            requires
                s >= 0,
        ;
        ceil_sqrt_witness(v, s + 1)
    }
}

} // verus!
