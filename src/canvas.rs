use vstd::prelude::*;
use crate::brush::{default_brush, stamp_color, Brush, BrushTip};
use crate::closer::{closed_polygon, get_closed_stroke, CloseError};
use crate::color::{clear_color, Color};
use crate::geometry::{
    merge_into,     lemma_sweep_ends, sweep_point_exec, sweep_rect_upto, sweep_steps_exec, circle_covers, circle_rect, clamp, opt_union, saturate_wide, sweep_covers, sweep_point, sweep_rect,
    sweep_steps, Point, Rect,
};
use crate::stroke::{Stroke, StrokePoint, StrokeView, stroke_views};

verus! {

/// Byte offset of pixel `(x, y)` in a row-major RGBA8 buffer of width `w`.
pub open spec fn pixel_offset(w: int, x: int, y: int) -> int {
    (y * w + x) * 4
}

/// Pixel `(x, y)` of a row-major RGBA8 buffer of width `w`.
pub open spec fn buf_pixel(data: Seq<u8>, w: int, x: int, y: int) -> Color<u8> {
    let i = pixel_offset(w, x, y);
    Color { r: data[i], g: data[i + 1], b: data[i + 2], a: data[i + 3] }
}

/// `(x, y)` is a pixel of a `w` by `h` canvas.
pub open spec fn in_canvas(w: int, h: int, x: int, y: int) -> bool {
    0 <= x < w && 0 <= y < h
}

/// The mathematical value of a raster buffer.
pub struct ImageView {
    pub width: nat,
    pub height: nat,
    pub data: Seq<u8>,
}

impl ImageView {
    pub open spec fn wf(&self) -> bool {
        &&& self.width <= i32::MAX
        &&& self.height <= i32::MAX
        &&& self.data.len() == self.width * self.height * 4
    }

    pub open spec fn pixel(&self, x: int, y: int) -> Color<u8> {
        buf_pixel(self.data, self.width as int, x, y)
    }

    /// Same size as `other`.
    pub open spec fn same_size(&self, other: ImageView) -> bool {
        self.width == other.width && self.height == other.height
    }
}

pub proof fn lemma_pixel_offset_bounds(w: int, h: int, x: int, y: int)
    requires
        in_canvas(w, h, x, y),
    ensures
        0 <= pixel_offset(w, x, y),
        pixel_offset(w, x, y) + 4 <= w * h * 4,
        0 <= y * w,
        y * w + x < w * h,
{
    assert(0 <= y * w) by (nonlinear_arith)
        requires
            0 <= y,
            0 <= w,
    ;
    assert(y * w + x + 1 <= w * h) by (nonlinear_arith)
        requires
            0 <= x < w,
            0 <= y < h,
    ;
}

/// Distinct pixels occupy disjoint groups of four bytes.
pub proof fn lemma_pixel_offset_distinct(w: int, h: int, x1: int, y1: int, x2: int, y2: int)
    requires
        in_canvas(w, h, x1, y1),
        in_canvas(w, h, x2, y2),
        x1 != x2 || y1 != y2,
    ensures
        pixel_offset(w, x1, y1) + 4 <= pixel_offset(w, x2, y2) || pixel_offset(w, x2, y2) + 4
            <= pixel_offset(w, x1, y1),
{
    if y1 < y2 {
        assert(y1 * w + x1 < y2 * w + x2) by (nonlinear_arith)
            requires
                0 <= x1 < w,
                0 <= x2,
                y1 < y2,
        ;
    } else if y2 < y1 {
        assert(y2 * w + x2 < y1 * w + x1) by (nonlinear_arith)
            requires
                0 <= x2 < w,
                0 <= x1,
                y2 < y1,
        ;
    }
}

/// Reads pixel `(x, y)` of a `w` by `h` RGBA8 buffer.
fn get_pixel(data: &Vec<u8>, w: u32, h: u32, x: usize, y: usize) -> (c: Color<u8>)
    requires
        data@.len() == w * h * 4,
        in_canvas(w as int, h as int, x as int, y as int),
    ensures
        c == buf_pixel(data@, w as int, x as int, y as int),
{
    proof {
        lemma_pixel_offset_bounds(w as int, h as int, x as int, y as int);
    }
    let len = data.len();
    let i = (y * w as usize + x) * 4;
    Color { r: data[i], g: data[i + 1], b: data[i + 2], a: data[i + 3] }
}

/// Writes pixel `(x, y)` of a `w` by `h` RGBA8 buffer, leaving every other pixel.
fn put_pixel(data: &mut Vec<u8>, w: u32, h: u32, x: usize, y: usize, color: Color<u8>)
    requires
        old(data)@.len() == w * h * 4,
        in_canvas(w as int, h as int, x as int, y as int),
    ensures
        final(data)@.len() == old(data)@.len(),
        forall|px: int, py: int|
            in_canvas(w as int, h as int, px, py) ==> #[trigger] buf_pixel(final(data)@, w as int, px, py)
                == if px == x && py == y {
                color
            } else {
                buf_pixel(old(data)@, w as int, px, py)
            },
{
    proof {
        lemma_pixel_offset_bounds(w as int, h as int, x as int, y as int);
    }
    let len = data.len();
    let i = (y * w as usize + x) * 4;
    data.set(i, color.r);
    data.set(i + 1, color.g);
    data.set(i + 2, color.b);
    data.set(i + 3, color.a);
    proof {
        assert forall|px: int, py: int| in_canvas(w as int, h as int, px, py) implies #[trigger] buf_pixel(
            data@,
            w as int,
            px,
            py,
        ) == if px == x && py == y {
            color
        } else {
            buf_pixel(old(data)@, w as int, px, py)
        } by {
            if px != x || py != y {
                lemma_pixel_offset_distinct(w as int, h as int, px, py, x as int, y as int);
                lemma_pixel_offset_bounds(w as int, h as int, px, py);
            }
        }
    }
}

/// A fixed-size RGBA8 pixel grid, row-major, four bytes per pixel, origin at the
/// top left.
pub struct CanvasImage {
    data: Vec<u8>,
    width: u32,
    height: u32,
    color_depth: u32,
}

impl View for CanvasImage {
    type V = ImageView;

    closed spec fn view(&self) -> ImageView {
        ImageView { width: self.width as nat, height: self.height as nat, data: self.data@ }
    }
}

/// The stamp center for a sample.
pub open spec fn sample_point(p: StrokePoint) -> Point {
    Point { x: p.x, y: p.y }
}

/// The merged dirty boxes of the segments `1..j` of one stroke, folded into `acc`.
pub open spec fn points_rect(
    acc: Option<Rect>,
    pts: Seq<StrokePoint>,
    j: int,
    r: int,
    w: int,
    h: int,
) -> Option<Rect>
    decreases j,
{
    if j <= 1 {
        acc
    } else {
        opt_union(
            points_rect(acc, pts, j - 1, r, w, h),
            sweep_rect(sample_point(pts[j - 2]), sample_point(pts[j - 1]), r, w, h),
        )
    }
}

/// The merged dirty boxes of every segment of the strokes `0..i`.
pub open spec fn strokes_rect(s: Seq<StrokeView>, i: int, r: int, w: int, h: int) -> Option<
    Rect,
>
    decreases i,
{
    if i <= 0 {
        None
    } else {
        points_rect(strokes_rect(s, i - 1, r, w, h), s[i - 1].points, s[i - 1].points.len() as int, r, w, h)
    }
}

/// The sweep along segment `j` (from sample `j - 1` to sample `j`) of stroke `i`
/// covers pixel `(x, y)`.
pub open spec fn segment_covers(s: Seq<StrokeView>, i: int, j: int, r: int, x: int, y: int) -> bool {
    sweep_covers(sample_point(s[i].points[j - 1]), sample_point(s[i].points[j]), r, x, y)
}

/// Segment `(i, j)` exists and comes before segment `(ci, cj)` in drawing order.
pub open spec fn segment_before(s: Seq<StrokeView>, i: int, j: int, ci: int, cj: int) -> bool {
    &&& 0 <= i < s.len()
    &&& 1 <= j < s[i].points.len()
    &&& (i < ci || (i == ci && j < cj))
}

/// Some segment before `(ci, cj)` covers pixel `(x, y)`.
pub open spec fn strokes_cover_upto(s: Seq<StrokeView>, r: int, x: int, y: int, ci: int, cj: int) -> bool {
    exists|i: int, j: int| segment_before(s, i, j, ci, cj) && #[trigger] segment_covers(s, i, j, r, x, y)
}

/// Some segment of some stroke covers pixel `(x, y)`.
pub open spec fn strokes_cover(s: Seq<StrokeView>, r: int, x: int, y: int) -> bool {
    strokes_cover_upto(s, r, x, y, s.len() as int, 0)
}

/// Some stamp among the first `k` of the sweep from `p0` to `p1` covers `(x, y)`.
pub open spec fn sweep_covers_upto(p0: Point, p1: Point, r: int, x: int, y: int, k: int) -> bool {
    exists|t: int|
        0 <= t < k && #[trigger] circle_covers(
            sweep_point(p0, p1, sweep_steps(p0, p1), t).x as int,
            sweep_point(p0, p1, sweep_steps(p0, p1), t).y as int,
            r,
            x,
            y,
        )
}

/// `new` is `old` with every pixel that `covered` selects painted `c`.
pub open spec fn painted(old: ImageView, new: ImageView, covered: spec_fn(int, int) -> bool, c: Color<u8>) -> bool {
    &&& new.wf()
    &&& new.same_size(old)
    &&& forall|x: int, y: int|
        in_canvas(old.width as int, old.height as int, x, y) ==> #[trigger] new.pixel(x, y) == if covered(x, y) {
            c
        } else {
            old.pixel(x, y)
        }
}

/// The effect of stamping the brush at `c`.
pub open spec fn circle_painted(old: ImageView, new: ImageView, c: Point, brush: Brush) -> bool {
    painted(old, new, |x: int, y: int| circle_covers(c.x as int, c.y as int, brush.size as int, x, y), stamp_color(brush))
}

/// The effect of sweeping the brush from `p0` to `p1`.
pub open spec fn sweep_painted(old: ImageView, new: ImageView, p0: Point, p1: Point, brush: Brush) -> bool {
    painted(old, new, |x: int, y: int| sweep_covers(p0, p1, brush.size as int, x, y), stamp_color(brush))
}

/// The effect of sweeping the brush along every segment of every stroke.
pub open spec fn strokes_painted(old: ImageView, new: ImageView, s: Seq<StrokeView>, brush: Brush) -> bool {
    painted(old, new, |x: int, y: int| strokes_cover(s, brush.size as int, x, y), stamp_color(brush))
}

/// The effect and the dirty box of redrawing only the newest part of the newest
/// stroke: its only sample, or its last segment.
pub open spec fn incremental_drawn(old: ImageView, new: ImageView, s: Seq<StrokeView>, brush: Brush, res: Option<Rect>) -> bool {
    let w = old.width as int;
    let h = old.height as int;
    let r = brush.size as int;
    if s.len() == 0 || s.last().points.len() == 0 {
        res.is_none() && new == old
    } else {
        let pts = s.last().points;
        let n = pts.len();
        if n == 1 {
            let c = sample_point(pts[0]);
            res == Some(circle_rect(c.x as int, c.y as int, r, w, h)) && circle_painted(old, new, c, brush)
        } else {
            let p0 = sample_point(pts[n - 2]);
            let p1 = sample_point(pts[n - 1]);
            res == Some(sweep_rect(p0, p1, r, w, h)) && sweep_painted(old, new, p0, p1, brush)
        }
    }
}

impl CanvasImage {
    /// A `w` by `h` buffer with every byte set to `init_value`.
    pub fn new(w: u32, h: u32, init_value: u8) -> (img: CanvasImage)
        requires
            w <= i32::MAX,
            h <= i32::MAX,
            w * h * 4 <= usize::MAX,
        ensures
            img@.wf(),
            img@.width == w,
            img@.height == h,
            forall|i: int| 0 <= i < img@.data.len() ==> img@.data[i] == init_value,
    {
        let n = (w as usize) * (h as usize) * 4;
        let mut data: Vec<u8> = Vec::with_capacity(n);
        let mut i: usize = 0;
        while i < n
            invariant
                i <= n,
                data@.len() == i,
                forall|k: int| 0 <= k < i ==> data@[k] == init_value,
            decreases n - i,
        {
            data.push(init_value);
            i = i + 1;
        }
        CanvasImage { data, width: w, height: h, color_depth: 1 }
    }

    pub fn width(&self) -> (w: u32)
        ensures
            w == self@.width,
    {
        self.width
    }

    pub fn height(&self) -> (h: u32)
        ensures
            h == self@.height,
    {
        self.height
    }

    /// The raw RGBA bytes.
    pub fn data(&self) -> (d: &Vec<u8>)
        ensures
            d@ == self@.data,
    {
        &self.data
    }

    /// Whether the buffer's length matches its size, and the size fits the
    /// coordinate range.
    pub fn well_formed(&self) -> (r: bool)
        ensures
            r == self@.wf(),
    {
        let w = self.width as u128;
        let h = self.height as u128;
        assert(w * h <= 0x1_0000_0000u128 * 0x1_0000_0000u128) by (nonlinear_arith)
            requires
                w <= 0x1_0000_0000u128,
                h <= 0x1_0000_0000u128,
        ;
        self.width <= i32::MAX as u32 && self.height <= i32::MAX as u32 && (self.data.len() as u128) == w * h * 4
    }

    /// A copy of this image.
    pub fn duplicate(&self) -> (img: CanvasImage)
        ensures
            img@ == self@,
    {
        let mut data: Vec<u8> = Vec::with_capacity(self.data.len());
        let mut i: usize = 0;
        while i < self.data.len()
            invariant
                i <= self.data.len(),
                data@ == self.data@.subrange(0, i as int),
            decreases self.data.len() - i,
        {
            data.push(self.data[i]);
            i = i + 1;
            assert(data@ =~= self.data@.subrange(0, i as int));
        }
        assert(data@ =~= self.data@);
        CanvasImage { data, width: self.width, height: self.height, color_depth: self.color_depth }
    }

    pub fn at(&self, x: usize, y: usize) -> (c: Color<u8>)
        requires
            self@.wf(),
            in_canvas(self@.width as int, self@.height as int, x as int, y as int),
        ensures
            c == self@.pixel(x as int, y as int),
    {
        get_pixel(&self.data, self.width, self.height, x, y)
    }

    pub fn set_color(&mut self, x: usize, y: usize, color: Color<u8>)
        requires
            old(self)@.wf(),
            in_canvas(old(self)@.width as int, old(self)@.height as int, x as int, y as int),
        ensures
            final(self)@.wf(),
            final(self)@.same_size(old(self)@),
            forall|px: int, py: int|
                in_canvas(old(self)@.width as int, old(self)@.height as int, px, py)
                    ==> #[trigger] final(self)@.pixel(px, py) == if px == x && py == y {
                    color
                } else {
                    old(self)@.pixel(px, py)
                },
    {
        put_pixel(&mut self.data, self.width, self.height, x, y, color);
    }

    /// Stamps a filled circle of the brush's radius around `c`: every pixel whose
    /// squared distance to `c` is below the squared radius takes the brush color at
    /// full opacity; nothing outside the canvas is touched. Returns the circle's
    /// bounding box clamped to the canvas, whether or not any pixel was inside.
    pub fn fill_circle(&mut self, c: Point, brush: &Brush) -> (rect: Rect)
        requires
            old(self)@.wf(),
        ensures
            circle_painted(old(self)@, final(self)@, c, *brush),
            rect == circle_rect(c.x as int, c.y as int, brush.size as int, old(self)@.width as int, old(self)@.height as int),
    {
        let ghost w = self.width as int;
        let ghost h = self.height as int;
        let ghost r = brush.size as int;
        let ghost color = stamp_color(*brush);
        let ghost old_img = self@;
        let rr = brush.size as i64;
        let cx = c.x as i64;
        let cy = c.y as i64;
        let lt_x = saturate_wide(cx - rr, 0, self.width as i64);
        let lt_y = saturate_wide(cy - rr, 0, self.height as i64);
        let rb_x = saturate_wide(cx + rr, 0, self.width as i64);
        let rb_y = saturate_wide(cy + rr, 0, self.height as i64);
        let col = brush.get_color();
        let paint = Color { r: col.r, g: col.g, b: col.b, a: 255 };
        let mut y = lt_y;
        while y < rb_y
            invariant
                self@.wf(),
                self@.same_size(old_img),
                w == old_img.width,
                h == old_img.height,
                r == brush.size,
                color == stamp_color(*brush),
                paint == color,
                lt_x == clamp(cx - rr, 0, w),
                lt_y == clamp(cy - rr, 0, h),
                rb_x == clamp(cx + rr, 0, w),
                rb_y == clamp(cy + rr, 0, h),
                cx == c.x,
                cy == c.y,
                rr == r,
                lt_y <= y <= rb_y,
                forall|px: int, py: int|
                    in_canvas(w, h, px, py) ==> #[trigger] self@.pixel(px, py) == if lt_y <= py < y
                        && lt_x <= px < rb_x && circle_covers(cx as int, cy as int, r, px, py) {
                        color
                    } else {
                        old_img.pixel(px, py)
                    },
            decreases rb_y - y,
        {
            let mut x = lt_x;
            while x < rb_x
                invariant
                    self@.wf(),
                    self@.same_size(old_img),
                    w == old_img.width,
                    h == old_img.height,
                    r == brush.size,
                    paint == color,
                    lt_x == clamp(cx - rr, 0, w),
                    rb_x == clamp(cx + rr, 0, w),
                    lt_y == clamp(cy - rr, 0, h),
                    rb_y == clamp(cy + rr, 0, h),
                    cx == c.x,
                    cy == c.y,
                    rr == r,
                    lt_y <= y < rb_y,
                    lt_x <= x <= rb_x,
                    forall|px: int, py: int|
                        in_canvas(w, h, px, py) ==> #[trigger] self@.pixel(px, py) == if ((lt_y <= py
                            < y && lt_x <= px < rb_x) || (py == y && lt_x <= px < x)) && circle_covers(
                            cx as int,
                            cy as int,
                            r,
                            px,
                            py,
                        ) {
                            color
                        } else {
                            old_img.pixel(px, py)
                        },
                decreases rb_x - x,
            {
                let dx = (x - cx) as i128;
                let dy = (y - cy) as i128;
                assert(dx * dx <= 0x1_0000_0000i128 * 0x1_0000_0000i128) by (nonlinear_arith)
                    requires
                        -0x1_0000_0000i128 <= dx <= 0x1_0000_0000i128,
                ;
                assert(dy * dy <= 0x1_0000_0000i128 * 0x1_0000_0000i128) by (nonlinear_arith)
                    requires
                        -0x1_0000_0000i128 <= dy <= 0x1_0000_0000i128,
                ;
                assert(rr * rr <= 0x1_0000_0000i128 * 0x1_0000_0000i128) by (nonlinear_arith)
                    requires
                        0 <= rr <= 0x1_0000_0000i128,
                ;
                assert(dx * dx >= 0 && dy * dy >= 0) by (nonlinear_arith);
                let rr2 = (rr as i128) * (rr as i128);
                if dx * dx + dy * dy < rr2 {
                    self.set_color(x as usize, y as usize, paint);
                }
                x = x + 1;
            }
            y = y + 1;
        }
        proof {
            assert forall|px: int, py: int| in_canvas(w, h, px, py) implies #[trigger] self@.pixel(px, py)
                == if circle_covers(c.x as int, c.y as int, r, px, py) {
                color
            } else {
                old_img.pixel(px, py)
            } by {
                if circle_covers(c.x as int, c.y as int, r, px, py) {
                    assert((px - c.x) * (px - c.x) >= 0) by (nonlinear_arith);
                    assert((py - c.y) * (py - c.y) >= 0) by (nonlinear_arith);
                    lemma_covered_in_box(c.x as int, px, r);
                    lemma_covered_in_box(c.y as int, py, r);
                }
            }
        }
        Rect { lt_x: lt_x as i32, lt_y: lt_y as i32, rb_x: rb_x as i32, rb_y: rb_y as i32 }
    }

    /// Sweeps a circle from `p0` to `p1`: stamps it at `n + 1` evenly spaced centers,
    /// the first on `p0` and the last on `p1`, where `n` is the segment's length
    /// rounded up, so that neighbouring stamps are at most one pixel apart. Returns
    /// the union of the stamps' boxes.
    pub fn draw_line_with_circle(&mut self, p0: Point, p1: Point, brush: &Brush) -> (rect: Rect)
        requires
            old(self)@.wf(),
        ensures
            sweep_painted(old(self)@, final(self)@, p0, p1, *brush),
            rect == sweep_rect(p0, p1, brush.size as int, old(self)@.width as int, old(self)@.height as int),
    {
        let ghost w = self.width as int;
        let ghost h = self.height as int;
        let ghost r = brush.size as int;
        let ghost color = stamp_color(*brush);
        let ghost old_img = self@;
        let n = sweep_steps_exec(p0, p1);
        let ghost nn = n as int;
        proof {
            lemma_sweep_ends(p0, p1);
        }
        let first = sweep_point_exec(p0, p1, n, 0);
        let mut rect = self.fill_circle(first, brush);
        let mut t: u128 = 1;
        while t <= n
            invariant
                1 <= t <= n + 1,
                n == sweep_steps(p0, p1),
                nn == n,
                n <= 0x4_0000_0000u128,
                self@.wf(),
                self@.same_size(old_img),
                w == old_img.width,
                h == old_img.height,
                r == brush.size,
                color == stamp_color(*brush),
                rect == sweep_rect_upto(p0, p1, r, w, h, t - 1),
                forall|px: int, py: int|
                    in_canvas(w, h, px, py) ==> #[trigger] self@.pixel(px, py) == if sweep_covers_upto(
                        p0,
                        p1,
                        r,
                        px,
                        py,
                        t as int,
                    ) {
                        color
                    } else {
                        old_img.pixel(px, py)
                    },
            decreases n + 1 - t,
        {
            let ghost before = self@;
            let c = sweep_point_exec(p0, p1, n, t);
            let r1 = self.fill_circle(c, brush);
            rect.merge(r1);
            proof {
                assert forall|px: int, py: int| in_canvas(w, h, px, py) implies #[trigger] self@.pixel(px, py)
                    == if sweep_covers_upto(p0, p1, r, px, py, t + 1) {
                    color
                } else {
                    old_img.pixel(px, py)
                } by {
                    assert(before.pixel(px, py) == if sweep_covers_upto(p0, p1, r, px, py, t as int) {
                        color
                    } else {
                        old_img.pixel(px, py)
                    });
                    if circle_covers(c.x as int, c.y as int, r, px, py) {
                        assert(sweep_covers_upto(p0, p1, r, px, py, t + 1));
                    } else if sweep_covers_upto(p0, p1, r, px, py, t + 1) {
                        let tt = choose|tt: int|
                            0 <= tt < t + 1 && #[trigger] circle_covers(
                                sweep_point(p0, p1, sweep_steps(p0, p1), tt).x as int,
                                sweep_point(p0, p1, sweep_steps(p0, p1), tt).y as int,
                                r,
                                px,
                                py,
                            );
                        assert(tt != t);
                        assert(sweep_covers_upto(p0, p1, r, px, py, t as int));
                    }
                }
            }
            t = t + 1;
        }
        proof {
            assert forall|px: int, py: int| in_canvas(w, h, px, py) implies #[trigger] self@.pixel(px, py)
                == if sweep_covers(p0, p1, r, px, py) {
                color
            } else {
                old_img.pixel(px, py)
            } by {
                if sweep_covers(p0, p1, r, px, py) {
                    let tt = choose|tt: int|
                        0 <= tt <= sweep_steps(p0, p1) && #[trigger] circle_covers(
                            sweep_point(p0, p1, sweep_steps(p0, p1), tt).x as int,
                            sweep_point(p0, p1, sweep_steps(p0, p1), tt).y as int,
                            r,
                            px,
                            py,
                        );
                    assert(sweep_covers_upto(p0, p1, r, px, py, t as int));
                }
            }
        }
        rect
    }

    /// Sweeps the brush along every segment of every stroke, in drawing order.
    /// Returns the union of the dirty boxes, or `None` when no stroke has a segment.
    pub fn draw_stroke_sweep_circle(&mut self, strokes: &Vec<Stroke>, brush: &Brush) -> (res: Option<Rect>)
        requires
            old(self)@.wf(),
        ensures
            strokes_painted(old(self)@, final(self)@, stroke_views(strokes@), *brush),
            res == strokes_rect(
                stroke_views(strokes@),
                strokes@.len() as int,
                brush.size as int,
                old(self)@.width as int,
                old(self)@.height as int,
            ),
    {
        let ghost w = self.width as int;
        let ghost h = self.height as int;
        let ghost r = brush.size as int;
        let ghost color = stamp_color(*brush);
        let ghost old_img = self@;
        let ghost sv = stroke_views(strokes@);
        let mut rect: Option<Rect> = None;
        let mut i: usize = 0;
        while i < strokes.len()
            invariant
                i <= strokes.len(),
                sv == stroke_views(strokes@),
                sv.len() == strokes@.len(),
                self@.wf(),
                self@.same_size(old_img),
                w == old_img.width,
                h == old_img.height,
                r == brush.size,
                color == stamp_color(*brush),
                rect == strokes_rect(sv, i as int, r, w, h),
                forall|px: int, py: int|
                    in_canvas(w, h, px, py) ==> #[trigger] self@.pixel(px, py) == if strokes_cover_upto(
                        sv,
                        r,
                        px,
                        py,
                        i as int,
                        0,
                    ) {
                        color
                    } else {
                        old_img.pixel(px, py)
                    },
            decreases strokes.len() - i,
        {
            let ghost acc = rect;
            let n = strokes[i].points.len();
            assert(sv[i as int] == strokes@[i as int]@);
            let mut j: usize = 1;
            while j < n
                invariant
                    1 <= j,
                    j <= n || (n == 0 && j == 1),
                    i < strokes.len(),
                    n == sv[i as int].points.len(),
                    sv == stroke_views(strokes@),
                    sv.len() == strokes@.len(),
                    sv[i as int] == strokes@[i as int]@,
                    self@.wf(),
                    self@.same_size(old_img),
                    w == old_img.width,
                    h == old_img.height,
                    r == brush.size,
                    color == stamp_color(*brush),
                    acc == strokes_rect(sv, i as int, r, w, h),
                    rect == points_rect(acc, sv[i as int].points, j as int, r, w, h),
                    forall|px: int, py: int|
                        in_canvas(w, h, px, py) ==> #[trigger] self@.pixel(px, py) == if strokes_cover_upto(
                            sv,
                            r,
                            px,
                            py,
                            i as int,
                            j as int,
                        ) {
                            color
                        } else {
                            old_img.pixel(px, py)
                        },
                decreases n - j,
            {
                let ghost before = self@;
                let a = strokes[i].points[j - 1];
                let b = strokes[i].points[j];
                let r1 = self.draw_line_with_circle(Point::new(a.x, a.y), Point::new(b.x, b.y), brush);
                rect = merge_into(rect, r1);
                proof {
                    assert forall|px: int, py: int| in_canvas(w, h, px, py) implies #[trigger] self@.pixel(px, py)
                        == if strokes_cover_upto(sv, r, px, py, i as int, j + 1) {
                        color
                    } else {
                        old_img.pixel(px, py)
                    } by {
                        assert(before.pixel(px, py) == if strokes_cover_upto(sv, r, px, py, i as int, j as int) {
                            color
                        } else {
                            old_img.pixel(px, py)
                        });
                        if segment_covers(sv, i as int, j as int, r, px, py) {
                            assert(segment_before(sv, i as int, j as int, i as int, j + 1));
                        } else if strokes_cover_upto(sv, r, px, py, i as int, j + 1) {
                            let (ii, jj) = choose|ii: int, jj: int|
                                segment_before(sv, ii, jj, i as int, j + 1) && #[trigger] segment_covers(
                                    sv,
                                    ii,
                                    jj,
                                    r,
                                    px,
                                    py,
                                );
                            assert(segment_before(sv, ii, jj, i as int, j as int));
                        }
                    }
                }
                j = j + 1;
            }
            proof {
                assert(strokes_rect(sv, i + 1, r, w, h) == points_rect(acc, sv[i as int].points, n as int, r, w, h));
                if n == 0 {
                    assert(points_rect(acc, sv[i as int].points, 1, r, w, h) == acc);
                    assert(points_rect(acc, sv[i as int].points, 0, r, w, h) == acc);
                }
                assert forall|px: int, py: int| in_canvas(w, h, px, py) implies #[trigger] self@.pixel(px, py)
                    == if strokes_cover_upto(sv, r, px, py, i + 1, 0) {
                    color
                } else {
                    old_img.pixel(px, py)
                } by {
                    if strokes_cover_upto(sv, r, px, py, i + 1, 0) {
                        let (ii, jj) = choose|ii: int, jj: int|
                            segment_before(sv, ii, jj, i + 1, 0) && #[trigger] segment_covers(
                                sv,
                                ii,
                                jj,
                                r,
                                px,
                                py,
                            );
                        assert(segment_before(sv, ii, jj, i as int, j as int));
                    }
                    if strokes_cover_upto(sv, r, px, py, i as int, j as int) {
                        let (ii, jj) = choose|ii: int, jj: int|
                            segment_before(sv, ii, jj, i as int, j as int) && #[trigger] segment_covers(
                                sv,
                                ii,
                                jj,
                                r,
                                px,
                                py,
                            );
                        assert(segment_before(sv, ii, jj, i + 1, 0));
                    }
                }
            }
            i = i + 1;
        }
        rect
    }

    /// Redraws every stroke in full.
    pub fn draw_stroke(&mut self, strokes: &Vec<Stroke>, brush: &Brush) -> (res: Option<Rect>)
        requires
            old(self)@.wf(),
        ensures
            strokes_painted(old(self)@, final(self)@, stroke_views(strokes@), *brush),
            res == strokes_rect(
                stroke_views(strokes@),
                strokes@.len() as int,
                brush.size as int,
                old(self)@.width as int,
                old(self)@.height as int,
            ),
    {
        self.draw_stroke_sweep_circle(strokes, brush)
    }

    /// Redraws the newest part of the newest stroke: a single stamp if it holds
    /// one sample, else a sweep along its last segment. Returns `None`, drawing
    /// nothing, when there is no stroke or the newest one is empty. The work does
    /// not depend on how many samples came before.
    pub fn draw_stroke_incremental(&mut self, strokes: &Vec<Stroke>, brush: &Brush) -> (res: Option<Rect>)
        requires
            old(self)@.wf(),
        ensures
            final(self)@.wf(),
            final(self)@.same_size(old(self)@),
            incremental_drawn(old(self)@, final(self)@, stroke_views(strokes@), *brush, res),
    {
        proof {
            assert(stroke_views(strokes@).len() == strokes@.len());
        }
        if strokes.len() > 0 {
            let last = strokes.len() - 1;
            let len = strokes[last].points.len();
            proof {
                assert(stroke_views(strokes@).last() == strokes@[last as int]@);
            }
            if len == 1 {
                let p = strokes[last].points[len - 1];
                let rect = self.fill_circle(Point::new(p.x, p.y), brush);
                return Some(rect);
            } else if len > 1 {
                let a = strokes[last].points[len - 2];
                let b = strokes[last].points[len - 1];
                let rect = self.draw_line_with_circle(Point::new(a.x, a.y), Point::new(b.x, b.y), brush);
                return Some(rect);
            }
        }
        None
    }
}

/// A coordinate whose squared offset from the center is below `r * r` lies within
/// `r` of the center.
proof fn lemma_covered_in_box(c: int, p: int, r: int)
    requires
        0 <= r,
        (p - c) * (p - c) < r * r,
    ensures
        c - r < p < c + r,
{
    if p - c >= r {
        assert((p - c) * (p - c) >= r * r) by (nonlinear_arith)
            requires
                p - c >= r,
                r >= 0,
        ;
    }
    if c - p >= r {
        assert((p - c) * (p - c) >= r * r) by (nonlinear_arith)
            requires
                c - p >= r,
                r >= 0,
        ;
    }
}


/// How a layer's pixels combine with those below it.
#[derive(Clone, Copy, Debug, PartialEq, Eq, Structural)]
pub enum BlendMode {
    /// Porter-Duff "over".
    Normal,
}

/// One blended channel of "over": `s * a_s + d * a_d * (1 - a_s)`, with alphas
/// taken as fractions of 255 and the result rounded down.
pub open spec fn blend_channel(s: u8, sa: u8, d: u8, da: u8) -> u8 {
    ((s * sa * 255 + d * da * (255 - sa)) / 65025int) as u8
}

/// The alpha of "over": `a_s + a_d * (1 - a_s)`, as a fraction of 255, rounded down.
pub open spec fn blend_alpha(sa: u8, da: u8) -> u8 {
    ((sa * 255 + da * (255 - sa)) / 255int) as u8
}

/// Porter-Duff "over" of `src` onto `dst`.
pub open spec fn over(src: Color<u8>, dst: Color<u8>) -> Color<u8> {
    Color {
        r: blend_channel(src.r, src.a, dst.r, dst.a),
        g: blend_channel(src.g, src.a, dst.g, dst.a),
        b: blend_channel(src.b, src.a, dst.b, dst.a),
        a: blend_alpha(src.a, dst.a),
    }
}

/// Over a fully transparent destination, an opaque source comes out exactly as it
/// went in.
pub proof fn lemma_over_opaque_onto_clear(src: Color<u8>, dst: Color<u8>)
    requires
        src.a == 255,
        dst.a == 0,
    ensures
        over(src, dst) == src,
{
    assert(src.r * 255 * 255 + dst.r * 0 * (255 - 255) == src.r * (255 * 255)) by (nonlinear_arith);
    assert(src.g * 255 * 255 + dst.g * 0 * (255 - 255) == src.g * (255 * 255)) by (nonlinear_arith);
    assert(src.b * 255 * 255 + dst.b * 0 * (255 - 255) == src.b * (255 * 255)) by (nonlinear_arith);
}

fn blend_channel_exec(s: u8, sa: u8, d: u8, da: u8) -> (r: u8)
    ensures
        r == blend_channel(s, sa, d, da),
{
    let s = s as u32;
    let sa = sa as u32;
    let d = d as u32;
    let da = da as u32;
    assert(s * sa <= 255 * 255 && d * da <= 255 * 255) by (nonlinear_arith)
        requires
            s <= 255,
            sa <= 255,
            d <= 255,
            da <= 255,
    ;
    assert(s * sa * 255 + d * da * (255 - sa) <= 255 * 255 * 255) by (nonlinear_arith)
        requires
            s <= 255,
            sa <= 255,
            d <= 255,
            da <= 255,
    ;
    ((s * sa * 255 + d * da * (255 - sa)) / 65025) as u8
}

fn blend_alpha_exec(sa: u8, da: u8) -> (r: u8)
    ensures
        r == blend_alpha(sa, da),
{
    let sa = sa as u32;
    let da = da as u32;
    assert(sa * 255 + da * (255 - sa) <= 255 * 255) by (nonlinear_arith)
        requires
            sa <= 255,
            da <= 255,
    ;
    ((sa * 255 + da * (255 - sa)) / 255) as u8
}

/// Porter-Duff "over" of one pixel onto another.
pub fn blend_pixel(src: Color<u8>, dst: Color<u8>) -> (c: Color<u8>)
    ensures
        c == over(src, dst),
{
    Color {
        r: blend_channel_exec(src.r, src.a, dst.r, dst.a),
        g: blend_channel_exec(src.g, src.a, dst.g, dst.a),
        b: blend_channel_exec(src.b, src.a, dst.b, dst.a),
        a: blend_alpha_exec(src.a, dst.a),
    }
}

/// Pixel `(x, y)` lies in `rect` (right and bottom edges excluded).
pub open spec fn in_rect(rect: Rect, x: int, y: int) -> bool {
    rect.lt_x <= x < rect.rb_x && rect.lt_y <= y < rect.rb_y
}

/// The mathematical value of a layer.
pub struct LayerView {
    pub visible: bool,
    pub blend_mode: BlendMode,
    pub image: ImageView,
    pub strokes: Seq<StrokeView>,
}

/// The stroke list after a pointer-down sample `e`: it extends the newest stroke
/// while that one is unfinished, else it starts a new stroke with brush `b`.
pub open spec fn strokes_after_drag(s: Seq<StrokeView>, b: Brush, e: StrokePoint) -> Seq<StrokeView> {
    if s.len() > 0 && !s.last().finished {
        s.update(
            s.len() - 1,
            StrokeView { points: s.last().points.push(e), brush: s.last().brush, finished: false },
        )
    } else {
        s.push(StrokeView { points: seq![e], brush: b, finished: false })
    }
}

/// The stroke list after a pointer-up: the newest stroke, if any, is finished.
pub open spec fn strokes_after_release(s: Seq<StrokeView>) -> Seq<StrokeView> {
    if s.len() > 0 {
        s.update(
            s.len() - 1,
            StrokeView { points: s.last().points, brush: s.last().brush, finished: true },
        )
    } else {
        s
    }
}

/// What a pointer sample `e` does to a layer drawn on with brush `b`, and the dirty
/// box it reports.
pub open spec fn layer_event(old: LayerView, new: LayerView, b: Brush, e: StrokePoint, res: Option<Rect>) -> bool {
    &&& new.visible == old.visible
    &&& new.blend_mode == old.blend_mode
    &&& if e.dragging {
        &&& new.strokes == strokes_after_drag(old.strokes, b, e)
        &&& res.is_some()
        &&& incremental_drawn(old.image, new.image, new.strokes, b, res)
    } else {
        &&& new.strokes == strokes_after_release(old.strokes)
        &&& res.is_none()
        &&& new.image == old.image
    }
}

/// Blends `img` over `data`, a buffer of its size, inside `rect` (clamped to the
/// image) with Porter-Duff "over".
fn blend_over(img: &CanvasImage, data: &mut Vec<u8>, rect: &Rect)
    requires
        img@.wf(),
        old(data)@.len() == img@.data.len(),
    ensures
        final(data)@.len() == old(data)@.len(),
        forall|x: int, y: int|
            in_canvas(img@.width as int, img@.height as int, x, y) ==> #[trigger] buf_pixel(
                final(data)@,
                img@.width as int,
                x,
                y,
            ) == if in_rect(*rect, x, y) {
                over(img@.pixel(x, y), buf_pixel(old(data)@, img@.width as int, x, y))
            } else {
                buf_pixel(old(data)@, img@.width as int, x, y)
            },
{
    let ghost w = img.width as int;
    let ghost h = img.height as int;
    let ghost old_data = data@;
        let y0 = saturate_wide(rect.lt_y as i64, 0, img.height as i64);
        let y1 = saturate_wide(rect.rb_y as i64, 0, img.height as i64);
        let x0 = saturate_wide(rect.lt_x as i64, 0, img.width as i64);
        let x1 = saturate_wide(rect.rb_x as i64, 0, img.width as i64);
        let mut y = y0;
        while y < y1
            invariant
                img@.wf(),
                w == img@.width,
                h == img@.height,
                data@.len() == old_data.len(),
                old_data.len() == w * h * 4,
                y0 == clamp(rect.lt_y as int, 0, h),
                y1 == clamp(rect.rb_y as int, 0, h),
                x0 == clamp(rect.lt_x as int, 0, w),
                x1 == clamp(rect.rb_x as int, 0, w),
                y0 <= y,
                y <= y1 || y1 < y0,
                y < y1 || y == y0 || y == y1,
                forall|px: int, py: int|
                    in_canvas(w, h, px, py) ==> #[trigger] buf_pixel(data@, w, px, py) == if in_rect(
                        *rect,
                        px,
                        py,
                    ) && py < y {
                        over(img@.pixel(px, py), buf_pixel(old_data, w, px, py))
                    } else {
                        buf_pixel(old_data, w, px, py)
                    },
            decreases y1 - y,
        {
            let mut x = x0;
            while x < x1
                invariant
                    img@.wf(),
                    w == img@.width,
                    h == img@.height,
                    data@.len() == old_data.len(),
                    old_data.len() == w * h * 4,
                    y0 == clamp(rect.lt_y as int, 0, h),
                    y1 == clamp(rect.rb_y as int, 0, h),
                    x0 == clamp(rect.lt_x as int, 0, w),
                    x1 == clamp(rect.rb_x as int, 0, w),
                    y0 <= y < y1,
                    x0 <= x,
                    x <= x1 || x == x0,
                    forall|px: int, py: int|
                        in_canvas(w, h, px, py) ==> #[trigger] buf_pixel(data@, w, px, py) == if in_rect(
                            *rect,
                            px,
                            py,
                        ) && (py < y || (py == y && px < x)) {
                            over(img@.pixel(px, py), buf_pixel(old_data, w, px, py))
                        } else {
                            buf_pixel(old_data, w, px, py)
                        },
                decreases x1 - x,
            {
                let src = img.at(x as usize, y as usize);
                let dst = get_pixel(data, img.width, img.height, x as usize, y as usize);
                let out = blend_pixel(src, dst);
                put_pixel(data, img.width, img.height, x as usize, y as usize, out);
                x = x + 1;
            }
            y = y + 1;
        }
}

/// One raster buffer with the strokes drawn on it, a visibility flag and a blend
/// mode.
pub struct Layer {
    visible: bool,
    blend_mode: BlendMode,
    image: CanvasImage,
    strokes: Vec<Stroke>,
}

impl View for Layer {
    type V = LayerView;

    closed spec fn view(&self) -> LayerView {
        LayerView {
            visible: self.visible,
            blend_mode: self.blend_mode,
            image: self.image@,
            strokes: stroke_views(self.strokes@),
        }
    }
}

impl Layer {
    /// A visible layer with no strokes and every byte set to `init_value`.
    pub fn new(width: u32, height: u32, init_value: u8) -> (l: Layer)
        requires
            width <= i32::MAX,
            height <= i32::MAX,
            width * height * 4 <= usize::MAX,
        ensures
            l@.visible,
            l@.blend_mode == BlendMode::Normal,
            l@.image.wf(),
            l@.image.width == width,
            l@.image.height == height,
            forall|i: int| 0 <= i < l@.image.data.len() ==> l@.image.data[i] == init_value,
            l@.strokes == Seq::<StrokeView>::empty(),
    {
        let l = Layer {
            visible: true,
            blend_mode: BlendMode::Normal,
            image: CanvasImage::new(width, height, init_value),
            strokes: Vec::new(),
        };
        assert(l@.strokes =~= Seq::<StrokeView>::empty());
        l
    }

    pub fn image(&self) -> (img: &CanvasImage)
        ensures
            img@ == self@.image,
    {
        &self.image
    }

    pub fn strokes(&self) -> (s: &Vec<Stroke>)
        ensures
            stroke_views(s@) == self@.strokes,
    {
        &self.strokes
    }

    /// Feeds one pointer sample to the layer. A pointer-down sample extends the
    /// current stroke (starting one when there is none, or the last one is
    /// finished) and redraws its newest part; a pointer-up finishes the current
    /// stroke and draws nothing.
    pub fn mouse_event(&mut self, brush: &Brush, e: StrokePoint) -> (res: Option<Rect>)
        requires
            old(self)@.image.wf(),
        ensures
            final(self)@.image.wf(),
            final(self)@.image.same_size(old(self)@.image),
            layer_event(old(self)@, final(self)@, *brush, e, res),
    {
        let ghost old_strokes = self.strokes@;
        if e.dragging {
            let mut new_stroke = match self.strokes.pop() {
                Some(s) => {
                    if !s.finished {
                        s
                    } else {
                        self.strokes.push(s);
                        Stroke::new(10, *brush)
                    }
                },
                None => Stroke::new(10, *brush),
            };
            new_stroke.push(e);
            self.strokes.push(new_stroke);
            proof {
                let sv = stroke_views(old_strokes);
                let n = old_strokes.len();
                if n > 0 && !old_strokes.last().finished {
                    assert(self.strokes@ == old_strokes.subrange(0, n - 1).push(new_stroke));
                    assert(new_stroke@.points =~= sv.last().points.push(e));
                    assert(stroke_views(self.strokes@) =~= strokes_after_drag(sv, *brush, e));
                } else {
                    assert(self.strokes@ == old_strokes.push(new_stroke));
                    assert(new_stroke@.points =~= seq![e]);
                    assert(stroke_views(self.strokes@) =~= strokes_after_drag(sv, *brush, e));
                }
            }
            let r = self.image.draw_stroke_incremental(&self.strokes, brush);
            proof {
                assert(stroke_views(self.strokes@).last().points.len() > 0);
            }
            r
        } else {
            match self.strokes.pop() {
                Some(s) => {
                    let mut s = s;
                    s.finished = true;
                    self.strokes.push(s);
                    proof {
                        let n = old_strokes.len();
                        assert(self.strokes@ == old_strokes.subrange(0, n - 1).push(s));
                        assert(stroke_views(self.strokes@) =~= strokes_after_release(stroke_views(old_strokes)));
                    }
                },
                None => {},
            }
            None
        }
    }

    /// Blends the layer over `data` inside `rect` (clamped to the layer) with the
    /// layer's blend mode; `data` is a buffer of the layer's size.
    pub fn composite(&self, data: &mut Vec<u8>, rect: &Rect)
        requires
            self@.image.wf(),
            old(data)@.len() == self@.image.data.len(),
        ensures
            final(data)@.len() == old(data)@.len(),
            forall|x: int, y: int|
                in_canvas(self@.image.width as int, self@.image.height as int, x, y)
                    ==> #[trigger] buf_pixel(final(data)@, self@.image.width as int, x, y) == if in_rect(
                    *rect,
                    x,
                    y,
                ) {
                    over(self@.image.pixel(x, y), buf_pixel(old(data)@, self@.image.width as int, x, y))
                } else {
                    buf_pixel(old(data)@, self@.image.width as int, x, y)
                },
    {
        match self.blend_mode {
            BlendMode::Normal => blend_over(&self.image, data, rect),
        }
    }

    /// Drops every stroke and resets every pixel to transparent black.
    pub fn clear(&mut self)
        requires
            old(self)@.image.wf(),
        ensures
            final(self)@.image.wf(),
            final(self)@.image.same_size(old(self)@.image),
            final(self)@.strokes == Seq::<StrokeView>::empty(),
            final(self)@.visible == old(self)@.visible,
            final(self)@.blend_mode == old(self)@.blend_mode,
            forall|x: int, y: int|
                in_canvas(old(self)@.image.width as int, old(self)@.image.height as int, x, y)
                    ==> #[trigger] final(self)@.image.pixel(x, y) == clear_color(),
    {
        self.strokes = Vec::new();
        let w = self.image.width;
        let h = self.image.height;
        let len = self.image.data.len();
        assert(len == w * h * 4);
        self.image = CanvasImage::new(w, h, 0);
        proof {
            assert(self@.strokes =~= Seq::<StrokeView>::empty());
            assert forall|x: int, y: int| in_canvas(w as int, h as int, x, y) implies #[trigger] self@.image.pixel(x, y)
                == clear_color() by {
                lemma_pixel_offset_bounds(w as int, h as int, x, y);
            }
        }
    }
}


/// The values of a list of layers.
pub open spec fn layer_views(s: Seq<Layer>) -> Seq<LayerView> {
    s.map_values(|l: Layer| l@)
}

/// Pixel `(x, y)` of the first `k` layers composited bottom-up onto transparent
/// black; hidden layers are skipped.
pub open spec fn stack_pixel(layers: Seq<LayerView>, k: int, x: int, y: int) -> Color<u8>
    decreases k,
{
    if k <= 0 {
        clear_color()
    } else {
        let below = stack_pixel(layers, k - 1, x, y);
        if layers[k - 1].visible {
            over(layers[k - 1].image.pixel(x, y), below)
        } else {
            below
        }
    }
}

/// The mathematical value of the compositor.
pub struct ModelView {
    pub layers: Seq<LayerView>,
    pub active_layer: int,
    pub cache: Seq<u8>,
    pub width: nat,
    pub height: nat,
    pub brush: Brush,
}

impl ModelView {
    pub open spec fn wf(&self) -> bool {
        &&& self.width <= i32::MAX
        &&& self.height <= i32::MAX
        &&& self.cache.len() == self.width * self.height * 4
        &&& 0 <= self.active_layer < self.layers.len()
        &&& forall|i: int|
            0 <= i < self.layers.len() ==> (#[trigger] self.layers[i]).image.wf() && self.layers[i].image.width
                == self.width && self.layers[i].image.height == self.height
    }

    /// Pixel `(x, y)` of the composited output buffer.
    pub open spec fn cache_pixel(&self, x: int, y: int) -> Color<u8> {
        buf_pixel(self.cache, self.width as int, x, y)
    }

    /// Pixel `(x, y)` of every layer composited bottom-up.
    pub open spec fn composed(&self, x: int, y: int) -> Color<u8> {
        stack_pixel(self.layers, self.layers.len() as int, x, y)
    }

    /// The output buffer holds the composite of the layers inside `rect` and is
    /// `old`'s outside it.
    pub open spec fn refreshed(&self, old: ModelView, rect: Rect) -> bool {
        forall|x: int, y: int|
            in_canvas(self.width as int, self.height as int, x, y) ==> #[trigger] self.cache_pixel(x, y) == if in_rect(
                rect,
                x,
                y,
            ) {
                self.composed(x, y)
            } else {
                old.cache_pixel(x, y)
            }
    }
}

/// An error of the stroke-closing command.
#[derive(Clone, Copy, Debug, PartialEq, Eq, Structural)]
pub enum CanvasError {
    /// The field does not have the canvas's size.
    SizeMismatch,
}

/// Sets every pixel of `rect` (clamped to the buffer) to transparent black.
fn clear_rect(data: &mut Vec<u8>, w: u32, h: u32, rect: &Rect)
    requires
        old(data)@.len() == w * h * 4,
    ensures
        final(data)@.len() == old(data)@.len(),
        forall|x: int, y: int|
            in_canvas(w as int, h as int, x, y) ==> #[trigger] buf_pixel(final(data)@, w as int, x, y) == if in_rect(
                *rect,
                x,
                y,
            ) {
                clear_color()
            } else {
                buf_pixel(old(data)@, w as int, x, y)
            },
{
    let ghost old_data = data@;
    let y0 = saturate_wide(rect.lt_y as i64, 0, h as i64);
    let y1 = saturate_wide(rect.rb_y as i64, 0, h as i64);
    let x0 = saturate_wide(rect.lt_x as i64, 0, w as i64);
    let x1 = saturate_wide(rect.rb_x as i64, 0, w as i64);
    let zero = Color { r: 0u8, g: 0u8, b: 0u8, a: 0u8 };
    let mut y = y0;
    while y < y1
        invariant
            data@.len() == old_data.len(),
            old_data.len() == w * h * 4,
            zero == clear_color(),
            y0 == clamp(rect.lt_y as int, 0, h as int),
            y1 == clamp(rect.rb_y as int, 0, h as int),
            x0 == clamp(rect.lt_x as int, 0, w as int),
            x1 == clamp(rect.rb_x as int, 0, w as int),
            y0 <= y,
            y <= y1 || y == y0,
            forall|px: int, py: int|
                in_canvas(w as int, h as int, px, py) ==> #[trigger] buf_pixel(data@, w as int, px, py) == if in_rect(
                    *rect,
                    px,
                    py,
                ) && py < y {
                    clear_color()
                } else {
                    buf_pixel(old_data, w as int, px, py)
                },
        decreases y1 - y,
    {
        let mut x = x0;
        while x < x1
            invariant
                data@.len() == old_data.len(),
                old_data.len() == w * h * 4,
                zero == clear_color(),
                y0 == clamp(rect.lt_y as int, 0, h as int),
                y1 == clamp(rect.rb_y as int, 0, h as int),
                x0 == clamp(rect.lt_x as int, 0, w as int),
                x1 == clamp(rect.rb_x as int, 0, w as int),
                y0 <= y < y1,
                x0 <= x,
                x <= x1 || x == x0,
                forall|px: int, py: int|
                    in_canvas(w as int, h as int, px, py) ==> #[trigger] buf_pixel(data@, w as int, px, py) == if in_rect(
                        *rect,
                        px,
                        py,
                    ) && (py < y || (py == y && px < x)) {
                        clear_color()
                    } else {
                        buf_pixel(old_data, w as int, px, py)
                    },
            decreases x1 - x,
        {
            put_pixel(data, w, h, x as usize, y as usize, zero);
            x = x + 1;
        }
        y = y + 1;
    }
}

/// The brush that an export draws every stroke with: white, radius 1.
pub open spec fn export_brush() -> Brush {
    Brush { tip: BrushTip::Contour, size: 1, color: Color { r: 255, g: 255, b: 255, a: 255 } }
}

/// Pixel `(x, y)` of layer `l` with its strokes drawn over it in the export brush.
pub open spec fn export_layer_pixel(l: LayerView, x: int, y: int) -> Color<u8> {
    if strokes_cover(l.strokes, 1, x, y) {
        stamp_color(export_brush())
    } else {
        l.image.pixel(x, y)
    }
}

/// Pixel `(x, y)` of the export of the first `k` layers, composited bottom-up.
pub open spec fn export_pixel(layers: Seq<LayerView>, k: int, x: int, y: int) -> Color<u8>
    decreases k,
{
    if k <= 0 {
        clear_color()
    } else {
        let below = export_pixel(layers, k - 1, x, y);
        if layers[k - 1].visible {
            over(export_layer_pixel(layers[k - 1], x, y), below)
        } else {
            below
        }
    }
}

/// The layer stack, the index of the layer that takes pointer input, the cached
/// composite that the display reads, and the current brush.
pub struct CanvasModel {
    layers: Vec<Layer>,
    active_layer: usize,
    image_cache: Vec<u8>,
    width: u32,
    height: u32,
    current_brush: Brush,
}

impl View for CanvasModel {
    type V = ModelView;

    closed spec fn view(&self) -> ModelView {
        ModelView {
            layers: layer_views(self.layers@),
            active_layer: self.active_layer as int,
            cache: self.image_cache@,
            width: self.width as nat,
            height: self.height as nat,
            brush: self.current_brush,
        }
    }
}

impl CanvasModel {
    /// A `w` by `h` canvas with two blank layers, pointer input going to the upper
    /// one, the default brush and a blank output buffer.
    pub fn new(w: u32, h: u32) -> (m: CanvasModel)
        requires
            w <= i32::MAX,
            h <= i32::MAX,
            w * h * 4 <= usize::MAX,
        ensures
            m@.wf(),
            m@.width == w,
            m@.height == h,
            m@.layers.len() == 2,
            m@.active_layer == 1,
            m@.brush == default_brush(),
            forall|i: int| 0 <= i < 2 ==> (#[trigger] m@.layers[i]).strokes.len() == 0 && m@.layers[i].visible,
            forall|i: int, x: int, y: int|
                0 <= i < 2 && in_canvas(w as int, h as int, x, y) ==> #[trigger] m@.layers[i].image.pixel(x, y)
                    == clear_color(),
            forall|x: int, y: int| in_canvas(w as int, h as int, x, y) ==> #[trigger] m@.cache_pixel(x, y) == clear_color(),
    {
        let l0 = Layer::new(w, h, 0);
        let l1 = Layer::new(w, h, 0);
        let mut layers: Vec<Layer> = Vec::new();
        layers.push(l0);
        layers.push(l1);
        let cache = CanvasImage::new(w, h, 0);
        let m = CanvasModel {
            layers,
            current_brush: Brush::new(),
            image_cache: cache.data,
            active_layer: 1,
            width: w,
            height: h,
        };
        proof {
            assert(m@.layers[0] == l0@);
            assert(m@.layers[1] == l1@);
            assert forall|i: int, x: int, y: int|
                0 <= i < 2 && in_canvas(w as int, h as int, x, y) implies #[trigger] m@.layers[i].image.pixel(x, y)
                    == clear_color() by {
                lemma_pixel_offset_bounds(w as int, h as int, x, y);
            }
            assert forall|x: int, y: int| in_canvas(w as int, h as int, x, y) implies #[trigger] m@.cache_pixel(x, y)
                == clear_color() by {
                lemma_pixel_offset_bounds(w as int, h as int, x, y);
            }
        }
        m
    }

    pub fn width(&self) -> (w: u32)
        ensures
            w == self@.width,
    {
        self.width
    }

    pub fn height(&self) -> (h: u32)
        ensures
            h == self@.height,
    {
        self.height
    }

    /// The composited RGBA bytes that the display shows.
    pub fn image_cache(&self) -> (d: &Vec<u8>)
        ensures
            d@ == self@.cache,
    {
        &self.image_cache
    }

    pub fn brush(&self) -> (b: Brush)
        ensures
            b == self@.brush,
    {
        self.current_brush
    }

    pub fn layer_count(&self) -> (n: usize)
        ensures
            n == self@.layers.len(),
    {
        self.layers.len()
    }

    pub fn layer(&self, i: usize) -> (l: &Layer)
        requires
            i < self@.layers.len(),
        ensures
            l@ == self@.layers[i as int],
    {
        &self.layers[i]
    }

    /// Recomposites the output buffer inside `rect`: starting from transparent
    /// black, every visible layer is blended over it, bottom to top. Outside
    /// `rect` the buffer is left alone.
    pub fn update_cache(&mut self, rect: &Rect)
        requires
            old(self)@.wf(),
        ensures
            final(self)@.wf(),
            final(self)@.layers == old(self)@.layers,
            final(self)@.active_layer == old(self)@.active_layer,
            final(self)@.brush == old(self)@.brush,
            final(self)@.width == old(self)@.width,
            final(self)@.height == old(self)@.height,
            final(self)@.refreshed(old(self)@, *rect),
    {
        let ghost w = self.width as int;
        let ghost h = self.height as int;
        let ghost old_cache = self.image_cache@;
        let ghost lv = self@.layers;
        clear_rect(&mut self.image_cache, self.width, self.height, rect);
        let mut k: usize = 0;
        while k < self.layers.len()
            invariant
                k <= self.layers.len(),
                lv == layer_views(self.layers@),
                lv.len() == self.layers@.len(),
                w == self.width,
                h == self.height,
                old(self)@.wf(),
                self.layers == old(self).layers,
                self.active_layer == old(self).active_layer,
                self.current_brush == old(self).current_brush,
                self.width == old(self).width,
                self.height == old(self).height,
                self.image_cache@.len() == old_cache.len(),
                old_cache.len() == w * h * 4,
                forall|px: int, py: int|
                    in_canvas(w, h, px, py) ==> #[trigger] buf_pixel(self.image_cache@, w, px, py) == if in_rect(
                        *rect,
                        px,
                        py,
                    ) {
                        stack_pixel(lv, k as int, px, py)
                    } else {
                        buf_pixel(old_cache, w, px, py)
                    },
            decreases self.layers.len() - k,
        {
            assert(lv[k as int] == self.layers@[k as int]@);
            assert(lv[k as int].image.wf());
            if self.layers[k].visible {
                self.layers[k].composite(&mut self.image_cache, rect);
            }
            k = k + 1;
        }
    }

    /// Sets the radius of the current brush, clamped to the radii a brush can
    /// hold. Strokes already drawn keep their own brush.
    pub fn set_brush_size(&mut self, size: i64)
        requires
            old(self)@.wf(),
        ensures
            final(self)@ == (ModelView {
                brush: Brush { size: clamp(size as int, 0, u32::MAX as int) as u32, ..old(self)@.brush },
                ..old(self)@
            }),
    {
        let s = saturate_wide(size, 0, u32::MAX as i64);
        self.current_brush.size = s as u32;
    }

    /// Feeds one pointer sample to the active layer, and recomposites the output
    /// buffer inside the dirty box that the layer reports. Returns that box; `Some`
    /// means the display needs a redraw.
    pub fn on_mouse_event(&mut self, e: StrokePoint) -> (res: Option<Rect>)
        requires
            old(self)@.wf(),
        ensures
            final(self)@.wf(),
            final(self)@.width == old(self)@.width,
            final(self)@.height == old(self)@.height,
            final(self)@.active_layer == old(self)@.active_layer,
            final(self)@.brush == old(self)@.brush,
            final(self)@.layers.len() == old(self)@.layers.len(),
            layer_event(
                old(self)@.layers[old(self)@.active_layer],
                final(self)@.layers[old(self)@.active_layer],
                old(self)@.brush,
                e,
                res,
            ),
            forall|i: int|
                0 <= i < old(self)@.layers.len() && i != old(self)@.active_layer ==> #[trigger] final(self)@.layers[i]
                    == old(self)@.layers[i],
            match res {
                Some(r) => final(self)@.refreshed(old(self)@, r),
                None => final(self)@.cache == old(self)@.cache,
            },
    {
        let a = self.active_layer;
        let ghost old_layers = self.layers@;
        let mut layer = self.layers.remove(a);
        assert(layer@ == old(self)@.layers[a as int]) by {
            assert(layer == old_layers[a as int]);
        }
        let res = layer.mouse_event(&self.current_brush, e);
        self.layers.insert(a, layer);
        proof {
            assert(self.layers@ =~= old_layers.update(a as int, layer));
            assert forall|i: int| 0 <= i < self@.layers.len() implies (#[trigger] self@.layers[i]).image.wf()
                && self@.layers[i].image.width == self@.width && self@.layers[i].image.height == self@.height by {
                if i != a {
                    assert(self@.layers[i] == old(self)@.layers[i]);
                }
            }
        }
        match res {
            Some(r) => {
                let ghost mid = self@;
                self.update_cache(&r);
                proof {
                    assert(mid.cache == old(self)@.cache);
                }
            },
            None => {},
        }
        res
    }

    /// Drops every layer's strokes, resets every layer and the output buffer to
    /// transparent black.
    pub fn clear(&mut self)
        requires
            old(self)@.wf(),
        ensures
            final(self)@.wf(),
            final(self)@.width == old(self)@.width,
            final(self)@.height == old(self)@.height,
            final(self)@.active_layer == old(self)@.active_layer,
            final(self)@.brush == old(self)@.brush,
            final(self)@.layers.len() == old(self)@.layers.len(),
            forall|i: int|
                0 <= i < final(self)@.layers.len() ==> (#[trigger] final(self)@.layers[i]).strokes.len() == 0
                    && final(self)@.layers[i].visible == old(self)@.layers[i].visible,
            forall|i: int, x: int, y: int|
                0 <= i < final(self)@.layers.len() && in_canvas(old(self)@.width as int, old(self)@.height as int, x, y)
                    ==> #[trigger] final(self)@.layers[i].image.pixel(x, y) == clear_color(),
            forall|x: int, y: int|
                in_canvas(old(self)@.width as int, old(self)@.height as int, x, y) ==> #[trigger] final(self)@.cache_pixel(
                    x,
                    y,
                ) == clear_color(),
    {
        let ghost w = self.width as int;
        let ghost h = self.height as int;
        let full = Rect { lt_x: 0, lt_y: 0, rb_x: self.width as i32, rb_y: self.height as i32 };
        clear_rect(&mut self.image_cache, self.width, self.height, &full);
        let ghost old_layers = old(self)@.layers;
        let mut k: usize = 0;
        while k < self.layers.len()
            invariant
                k <= self.layers.len(),
                self.layers.len() == old_layers.len(),
                w == self.width,
                h == self.height,
                self.width == old(self).width,
                self.height == old(self).height,
                self.active_layer == old(self).active_layer,
                self.current_brush == old(self).current_brush,
                self.image_cache@.len() == w * h * 4,
                w <= i32::MAX,
                h <= i32::MAX,
                0 <= self.active_layer < self.layers.len(),
                forall|x: int, y: int|
                    in_canvas(w, h, x, y) ==> #[trigger] buf_pixel(self.image_cache@, w, x, y) == clear_color(),
                forall|i: int|
                    0 <= i < self@.layers.len() ==> (#[trigger] self@.layers[i]).image.wf()
                        && self@.layers[i].image.width == w && self@.layers[i].image.height == h
                        && self@.layers[i].visible == old_layers[i].visible,
                forall|i: int| 0 <= i < k ==> (#[trigger] self@.layers[i]).strokes.len() == 0,
                forall|i: int, x: int, y: int|
                    0 <= i < k && in_canvas(w, h, x, y) ==> #[trigger] self@.layers[i].image.pixel(x, y)
                        == clear_color(),
            decreases self.layers.len() - k,
        {
            let ghost before = self.layers@;
            let ghost bv = self@.layers;
            assert(bv[k as int].image.wf());
            assert(bv[k as int] == before[k as int]@);
            let mut layer = self.layers.remove(k);
            assert(layer == before[k as int]);
            layer.clear();
            self.layers.insert(k, layer);
            proof {
                assert(self.layers@ =~= before.update(k as int, layer));
                assert forall|i: int| 0 <= i < self@.layers.len() && i != k implies #[trigger] self@.layers[i]
                    == bv[i] by {}
                assert forall|i: int, x: int, y: int|
                    0 <= i < k + 1 && in_canvas(w, h, x, y) implies #[trigger] self@.layers[i].image.pixel(x, y)
                        == clear_color() by {
                    if i < k {
                        assert(self@.layers[i] == bv[i]);
                    }
                }
            }
            k = k + 1;
        }
    }

    /// Closes the active layer's strokes into one polygon.
    pub fn closed_stroke(&self) -> (res: Result<Stroke, CloseError>)
        requires
            self@.wf(),
        ensures
            match closed_polygon(self@.layers[self@.active_layer].strokes) {
                Some(p) => res is Ok && res->Ok_0@ == p,
                None => res == Err::<Stroke, CloseError>(CloseError::NothingToClose),
            },
    {
        assert(self@.layers[self.active_layer as int] == self.layers@[self.active_layer as int]@);
        get_closed_stroke(&self.layers[self.active_layer].strokes)
    }

    /// Shows a closed polygon: the bottom layer's pixels become `field` (the normal
    /// field of `closed`), the polygon's outline is drawn over them with the current
    /// brush, and the whole output buffer is recomposited. A field of another size
    /// than the canvas is refused and nothing changes.
    pub fn paint_closed(&mut self, closed: &Stroke, field: CanvasImage) -> (res: Result<(), CanvasError>)
        requires
            old(self)@.wf(),
        ensures
            res is Ok <==> field@.wf() && field@.width == old(self)@.width && field@.height == old(self)@.height,
            res is Err ==> res == Err::<(), CanvasError>(CanvasError::SizeMismatch) && final(self)@ == old(self)@,
            res is Ok ==> {
                &&& final(self)@.wf()
                &&& final(self)@.width == old(self)@.width
                &&& final(self)@.height == old(self)@.height
                &&& final(self)@.active_layer == old(self)@.active_layer
                &&& final(self)@.brush == old(self)@.brush
                &&& final(self)@.layers.len() == old(self)@.layers.len()
                &&& forall|i: int|
                    0 < i < old(self)@.layers.len() ==> #[trigger] final(self)@.layers[i] == old(self)@.layers[i]
                &&& final(self)@.layers[0].strokes == old(self)@.layers[0].strokes
                &&& final(self)@.layers[0].visible == old(self)@.layers[0].visible
                &&& final(self)@.layers[0].blend_mode == old(self)@.layers[0].blend_mode
                &&& strokes_painted(field@, final(self)@.layers[0].image, seq![closed@], old(self)@.brush)
                &&& forall|x: int, y: int|
                    in_canvas(old(self)@.width as int, old(self)@.height as int, x, y)
                        ==> #[trigger] final(self)@.cache_pixel(x, y) == final(self)@.composed(x, y)
            },
    {
        if !field.well_formed() || field.width != self.width || field.height != self.height {
            return Err(CanvasError::SizeMismatch);
        }
        let ghost old_layers = self.layers@;
        let mut field = field;
        let mut outline: Vec<Stroke> = Vec::new();
        outline.push(closed.duplicate());
        assert(stroke_views(outline@) =~= seq![closed@]);
        field.draw_stroke(&outline, &self.current_brush);
        let mut layer = self.layers.remove(0);
        assert(layer == old_layers[0]);
        layer.image = field;
        self.layers.insert(0, layer);
        proof {
            assert(self.layers@ =~= old_layers.update(0, layer));
            assert forall|i: int| 0 <= i < self@.layers.len() implies (#[trigger] self@.layers[i]).image.wf()
                && self@.layers[i].image.width == self@.width && self@.layers[i].image.height == self@.height by {
                if i != 0 {
                    assert(self@.layers[i] == old(self)@.layers[i]);
                }
            }
        }
        let full = Rect { lt_x: 0, lt_y: 0, rb_x: self.width as i32, rb_y: self.height as i32 };
        self.update_cache(&full);
        Ok(())
    }

    /// The picture that an export writes: every layer with its strokes drawn over it
    /// in white at radius 1, composited bottom-up onto transparent black, as RGBA
    /// bytes. The model itself is left as it is.
    pub fn output_image(&self) -> (data: Vec<u8>)
        requires
            self@.wf(),
        ensures
            data@.len() == self@.width * self@.height * 4,
            forall|x: int, y: int|
                in_canvas(self@.width as int, self@.height as int, x, y) ==> #[trigger] buf_pixel(
                    data@,
                    self@.width as int,
                    x,
                    y,
                ) == export_pixel(self@.layers, self@.layers.len() as int, x, y),
    {
        let ghost w = self.width as int;
        let ghost h = self.height as int;
        let ghost lv = self@.layers;
        let white = Brush { tip: BrushTip::Contour, size: 1, color: Color { r: 255, g: 255, b: 255, a: 255 } };
        let full = Rect { lt_x: 0, lt_y: 0, rb_x: self.width as i32, rb_y: self.height as i32 };
        let len = self.image_cache.len();
        assert(len == w * h * 4);
        let blank = CanvasImage::new(self.width, self.height, 0);
        let mut data = blank.data;
        proof {
            assert forall|x: int, y: int| in_canvas(w, h, x, y) implies #[trigger] buf_pixel(data@, w, x, y)
                == export_pixel(lv, 0, x, y) by {
                lemma_pixel_offset_bounds(w, h, x, y);
            }
        }
        let mut k: usize = 0;
        while k < self.layers.len()
            invariant
                k <= self.layers.len(),
                lv == layer_views(self.layers@),
                lv.len() == self.layers@.len(),
                self@.wf(),
                w == self.width,
                h == self.height,
                white == export_brush(),
                full == (Rect { lt_x: 0, lt_y: 0, rb_x: w as i32, rb_y: h as i32 }),
                data@.len() == w * h * 4,
                forall|x: int, y: int|
                    in_canvas(w, h, x, y) ==> #[trigger] buf_pixel(data@, w, x, y) == export_pixel(lv, k as int, x, y),
            decreases self.layers.len() - k,
        {
            assert(lv[k as int] == self.layers@[k as int]@);
            assert(lv[k as int].image.wf());
            if self.layers[k].visible {
                let mut img = self.layers[k].image.duplicate();
                img.draw_stroke(&self.layers[k].strokes, &white);
                blend_over(&img, &mut data, &full);
            }
            k = k + 1;
        }
        data
    }
}

} // verus!
