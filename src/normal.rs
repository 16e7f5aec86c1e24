use vstd::prelude::*;
use crate::canvas::{in_canvas, CanvasImage};
use crate::color::{clear_color, Color};
use crate::geometry::Point;
use crate::stroke::{Stroke, StrokePoint};

verus! {

/// Why a normal field could not be built.
#[derive(Clone, Copy, Debug, PartialEq, Eq, Structural)]
pub enum NormalFieldError {
    /// The polygon's samples all lie on one line (or there are fewer than three
    /// distinct ones), so it has no interior.
    Degenerate,
}

/// `a < b + eps * c` for every small enough positive `eps`.
pub open spec fn lt_perturbed(a: int, b: int, c: int) -> bool {
    a < b || (a == b && c > 0)
}

/// The horizontal ray from `p + eps * (a, b)` toward positive x crosses edge
/// `(u, v)`, for every small enough positive `eps`. With `(a, b) == (0, 0)` this is
/// the crossing test for `p` itself: the edge straddles `p`'s row (its lower end
/// included, its upper end not) and meets that row to the right of `p`.
pub open spec fn edge_crosses(u: StrokePoint, v: StrokePoint, p: Point, a: int, b: int) -> bool {
    // u.y <= q.y and v.y > q.y, where q = p + eps * (a, b)
    let u_le = lt_perturbed(u.y as int, p.y as int, b) || (u.y == p.y && b == 0);
    let v_gt = lt_perturbed(p.y as int, v.y as int, -b);
    let up = u_le && v_gt;
    let down = !u_le && !v_gt;
    let dy = v.y - u.y;
    let dx = v.x - u.x;
    // q.x - u.x compared with (q.y - u.y) * dx / dy, multiplied out by dy
    let f0 = (p.x - u.x) * dy - (p.y - u.y) * dx;
    let f1 = a * dy - b * dx;
    if up {
        f0 < 0 || (f0 == 0 && f1 < 0)
    } else if down {
        f0 > 0 || (f0 == 0 && f1 > 0)
    } else {
        false
    }
}

/// How many of the edges `0..k` (edge `i` joins samples `i` and `i + 1`) the ray
/// from `p + eps * (a, b)` crosses.
pub open spec fn crossings(pts: Seq<StrokePoint>, p: Point, a: int, b: int, k: int) -> nat
    decreases k,
{
    if k <= 0 {
        0
    } else {
        crossings(pts, p, a, b, k - 1) + if edge_crosses(pts[k - 1], pts[k], p, a, b) {
            1nat
        } else {
            0nat
        }
    }
}

/// `p + eps * (a, b)` lies inside the polygon `pts` by the even-odd rule, for every
/// small enough positive `eps`.
pub open spec fn inside_toward(pts: Seq<StrokePoint>, p: Point, a: int, b: int) -> bool {
    pts.len() >= 2 && crossings(pts, p, a, b, pts.len() - 1) % 2 == 1
}

/// `p` lies inside the polygon `pts` by the even-odd rule.
pub open spec fn inside(pts: Seq<StrokePoint>, p: Point) -> bool {
    inside_toward(pts, p, 0, 0)
}

fn edge_crosses_exec(u: StrokePoint, v: StrokePoint, p: Point, a: i64, b: i64) -> (r: bool)
    requires
        -0x1_0000_0000 <= a <= 0x1_0000_0000,
        -0x1_0000_0000 <= b <= 0x1_0000_0000,
    ensures
        r == edge_crosses(u, v, p, a as int, b as int),
{
    let u_le = u.y < p.y || (u.y == p.y && b >= 0);
    let v_gt = p.y < v.y || (p.y == v.y && b < 0);
    let up = u_le && v_gt;
    let down = !u_le && !v_gt;
    let dy = (v.y as i64 - u.y as i64) as i128;
    let dx = (v.x as i64 - u.x as i64) as i128;
    let ex = (p.x as i64 - u.x as i64) as i128;
    let ey = (p.y as i64 - u.y as i64) as i128;
    let a = a as i128;
    let b = b as i128;
    assert(-0x1_0000_0000_0000_0000i128 <= ex * dy <= 0x1_0000_0000_0000_0000i128) by (nonlinear_arith)
        requires
            -0x1_0000_0000i128 <= ex <= 0x1_0000_0000i128,
            -0x1_0000_0000i128 <= dy <= 0x1_0000_0000i128,
    ;
    assert(-0x1_0000_0000_0000_0000i128 <= ey * dx <= 0x1_0000_0000_0000_0000i128) by (nonlinear_arith)
        requires
            -0x1_0000_0000i128 <= ey <= 0x1_0000_0000i128,
            -0x1_0000_0000i128 <= dx <= 0x1_0000_0000i128,
    ;
    assert(-0x1_0000_0000_0000_0000i128 <= a * dy <= 0x1_0000_0000_0000_0000i128) by (nonlinear_arith)
        requires
            -0x1_0000_0000i128 <= a <= 0x1_0000_0000i128,
            -0x1_0000_0000i128 <= dy <= 0x1_0000_0000i128,
    ;
    assert(-0x1_0000_0000_0000_0000i128 <= b * dx <= 0x1_0000_0000_0000_0000i128) by (nonlinear_arith)
        requires
            -0x1_0000_0000i128 <= b <= 0x1_0000_0000i128,
            -0x1_0000_0000i128 <= dx <= 0x1_0000_0000i128,
    ;
    let f0 = ex * dy - ey * dx;
    let f1 = a * dy - b * dx;
    if up {
        f0 < 0 || (f0 == 0 && f1 < 0)
    } else if down {
        f0 > 0 || (f0 == 0 && f1 > 0)
    } else {
        false
    }
}

/// Even-odd test of `p + eps * (a, b)` against the polygon, for small positive `eps`.
fn inside_toward_exec(pts: &Vec<StrokePoint>, p: Point, a: i64, b: i64) -> (r: bool)
    requires
        -0x1_0000_0000 <= a <= 0x1_0000_0000,
        -0x1_0000_0000 <= b <= 0x1_0000_0000,
    ensures
        r == inside_toward(pts@, p, a as int, b as int),
{
    let n = pts.len();
    if n < 2 {
        return false;
    }
    let mut odd = false;
    let mut i: usize = 0;
    while i < n - 1
        invariant
            n == pts@.len(),
            n >= 2,
            i <= n - 1,
            -0x1_0000_0000 <= a <= 0x1_0000_0000,
            -0x1_0000_0000 <= b <= 0x1_0000_0000,
            odd == (crossings(pts@, p, a as int, b as int, i as int) % 2 == 1),
        decreases n - 1 - i,
    {
        if edge_crosses_exec(pts[i], pts[i + 1], p, a, b) {
            odd = !odd;
        }
        i = i + 1;
    }
    odd
}

/// Whether `p` lies inside the polygon that `stroke`'s samples trace, by the
/// even-odd rule on a horizontal ray. Points on an edge get a defined answer.
pub fn inside_curve(stroke: &Stroke, p: &Point) -> (r: bool)
    ensures
        r == inside(stroke@.points, *p),
{
    inside_toward_exec(&stroke.points, *p, 0, 0)
}

/// Twice the signed area of the triangle `(o, a, b)`.
pub open spec fn cross(o: StrokePoint, a: StrokePoint, b: StrokePoint) -> int {
    (a.x - o.x) * (b.y - o.y) - (a.y - o.y) * (b.x - o.x)
}

/// Every sample lies on one line through the first: no interior.
pub open spec fn degenerate(pts: Seq<StrokePoint>) -> bool {
    !exists|i: int, j: int| 0 <= i < pts.len() && 0 <= j < pts.len() && cross(pts[0], pts[i], pts[j]) != 0
}

fn cross_nonzero(o: StrokePoint, a: StrokePoint, b: StrokePoint) -> (r: bool)
    ensures
        r == (cross(o, a, b) != 0),
{
    let ax = (a.x as i64 - o.x as i64) as i128;
    let ay = (a.y as i64 - o.y as i64) as i128;
    let bx = (b.x as i64 - o.x as i64) as i128;
    let by = (b.y as i64 - o.y as i64) as i128;
    assert(-0x1_0000_0000_0000_0000i128 <= ax * by <= 0x1_0000_0000_0000_0000i128) by (nonlinear_arith)
        requires
            -0x1_0000_0000i128 <= ax <= 0x1_0000_0000i128,
            -0x1_0000_0000i128 <= by <= 0x1_0000_0000i128,
    ;
    assert(-0x1_0000_0000_0000_0000i128 <= ay * bx <= 0x1_0000_0000_0000_0000i128) by (nonlinear_arith)
        requires
            -0x1_0000_0000i128 <= ay <= 0x1_0000_0000i128,
            -0x1_0000_0000i128 <= bx <= 0x1_0000_0000i128,
    ;
    ax * by - ay * bx != 0
}

/// Whether the polygon's samples all lie on one line.
pub fn is_degenerate(pts: &Vec<StrokePoint>) -> (r: bool)
    ensures
        r == degenerate(pts@),
{
    let n = pts.len();
    let mut i: usize = 0;
    while i < n
        invariant
            n == pts@.len(),
            i <= n,
            forall|i2: int, j2: int| 0 <= i2 < i && 0 <= j2 < n ==> cross(pts@[0], pts@[i2], pts@[j2]) == 0,
        decreases n - i,
    {
        let mut j: usize = 0;
        while j < n
            invariant
                n == pts@.len(),
                i < n,
                j <= n,
                forall|i2: int, j2: int| 0 <= i2 < i && 0 <= j2 < n ==> cross(pts@[0], pts@[i2], pts@[j2]) == 0,
                forall|j2: int| 0 <= j2 < j ==> cross(pts@[0], pts@[i as int], pts@[j2]) == 0,
            decreases n - j,
        {
            if cross_nonzero(pts[0], pts[i], pts[j]) {
                return false;
            }
            j = j + 1;
        }
        i = i + 1;
    }
    true
}

/// A polygon vertex and the outward direction estimated there (not normalized).
#[derive(Clone, Copy, Debug, PartialEq, Eq, Structural)]
pub struct SourceNormal {
    pub x: i32,
    pub y: i32,
    pub nx: i64,
    pub ny: i64,
}

/// The direction at a vertex whose neighbours differ by `(dx, dy)`: the tangent
/// slope there is `-dx / dy`. A zero slope gives `(0, 1)`, an infinite one
/// `(1, 0)`, an undefined one `(0, 0)`; otherwise the perpendicular `(1, -dx / dy)`,
/// scaled to integers, turned to point away from the interior.
pub open spec fn vertex_normal(pts: Seq<StrokePoint>, p: Point, dx: int, dy: int) -> (int, int) {
    if dx == 0 && dy == 0 {
        (0, 0)
    } else if dx == 0 {
        (0, 1)
    } else if dy == 0 {
        (1, 0)
    } else {
        let a = if dy > 0 { dy } else { -dy };
        let b = if dy > 0 { -dx } else { dx };
        if inside_toward(pts, p, a, b) {
            (-a, -b)
        } else {
            (a, b)
        }
    }
}

/// The source normal at vertex `i`, from its neighbours `i - 1` and `i + 1`
/// taken cyclically.
pub open spec fn source_normal(pts: Seq<StrokePoint>, i: int) -> SourceNormal {
    let n = pts.len() as int;
    let prev = pts[if i == 0 { n - 1 } else { i - 1 }];
    let next = pts[if i + 1 == n { 0 } else { i + 1 }];
    let p = Point { x: pts[i].x, y: pts[i].y };
    let d = vertex_normal(pts, p, next.x - prev.x, next.y - prev.y);
    SourceNormal { x: pts[i].x, y: pts[i].y, nx: d.0 as i64, ny: d.1 as i64 }
}

/// One source normal per vertex of the polygon, in vertex order.
pub fn source_normals(stroke: &Stroke) -> (res: Vec<SourceNormal>)
    ensures
        res@.len() == stroke@.points.len(),
        forall|i: int| 0 <= i < res@.len() ==> #[trigger] res@[i] == source_normal(stroke@.points, i),
{
    let pts = &stroke.points;
    let n = pts.len();
    let mut out: Vec<SourceNormal> = Vec::new();
    let mut i: usize = 0;
    while i < n
        invariant
            n == pts@.len(),
            pts@ == stroke@.points,
            i <= n,
            out@.len() == i,
            forall|k: int| 0 <= k < i ==> #[trigger] out@[k] == source_normal(pts@, k),
        decreases n - i,
    {
        let prev = pts[if i == 0 { n - 1 } else { i - 1 }];
        let next = pts[if i + 1 == n { 0 } else { i + 1 }];
        let cur = pts[i];
        let dx = next.x as i64 - prev.x as i64;
        let dy = next.y as i64 - prev.y as i64;
        let (nx, ny): (i64, i64) = if dx == 0 && dy == 0 {
            (0, 0)
        } else if dx == 0 {
            (0, 1)
        } else if dy == 0 {
            (1, 0)
        } else {
            let a = if dy > 0 { dy } else { -dy };
            let b = if dy > 0 { -dx } else { dx };
            if inside_toward_exec(pts, Point::new(cur.x, cur.y), a, b) {
                (-a, -b)
            } else {
                (a, b)
            }
        };
        out.push(SourceNormal { x: cur.x, y: cur.y, nx, ny });
        i = i + 1;
    }
    out
}

/// What the field holds at pixel `(x, y)`: an opaque shade from `shade` inside the
/// polygon, transparent black outside.
pub open spec fn field_pixel<F: Fn(&Vec<SourceNormal>, Point) -> Color<u8>>(
    pts: Seq<StrokePoint>,
    normals: &Vec<SourceNormal>,
    shade: F,
    x: int,
    y: int,
    c: Color<u8>,
) -> bool {
    if inside(pts, Point { x: x as i32, y: y as i32 }) {
        exists|s: Color<u8>|
            shade.ensures((normals, Point { x: x as i32, y: y as i32 }), s) && c == (Color {
                r: s.r,
                g: s.g,
                b: s.b,
                a: 255u8,
            })
    } else {
        c == clear_color()
    }
}

/// Builds the normal field of a closed polygon on a `w` by `h` canvas. Each vertex
/// gets a source normal; every pixel inside the polygon takes, at full opacity, the
/// color that `shade` gives from those normals and the pixel's position (the
/// diffusion of the normals over the interior); every other pixel is transparent
/// black. A polygon without interior is refused.
pub fn get_normal_field<F: Fn(&Vec<SourceNormal>, Point) -> Color<u8>>(
    w: u32,
    h: u32,
    stroke: &Stroke,
    shade: F,
) -> (res: Result<CanvasImage, NormalFieldError>)
    requires
        w <= i32::MAX,
        h <= i32::MAX,
        w * h * 4 <= usize::MAX,
        forall|n: &Vec<SourceNormal>, p: Point| #[trigger] shade.requires((n, p)),
    ensures
        degenerate(stroke@.points) <==> res is Err,
        res is Err ==> res == Err::<CanvasImage, NormalFieldError>(NormalFieldError::Degenerate),
        res matches Ok(img) ==> {
            &&& img@.wf()
            &&& img@.width == w
            &&& img@.height == h
            &&& exists|normals: &Vec<SourceNormal>|
                {
                    &&& normals@.len() == stroke@.points.len()
                    &&& forall|i: int| 0 <= i < normals@.len() ==> #[trigger] normals@[i] == source_normal(stroke@.points, i)
                    &&& forall|x: int, y: int|
                        in_canvas(w as int, h as int, x, y) ==> field_pixel(
                            stroke@.points,
                            normals,
                            shade,
                            x,
                            y,
                            #[trigger] img@.pixel(x, y),
                        )
                }
        },
{
    if is_degenerate(&stroke.points) {
        return Err(NormalFieldError::Degenerate);
    }
    let normals = source_normals(stroke);
    let mut field = CanvasImage::new(w, h, 0);
    let zero = Color { r: 0u8, g: 0u8, b: 0u8, a: 0u8 };
    let mut y: u32 = 0;
    while y < h
        invariant
            field@.wf(),
            field@.width == w,
            field@.height == h,
            zero == clear_color(),
            y <= h,
            forall|n: &Vec<SourceNormal>, p: Point| #[trigger] shade.requires((n, p)),
            forall|x2: int, y2: int|
                in_canvas(w as int, h as int, x2, y2) && y2 < y ==> field_pixel(
                    stroke@.points,
                    &normals,
                    shade,
                    x2,
                    y2,
                    #[trigger] field@.pixel(x2, y2),
                ),
        decreases h - y,
    {
        let mut x: u32 = 0;
        while x < w
            invariant
                field@.wf(),
                field@.width == w,
                field@.height == h,
                zero == clear_color(),
                y < h,
                x <= w,
                forall|n: &Vec<SourceNormal>, p: Point| #[trigger] shade.requires((n, p)),
                forall|x2: int, y2: int|
                    in_canvas(w as int, h as int, x2, y2) && (y2 < y || (y2 == y && x2 < x)) ==> field_pixel(
                        stroke@.points,
                        &normals,
                        shade,
                        x2,
                        y2,
                        #[trigger] field@.pixel(x2, y2),
                    ),
            decreases w - x,
        {
            let p = Point::new(x as i32, y as i32);
            if inside_curve(stroke, &p) {
                let s = shade(&normals, p);
                let c = Color { r: s.r, g: s.g, b: s.b, a: 255u8 };
                field.set_color(x as usize, y as usize, c);
            } else {
                field.set_color(x as usize, y as usize, zero);
            }
            x = x + 1;
        }
        y = y + 1;
    }
    Ok(field)
}

} // verus!
