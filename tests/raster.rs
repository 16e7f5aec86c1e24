use sketchbook::brush::{Brush, BrushTip};
use sketchbook::canvas::{blend_pixel, CanvasImage, Layer};
use sketchbook::color::Color;
use sketchbook::geometry::{saturate, Point, Rect};
use sketchbook::stroke::StrokePoint;

fn sample(x: i32, y: i32, dragging: bool) -> StrokePoint {
    StrokePoint { x, y, pressure: 0, tilt_x: 0, tilt_y: 0, timestamp: 0, dragging }
}

fn brush(size: u32, r: u8, g: u8, b: u8) -> Brush {
    Brush { tip: BrushTip::Contour, size, color: Color::new(r, g, b, 255) }
}

fn contains(outer: &Rect, inner: &Rect) -> bool {
    outer.lt_x <= inner.lt_x && outer.lt_y <= inner.lt_y && inner.rb_x <= outer.rb_x && inner.rb_y <= outer.rb_y
}

#[test]
fn rect_merge_grows_to_union() {
    let mut a = Rect::new(2, 3, 5, 6);
    a.merge(Rect::new(4, 1, 9, 5));
    assert_eq!(a, Rect::new(2, 1, 9, 6));
    a.merge(Rect::new(3, 2, 4, 3));
    assert_eq!(a, Rect::new(2, 1, 9, 6));
}

#[test]
fn saturate_clamps() {
    assert_eq!(saturate(-3, 0, 10), 0);
    assert_eq!(saturate(12, 0, 10), 10);
    assert_eq!(saturate(7, 0, 10), 7);
}

#[test]
fn default_brush_is_black_radius_two() {
    let b = Brush::new();
    assert_eq!(b.size, 2);
    assert_eq!(b.tip, BrushTip::Contour);
    assert_eq!(b.get_color(), Color::new(0, 0, 0, 255));
}

#[test]
fn new_image_is_filled() {
    let img = CanvasImage::new(3, 2, 7);
    assert_eq!(img.data().len(), 3 * 2 * 4);
    assert!(img.data().iter().all(|&v| v == 7));
    assert_eq!(img.at(2, 1), Color::new(7, 7, 7, 7));
}

#[test]
fn set_color_then_at() {
    let mut img = CanvasImage::new(4, 4, 0);
    img.set_color(1, 2, Color::new(1, 2, 3, 4));
    assert_eq!(img.at(1, 2), Color::new(1, 2, 3, 4));
    assert_eq!(img.at(2, 1), Color::new(0, 0, 0, 0));
}

#[test]
fn fill_circle_paints_strictly_inside() {
    let mut img = CanvasImage::new(10, 10, 0);
    let r = img.fill_circle(Point::new(5, 5), &brush(2, 10, 20, 30));
    assert_eq!(r, Rect::new(3, 3, 7, 7));
    let mut painted = 0;
    for y in 0..10usize {
        for x in 0..10usize {
            let dx = x as i64 - 5;
            let dy = y as i64 - 5;
            let c = img.at(x, y);
            if dx * dx + dy * dy < 4 {
                assert_eq!(c, Color::new(10, 20, 30, 255));
                painted += 1;
            } else {
                assert_eq!(c, Color::new(0, 0, 0, 0));
            }
        }
    }
    assert_eq!(painted, 9);
}

#[test]
fn fill_circle_off_canvas_touches_nothing() {
    let mut img = CanvasImage::new(6, 6, 0);
    let r = img.fill_circle(Point::new(-10, -10), &brush(3, 255, 0, 0));
    assert_eq!(r, Rect::new(0, 0, 0, 0));
    assert!(img.data().iter().all(|&v| v == 0));
    let r = img.fill_circle(Point::new(100, 2), &brush(3, 255, 0, 0));
    assert_eq!(r, Rect::new(6, 0, 6, 5));
    assert!(img.data().iter().all(|&v| v == 0));
}

#[test]
fn fill_circle_at_edge_is_clamped() {
    let mut img = CanvasImage::new(6, 6, 0);
    let r = img.fill_circle(Point::new(0, 0), &brush(2, 1, 1, 1));
    assert_eq!(r, Rect::new(0, 0, 2, 2));
    assert_eq!(img.at(0, 0).a, 255);
    assert_eq!(img.at(1, 1).a, 255);
    assert_eq!(img.at(2, 0).a, 0);
}

#[test]
fn zero_radius_stamp_reports_box_and_paints_nothing() {
    let mut img = CanvasImage::new(6, 6, 0);
    let r = img.fill_circle(Point::new(3, 3), &brush(0, 1, 1, 1));
    assert_eq!(r, Rect::new(3, 3, 3, 3));
    assert!(img.data().iter().all(|&v| v == 0));
}

#[test]
fn line_stamps_evenly_from_start_to_end() {
    let mut img = CanvasImage::new(20, 20, 0);
    let r = img.draw_line_with_circle(Point::new(0, 0), Point::new(3, 4), &brush(1, 9, 9, 9));
    assert_eq!(r, Rect::new(0, 0, 4, 5));
    let expected = [(0usize, 0usize), (1, 1), (1, 2), (2, 3), (3, 4)];
    for y in 0..20usize {
        for x in 0..20usize {
            let on = expected.contains(&(x, y));
            assert_eq!(img.at(x, y).a == 255, on, "pixel {} {}", x, y);
        }
    }
}

#[test]
fn line_rect_contains_end_stamps() {
    let cases = [((1, 1), (8, 3), 2u32), ((9, 9), (0, 2), 3), ((4, 4), (4, 4), 1), ((-3, 5), (12, 5), 2)];
    for &((x0, y0), (x1, y1), size) in cases.iter() {
        let b = brush(size, 5, 5, 5);
        let mut img = CanvasImage::new(10, 10, 0);
        let line = img.draw_line_with_circle(Point::new(x0, y0), Point::new(x1, y1), &b);
        let mut img0 = CanvasImage::new(10, 10, 0);
        let c0 = img0.fill_circle(Point::new(x0, y0), &b);
        let mut img1 = CanvasImage::new(10, 10, 0);
        let c1 = img1.fill_circle(Point::new(x1, y1), &b);
        assert!(contains(&line, &c0));
        assert!(contains(&line, &c1));
    }
}

#[test]
fn incremental_draw_needs_a_sample() {
    let mut img = CanvasImage::new(5, 5, 0);
    assert_eq!(img.draw_stroke_incremental(&Vec::new(), &Brush::new()), None);
    assert!(img.data().iter().all(|&v| v == 0));
}

#[test]
fn layer_drag_then_release() {
    let b = brush(1, 50, 60, 70);
    let mut layer = Layer::new(8, 8, 0);
    let r = layer.mouse_event(&b, sample(2, 2, true));
    assert_eq!(r, Some(Rect::new(1, 1, 3, 3)));
    let r = layer.mouse_event(&b, sample(4, 2, true));
    assert_eq!(r, Some(Rect::new(1, 1, 5, 3)));
    assert_eq!(layer.strokes().len(), 1);
    assert_eq!(layer.strokes()[0].points.len(), 2);
    assert_eq!(layer.image().at(3, 2), Color::new(50, 60, 70, 255));
    assert_eq!(layer.mouse_event(&b, sample(4, 2, false)), None);
    assert!(layer.strokes()[0].finished);
    layer.mouse_event(&b, sample(6, 6, true));
    assert_eq!(layer.strokes().len(), 2);
    assert_eq!(layer.strokes()[1].points.len(), 1);
    assert!(!layer.strokes()[1].finished);
}

#[test]
fn release_without_stroke_is_harmless() {
    let mut layer = Layer::new(3, 3, 0);
    assert_eq!(layer.mouse_event(&Brush::new(), sample(1, 1, false)), None);
    assert_eq!(layer.strokes().len(), 0);
}

#[test]
fn composite_opaque_over_clear_is_source() {
    let b = brush(1, 10, 20, 30);
    let mut layer = Layer::new(2, 2, 0);
    layer.mouse_event(&b, sample(0, 0, true));
    let mut data = vec![0u8; 2 * 2 * 4];
    layer.composite(&mut data, &Rect::new(0, 0, 2, 2));
    assert_eq!(&data[0..4], &[10, 20, 30, 255]);
    assert!(data[4..].iter().all(|&v| v == 0));
}

#[test]
fn composite_stays_inside_rect() {
    let b = brush(1, 10, 20, 30);
    let mut layer = Layer::new(3, 1, 0);
    layer.mouse_event(&b, sample(0, 0, true));
    layer.mouse_event(&b, sample(2, 0, true));
    let mut data = vec![0u8; 3 * 4];
    layer.composite(&mut data, &Rect::new(1, -5, 2, 5));
    assert_eq!(&data[0..4], &[0, 0, 0, 0]);
    assert_eq!(&data[4..8], &[10, 20, 30, 255]);
    assert_eq!(&data[8..12], &[0, 0, 0, 0]);
}

#[test]
fn blend_pixel_values() {
    assert_eq!(blend_pixel(Color::new(100, 50, 0, 128), Color::new(0, 0, 200, 255)), Color::new(50, 25, 99, 255));
    assert_eq!(blend_pixel(Color::new(10, 20, 30, 255), Color::new(1, 2, 3, 0)), Color::new(10, 20, 30, 255));
    assert_eq!(blend_pixel(Color::new(0, 0, 0, 0), Color::new(40, 50, 60, 255)), Color::new(40, 50, 60, 255));
}

#[test]
fn layer_clear_resets() {
    let mut layer = Layer::new(4, 4, 9);
    layer.mouse_event(&Brush::new(), sample(1, 1, true));
    layer.clear();
    assert_eq!(layer.strokes().len(), 0);
    assert!(layer.image().data().iter().all(|&v| v == 0));
}
