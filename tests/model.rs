use sketchbook::canvas::CanvasModel;
use sketchbook::color::Color;
use sketchbook::geometry::{Point, Rect};
use sketchbook::normal::{get_normal_field, SourceNormal};
use sketchbook::panel::{HoeModel, PoheModel};
use sketchbook::stroke::StrokePoint;

fn sample(x: i32, y: i32, dragging: bool) -> StrokePoint {
    StrokePoint { x, y, pressure: 0, tilt_x: 0, tilt_y: 0, timestamp: 0, dragging }
}

fn cache_pixel(m: &CanvasModel, x: usize, y: usize) -> [u8; 4] {
    let w = m.width() as usize;
    let d = m.image_cache();
    let i = (y * w + x) * 4;
    [d[i], d[i + 1], d[i + 2], d[i + 3]]
}

#[test]
fn gesture_end_to_end() {
    let mut m = CanvasModel::new(10, 10);
    m.set_brush_size(2);
    let before = m.image_cache().clone();
    assert!(before.iter().all(|&v| v == 0));
    let mut dirty: Option<Rect> = None;
    for &(x, y) in [(2, 2), (4, 4), (6, 5)].iter() {
        let r = m.on_mouse_event(sample(x, y, true));
        assert!(r.is_some());
        dirty = r;
    }
    assert_eq!(m.on_mouse_event(sample(6, 5, false)), None);
    let r = dirty.unwrap();
    assert_eq!(r, Rect::new(2, 2, 8, 7));
    assert!(r.lt_x < r.rb_x && r.lt_y < r.rb_y);
    assert!(0 <= r.lt_x && r.rb_x <= 10 && 0 <= r.lt_y && r.rb_y <= 10);
    let mut changed = false;
    for y in r.lt_y..r.rb_y {
        for x in r.lt_x..r.rb_x {
            if cache_pixel(&m, x as usize, y as usize) != [0, 0, 0, 0] {
                changed = true;
            }
        }
    }
    assert!(changed);
    assert_eq!(cache_pixel(&m, 4, 4), [0, 0, 0, 255]);
    assert_eq!(m.layer(1).strokes().len(), 1);
    assert!(m.layer(1).strokes()[0].finished);
    assert_eq!(m.layer(0).strokes().len(), 0);
}

#[test]
fn new_model_is_blank() {
    let m = CanvasModel::new(4, 3);
    assert_eq!(m.layer_count(), 2);
    assert_eq!(m.image_cache().len(), 4 * 3 * 4);
    assert!(m.image_cache().iter().all(|&v| v == 0));
    assert_eq!(m.brush().size, 2);
}

#[test]
fn brush_size_is_clamped() {
    let mut m = CanvasModel::new(4, 4);
    m.set_brush_size(-3);
    assert_eq!(m.brush().size, 0);
    m.set_brush_size(7);
    assert_eq!(m.brush().size, 7);
    m.set_brush_size(i64::MAX);
    assert_eq!(m.brush().size, u32::MAX);
}

#[test]
fn brush_change_does_not_touch_earlier_strokes() {
    let mut m = CanvasModel::new(8, 8);
    m.on_mouse_event(sample(1, 1, true));
    m.set_brush_size(5);
    assert_eq!(m.layer(1).strokes()[0].brush.size, 2);
}

#[test]
fn clear_resets_everything() {
    let mut m = CanvasModel::new(6, 6);
    m.on_mouse_event(sample(3, 3, true));
    assert!(m.image_cache().iter().any(|&v| v != 0));
    m.clear();
    assert!(m.image_cache().iter().all(|&v| v == 0));
    assert_eq!(m.layer(1).strokes().len(), 0);
    assert!(m.layer(1).image().data().iter().all(|&v| v == 0));
}

#[test]
fn update_cache_recomposites_only_rect() {
    let mut m = CanvasModel::new(6, 6);
    m.on_mouse_event(sample(1, 1, true));
    m.on_mouse_event(sample(4, 1, true));
    m.clear();
    m.on_mouse_event(sample(1, 1, true));
    m.update_cache(&Rect::new(0, 0, 6, 6));
    assert_eq!(cache_pixel(&m, 1, 1), [0, 0, 0, 255]);
    assert_eq!(cache_pixel(&m, 4, 1), [0, 0, 0, 0]);
}

#[test]
fn close_and_paint_field() {
    let mut m = CanvasModel::new(12, 12);
    m.set_brush_size(1);
    for &(x, y) in [(1, 1), (10, 1), (10, 10)].iter() {
        m.on_mouse_event(sample(x, y, true));
    }
    m.on_mouse_event(sample(10, 10, false));
    for &(x, y) in [(1, 10), (1, 2)].iter() {
        m.on_mouse_event(sample(x, y, true));
    }
    m.on_mouse_event(sample(1, 2, false));
    let closed = m.closed_stroke().unwrap();
    let pts: Vec<(i32, i32)> = closed.points.iter().map(|p| (p.x, p.y)).collect();
    assert_eq!(pts, vec![(1, 10), (1, 2), (1, 1), (10, 1), (10, 10), (1, 10)]);
    let shade = |_n: &Vec<SourceNormal>, _p: Point| Color::new(100, 110, 120, 0);
    let field = get_normal_field(12, 12, &closed, shade).unwrap();
    assert!(m.paint_closed(&closed, field).is_ok());
    assert_eq!(m.layer(0).image().at(5, 5), Color::new(100, 110, 120, 255));
    assert_eq!(cache_pixel(&m, 5, 5), [100, 110, 120, 255]);
    assert_eq!(cache_pixel(&m, 10, 5), [0, 0, 0, 255]);
    assert_eq!(cache_pixel(&m, 11, 11), [0, 0, 0, 0]);
}

#[test]
fn paint_closed_refuses_wrong_size() {
    let mut m = CanvasModel::new(5, 5);
    m.on_mouse_event(sample(1, 1, true));
    let closed = m.closed_stroke().unwrap();
    let shade = |_n: &Vec<SourceNormal>, _p: Point| Color::new(1, 1, 1, 1);
    let field = get_normal_field(6, 6, &sketchbook::stroke::Stroke::new(0, m.brush()), shade);
    assert!(field.is_err());
    let other = sketchbook::canvas::CanvasImage::new(6, 6, 0);
    assert!(m.paint_closed(&closed, other).is_err());
}

#[test]
fn export_draws_strokes_in_white() {
    let mut m = CanvasModel::new(5, 5);
    m.set_brush_size(0);
    m.on_mouse_event(sample(2, 2, true));
    m.on_mouse_event(sample(2, 3, true));
    let data = m.output_image();
    assert_eq!(data.len(), 5 * 5 * 4);
    let px = |x: usize, y: usize| [data[(y * 5 + x) * 4], data[(y * 5 + x) * 4 + 1], data[(y * 5 + x) * 4 + 2]];
    assert_eq!(px(2, 2), [255, 255, 255]);
    assert_eq!(px(2, 3), [255, 255, 255]);
    assert_eq!(px(0, 0), [0, 0, 0]);
    assert!(m.image_cache().iter().all(|&v| v == 0));
}

#[test]
fn panel_models_start_at_zero() {
    assert_eq!(PoheModel::new().value, 0);
    assert_eq!(HoeModel::new().count, 0);
}
