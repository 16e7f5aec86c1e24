use sketchbook::brush::Brush;
use sketchbook::color::Color;
use sketchbook::geometry::Point;
use sketchbook::normal::{get_normal_field, inside_curve, is_degenerate, source_normals, NormalFieldError, SourceNormal};
use sketchbook::stroke::{Stroke, StrokePoint};

fn pt(x: i32, y: i32) -> StrokePoint {
    StrokePoint { x, y, pressure: 0, tilt_x: 0, tilt_y: 0, timestamp: 0, dragging: true }
}

fn stroke(points: &[(i32, i32)]) -> Stroke {
    let mut s = Stroke::new(points.len(), Brush::new());
    for &(x, y) in points {
        s.push(pt(x, y));
    }
    s
}

fn square() -> Stroke {
    stroke(&[(0, 0), (10, 0), (10, 10), (0, 10), (0, 0)])
}

#[test]
fn square_inside_and_outside() {
    let sq = square();
    assert!(inside_curve(&sq, &Point::new(5, 5)));
    assert!(inside_curve(&sq, &Point::new(1, 9)));
    assert!(!inside_curve(&sq, &Point::new(15, 5)));
    assert!(!inside_curve(&sq, &Point::new(-5, 5)));
    assert!(!inside_curve(&sq, &Point::new(5, -1)));
    assert!(!inside_curve(&sq, &Point::new(5, 11)));
}

#[test]
fn square_boundary_is_defined() {
    let sq = square();
    assert!(inside_curve(&sq, &Point::new(0, 5)));
    assert!(!inside_curve(&sq, &Point::new(10, 5)));
    assert!(inside_curve(&sq, &Point::new(0, 0)));
    assert!(!inside_curve(&sq, &Point::new(5, 10)));
}

#[test]
fn inside_of_tiny_or_empty_polygon() {
    assert!(!inside_curve(&stroke(&[]), &Point::new(0, 0)));
    assert!(!inside_curve(&stroke(&[(1, 1)]), &Point::new(1, 1)));
}

#[test]
fn degenerate_polygons_are_refused() {
    let shade = |_n: &Vec<SourceNormal>, _p: Point| Color::new(1, 2, 3, 4);
    assert_eq!(get_normal_field(8, 8, &stroke(&[(3, 3)]), shade).err(), Some(NormalFieldError::Degenerate));
    assert_eq!(
        get_normal_field(8, 8, &stroke(&[(0, 0), (1, 1), (2, 2), (0, 0)]), shade).err(),
        Some(NormalFieldError::Degenerate)
    );
    assert_eq!(get_normal_field(8, 8, &stroke(&[]), shade).err(), Some(NormalFieldError::Degenerate));
    assert!(is_degenerate(&stroke(&[(4, 4), (4, 4)]).points));
    assert!(!is_degenerate(&square().points));
}

#[test]
fn field_is_opaque_shade_inside_and_clear_outside() {
    let shade = |n: &Vec<SourceNormal>, p: Point| Color::new(n.len() as u8, p.x as u8, p.y as u8, 0);
    let field = get_normal_field(20, 20, &square(), shade).unwrap();
    assert_eq!(field.width(), 20);
    assert_eq!(field.height(), 20);
    assert_eq!(field.at(5, 6), Color::new(5, 5, 6, 255));
    assert_eq!(field.at(15, 15), Color::new(0, 0, 0, 0));
    assert_eq!(field.at(10, 5), Color::new(0, 0, 0, 0));
}

#[test]
fn square_source_normals() {
    let n = source_normals(&square());
    assert_eq!(n.len(), 5);
    assert_eq!(n[0], SourceNormal { x: 0, y: 0, nx: 1, ny: 0 });
    assert_eq!(n[1], SourceNormal { x: 10, y: 0, nx: 10, ny: -10 });
    assert_eq!(n[2], SourceNormal { x: 10, y: 10, nx: 10, ny: 10 });
    assert_eq!(n[3], SourceNormal { x: 0, y: 10, nx: -10, ny: 10 });
}

#[test]
fn repeated_neighbours_give_zero_normal() {
    let n = source_normals(&stroke(&[(2, 2), (5, 5), (2, 2)]));
    assert_eq!(n[1], SourceNormal { x: 5, y: 5, nx: 0, ny: 0 });
}

#[test]
fn vertical_tangent_gives_fixed_normal() {
    let n = source_normals(&stroke(&[(3, 0), (5, 5), (3, 9), (0, 4)]));
    assert_eq!(n[1], SourceNormal { x: 5, y: 5, nx: 0, ny: 1 });
}
