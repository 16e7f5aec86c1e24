use sketchbook::brush::Brush;
use sketchbook::closer::{connect_closed_points, get_closed_stroke, CloseError};
use sketchbook::stroke::{Stroke, StrokePoint};

fn pt(x: i32, y: i32) -> StrokePoint {
    StrokePoint { x, y, pressure: 0, tilt_x: 0, tilt_y: 0, timestamp: 0, dragging: true }
}

fn stroke(points: &[(i32, i32)]) -> Stroke {
    let mut s = Stroke::new(points.len(), Brush::new());
    for &(x, y) in points {
        s.push(pt(x, y));
    }
    s
}

fn coords(s: &Stroke) -> Vec<(i32, i32)> {
    s.points.iter().map(|p| (p.x, p.y)).collect()
}

#[test]
fn shared_endpoint_merges_into_three_points() {
    let merged = connect_closed_points(vec![stroke(&[(0, 0), (1, 0)]), stroke(&[(1, 0), (2, 0)])]);
    assert_eq!(merged.len(), 1);
    assert_eq!(coords(&merged[0]), vec![(0, 0), (1, 0), (2, 0)]);
}

#[test]
fn closing_two_touching_strokes() {
    let closed = get_closed_stroke(&vec![stroke(&[(0, 0), (1, 0)]), stroke(&[(1, 0), (2, 0)])]).unwrap();
    assert_eq!(coords(&closed), vec![(0, 0), (1, 0), (2, 0), (0, 0)]);
}

#[test]
fn start_to_start_match_reverses_first() {
    let merged = connect_closed_points(vec![stroke(&[(5, 0), (9, 0)]), stroke(&[(4, 0), (0, 0)])]);
    assert_eq!(coords(&merged[0]), vec![(9, 0), (5, 0), (4, 0), (0, 0)]);
}

#[test]
fn end_to_end_match_reverses_first_after_second() {
    let merged = connect_closed_points(vec![stroke(&[(0, 0), (5, 0)]), stroke(&[(20, 0), (6, 0)])]);
    assert_eq!(coords(&merged[0]), vec![(20, 0), (6, 0), (5, 0), (0, 0)]);
}

#[test]
fn start_to_end_match_puts_second_first() {
    let merged = connect_closed_points(vec![stroke(&[(10, 0), (20, 0)]), stroke(&[(0, 0), (9, 0)])]);
    assert_eq!(coords(&merged[0]), vec![(0, 0), (9, 0), (10, 0), (20, 0)]);
}

#[test]
fn three_strokes_greedy_order() {
    let strokes = vec![stroke(&[(0, 0), (5, 0)]), stroke(&[(20, 0), (10, 0)]), stroke(&[(6, 0), (9, 0)])];
    let step = connect_closed_points(strokes.iter().map(|s| s.duplicate()).collect());
    assert_eq!(step.len(), 2);
    assert_eq!(coords(&step[0]), vec![(20, 0), (10, 0)]);
    assert_eq!(coords(&step[1]), vec![(0, 0), (5, 0), (6, 0), (9, 0)]);
    let closed = get_closed_stroke(&strokes).unwrap();
    assert_eq!(coords(&closed), vec![(0, 0), (5, 0), (6, 0), (9, 0), (10, 0), (20, 0), (0, 0)]);
}

#[test]
fn closed_ring_only_gets_closing_sample() {
    let ring = [(0, 0), (10, 0), (10, 10), (0, 10), (0, 0)];
    let closed = get_closed_stroke(&vec![stroke(&ring)]).unwrap();
    let mut expected = ring.to_vec();
    expected.push((0, 0));
    assert_eq!(coords(&closed), expected);
}

#[test]
fn nothing_to_close() {
    assert_eq!(get_closed_stroke(&Vec::new()).err(), Some(CloseError::NothingToClose));
    assert_eq!(get_closed_stroke(&vec![stroke(&[])]).err(), Some(CloseError::NothingToClose));
    assert_eq!(get_closed_stroke(&vec![stroke(&[]), stroke(&[])]).err(), Some(CloseError::NothingToClose));
}

#[test]
fn single_sample_closes_onto_itself() {
    let closed = get_closed_stroke(&vec![stroke(&[(3, 4)])]).unwrap();
    assert_eq!(coords(&closed), vec![(3, 4), (3, 4)]);
}

#[test]
fn short_strokes_fall_back_to_first_and_last() {
    let merged = connect_closed_points(vec![stroke(&[(1, 1)]), stroke(&[(7, 7), (8, 8)]), stroke(&[(3, 3)])]);
    assert_eq!(merged.len(), 2);
    assert_eq!(coords(&merged[0]), vec![(7, 7), (8, 8)]);
    assert_eq!(coords(&merged[1]), vec![(1, 1), (3, 3)]);
}

#[test]
fn stroke_reverse_and_extend() {
    let mut s = stroke(&[(1, 0), (2, 0), (3, 0)]);
    s.reverse();
    assert_eq!(coords(&s), vec![(3, 0), (2, 0), (1, 0)]);
    s.extend(stroke(&[(9, 9)]));
    assert_eq!(coords(&s), vec![(3, 0), (2, 0), (1, 0), (9, 9)]);
    assert_eq!(s.len(), 4);
    assert_eq!(s.index(3).x, 9);
}
