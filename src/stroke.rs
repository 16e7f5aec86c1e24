use vstd::prelude::*;
use crate::brush::Brush;

verus! {

/// One pointer sample, in whole pixels. `dragging` tells a pointer-down sample
/// from the pointer-up that ends a gesture.
#[derive(Clone, Copy, Debug, PartialEq, Eq, Structural)]
pub struct StrokePoint {
    pub x: i32,
    pub y: i32,
    pub pressure: i32,
    pub tilt_x: i32,
    pub tilt_y: i32,
    pub timestamp: i64,
    pub dragging: bool,
}

/// The samples of one gesture in drawing order, the brush it was drawn with, and
/// whether the gesture has ended.
#[derive(Debug)]
pub struct Stroke {
    pub points: Vec<StrokePoint>,
    pub brush: Brush,
    pub finished: bool,
}

/// The mathematical value of a stroke.
pub struct StrokeView {
    pub points: Seq<StrokePoint>,
    pub brush: Brush,
    pub finished: bool,
}

impl View for Stroke {
    type V = StrokeView;

    open spec fn view(&self) -> StrokeView {
        StrokeView { points: self.points@, brush: self.brush, finished: self.finished }
    }
}

/// The values of a list of strokes.
pub open spec fn stroke_views(s: Seq<Stroke>) -> Seq<StrokeView> {
    s.map_values(|x: Stroke| x@)
}

impl Stroke {
    /// An empty, unfinished stroke drawn with `brush`. `initial_size`, the number
    /// of samples expected, is only a hint and is not relied on.
    pub fn new(initial_size: usize, brush: Brush) -> (s: Stroke)
        ensures
            s@.points == Seq::<StrokePoint>::empty(),
            s@.brush == brush,
            !s@.finished,
    {
        Stroke { points: Vec::new(), brush, finished: false }
    }

    pub fn len(&self) -> (n: usize)
        ensures
            n == self@.points.len(),
    {
        self.points.len()
    }

    pub fn index(&self, i: usize) -> (p: StrokePoint)
        requires
            i < self@.points.len(),
        ensures
            p == self@.points[i as int],
    {
        self.points[i]
    }

    /// Reverses the order of the samples.
    pub fn reverse(&mut self)
        ensures
            final(self)@.points == old(self)@.points.reverse(),
            final(self)@.brush == old(self)@.brush,
            final(self)@.finished == old(self)@.finished,
    {
        let n = self.points.len();
        let mut out: Vec<StrokePoint> = Vec::with_capacity(n);
        let mut i: usize = n;
        while i > 0
            invariant
                i <= n == self.points.len(),
                out@ == self.points@.reverse().subrange(0, (n - i) as int),
            decreases i,
        {
            i = i - 1;
            out.push(self.points[i]);
            assert(out@ =~= self.points@.reverse().subrange(0, (n - i) as int));
        }
        assert(out@ =~= self.points@.reverse());
        self.points = out;
    }

    /// Appends the samples of `rhs` after those of this stroke.
    pub fn extend(&mut self, rhs: Stroke)
        ensures
            final(self)@.points == old(self)@.points + rhs@.points,
            final(self)@.brush == old(self)@.brush,
            final(self)@.finished == old(self)@.finished,
    {
        let mut rest = rhs.points;
        self.points.append(&mut rest);
    }

    pub fn push(&mut self, item: StrokePoint)
        ensures
            final(self)@.points == old(self)@.points.push(item),
            final(self)@.brush == old(self)@.brush,
            final(self)@.finished == old(self)@.finished,
    {
        self.points.push(item);
    }

    /// A stroke with the same samples, brush and state.
    pub fn duplicate(&self) -> (s: Stroke)
        ensures
            s@ == self@,
    {
        let mut points: Vec<StrokePoint> = Vec::with_capacity(self.points.len());
        let mut i: usize = 0;
        while i < self.points.len()
            invariant
                i <= self.points.len(),
                points@ == self.points@.subrange(0, i as int),
            decreases self.points.len() - i,
        {
            points.push(self.points[i]);
            i = i + 1;
            assert(points@ =~= self.points@.subrange(0, i as int));
        }
        assert(points@ =~= self.points@);
        Stroke { points, brush: self.brush, finished: self.finished }
    }
}

} // verus!
