//! Points, bounding boxes and lines on the integer grid.

use vstd::prelude::*;

verus! {

/// A position in the plane, in whole coordinate units.
#[derive(Clone, Copy, Debug, PartialEq, Eq, Structural)]
pub struct Coord {
    pub x: i32,
    pub y: i32,
}

/// An axis-aligned bounding box.
#[derive(Clone, Copy, Debug, PartialEq, Eq, Structural)]
pub struct Envelope {
    pub min_x: i64,
    pub min_y: i64,
    pub max_x: i64,
    pub max_y: i64,
}

/// The smaller of two integers.
pub open spec fn min_int(a: int, b: int) -> int {
    if a <= b { a } else { b }
}

/// The larger of two integers.
pub open spec fn max_int(a: int, b: int) -> int {
    if a >= b { a } else { b }
}

/// The smallest box around a nonempty sequence of points.
pub open spec fn envelope_of(points: Seq<Coord>) -> Envelope
    decreases points.len(),
{
    if points.len() <= 1 {
        Envelope {
            min_x: points[0].x as i64,
            min_y: points[0].y as i64,
            max_x: points[0].x as i64,
            max_y: points[0].y as i64,
        }
    } else {
        let rest = envelope_of(points.drop_last());
        let p = points.last();
        Envelope {
            min_x: min_int(rest.min_x as int, p.x as int) as i64,
            min_y: min_int(rest.min_y as int, p.y as int) as i64,
            max_x: max_int(rest.max_x as int, p.x as int) as i64,
            max_y: max_int(rest.max_y as int, p.y as int) as i64,
        }
    }
}

impl Envelope {
    /// The lower corner is not beyond the upper corner.
    pub open spec fn wf(self) -> bool {
        self.min_x <= self.max_x && self.min_y <= self.max_y
    }

    /// The two boxes share at least one position; touching counts.
    pub open spec fn intersects(self, other: Envelope) -> bool {
        &&& self.min_x <= other.max_x
        &&& self.max_x >= other.min_x
        &&& self.min_y <= other.max_y
        &&& self.max_y >= other.min_y
    }

    /// All four bounds are coordinates that a `Coord` can hold.
    pub open spec fn in_coord_range(self) -> bool {
        &&& i32::MIN <= self.min_x <= i32::MAX
        &&& i32::MIN <= self.min_y <= i32::MAX
        &&& i32::MIN <= self.max_x <= i32::MAX
        &&& i32::MIN <= self.max_y <= i32::MAX
    }

    /// This box grown by `buffer` on all four sides.
    pub open spec fn buffered(self, buffer: nat) -> Envelope {
        Envelope {
            min_x: (self.min_x - buffer) as i64,
            min_y: (self.min_y - buffer) as i64,
            max_x: (self.max_x + buffer) as i64,
            max_y: (self.max_y + buffer) as i64,
        }
    }

    /// Whether the two boxes share at least one position.
    pub fn overlaps(&self, other: &Envelope) -> (r: bool)
        ensures
            r == self.intersects(*other),
    {
        self.min_x <= other.max_x && self.max_x >= other.min_x && self.min_y <= other.max_y
            && self.max_y >= other.min_y
    }
}

/// Grows a box by `buffer` on all four sides.
pub fn buffer_aabb(aabb: Envelope, buffer: u32) -> (r: Envelope)
    requires
        aabb.in_coord_range(),
    ensures
        r == aabb.buffered(buffer as nat),
        r.min_x == aabb.min_x - buffer,
        r.min_y == aabb.min_y - buffer,
        r.max_x == aabb.max_x + buffer,
        r.max_y == aabb.max_y + buffer,
        aabb.wf() ==> r.wf(),
{
    let b: i64 = buffer as i64;
    Envelope {
        min_x: aabb.min_x - b,
        min_y: aabb.min_y - b,
        max_x: aabb.max_x + b,
        max_y: aabb.max_y + b,
    }
}

/// The box around a nonempty sequence of points is well formed, holds every
/// point of the sequence, and has bounds that a point's coordinates can hold.
pub proof fn lemma_envelope_of(points: Seq<Coord>)
    requires
        points.len() >= 1,
    ensures
        envelope_of(points).wf(),
        envelope_of(points).in_coord_range(),
        forall|i: int|
            0 <= i < points.len() ==> {
                &&& envelope_of(points).min_x <= (#[trigger] points[i]).x <= envelope_of(points).max_x
                &&& envelope_of(points).min_y <= points[i].y <= envelope_of(points).max_y
            },
    decreases points.len(),
{
    if points.len() > 1 {
        let front = points.drop_last();
        lemma_envelope_of(front);
        assert forall|i: int| 0 <= i < points.len() implies {
            &&& envelope_of(points).min_x <= (#[trigger] points[i]).x <= envelope_of(points).max_x
            &&& envelope_of(points).min_y <= points[i].y <= envelope_of(points).max_y
        } by {
            if i < points.len() - 1 {
                assert(front[i] == points[i]);
            }
        }
    }
}

/// The box around a nonempty sequence of points is no larger than it must
/// be: on each of its four sides lies a point of the sequence.
pub proof fn lemma_envelope_is_tight(points: Seq<Coord>)
    requires
        points.len() >= 1,
    ensures
        exists|i: int| 0 <= i < points.len() && (#[trigger] points[i]).x == envelope_of(points).min_x,
        exists|i: int| 0 <= i < points.len() && (#[trigger] points[i]).y == envelope_of(points).min_y,
        exists|i: int| 0 <= i < points.len() && (#[trigger] points[i]).x == envelope_of(points).max_x,
        exists|i: int| 0 <= i < points.len() && (#[trigger] points[i]).y == envelope_of(points).max_y,
    decreases points.len(),
{
    let e = envelope_of(points);
    let last = points.len() - 1;
    if points.len() > 1 {
        let front = points.drop_last();
        lemma_envelope_is_tight(front);
        lemma_envelope_of(front);
        let f = envelope_of(front);
        let a = choose|i: int| 0 <= i < front.len() && (#[trigger] front[i]).x == f.min_x;
        let b = choose|i: int| 0 <= i < front.len() && (#[trigger] front[i]).y == f.min_y;
        let c = choose|i: int| 0 <= i < front.len() && (#[trigger] front[i]).x == f.max_x;
        let d = choose|i: int| 0 <= i < front.len() && (#[trigger] front[i]).y == f.max_y;
        assert(points[a] == front[a] && points[b] == front[b] && points[c] == front[c] && points[d]
            == front[d]);
        assert(points[if e.min_x == f.min_x { a } else { last }].x == e.min_x);
        assert(points[if e.min_y == f.min_y { b } else { last }].y == e.min_y);
        assert(points[if e.max_x == f.max_x { c } else { last }].x == e.max_x);
        assert(points[if e.max_y == f.max_y { d } else { last }].y == e.max_y);
    } else {
        assert(points[0].x == e.min_x && points[0].y == e.min_y);
    }
}

/// A line: an ordered sequence of at least two points.
pub struct Line {
    points: Vec<Coord>,
}

impl View for Line {
    type V = Seq<Coord>;

    closed spec fn view(&self) -> Seq<Coord> {
        self.points@
    }
}

impl Clone for Line {
    fn clone(&self) -> (r: Line)
        ensures
            r@ == self@,
    {
        proof {
            use_type_invariant(self);
        }
        let mut points: Vec<Coord> = Vec::new();
        let mut i: usize = 0;
        while i < self.points.len()
            invariant
                i <= self.points@.len(),
                points@ == self.points@.take(i as int),
            decreases self.points@.len() - i,
        {
            points.push(self.points[i]);
            assert(points@ == self.points@.take(i + 1));
            i = i + 1;
        }
        assert(points@ == self.points@);
        Line { points }
    }
}

impl Line {
    #[verifier::type_invariant]
    spec fn inv(self) -> bool {
        self.points@.len() >= 2
    }

    /// The box around the line's points.
    pub open spec fn bounds(self) -> Envelope {
        envelope_of(self@)
    }

    /// Makes a line of the given points, if there are at least two.
    pub fn new(points: Vec<Coord>) -> (r: Option<Line>)
        ensures
            r is Some <==> points@.len() >= 2,
            r is Some ==> r.unwrap()@ == points@,
    {
        if points.len() >= 2 {
            Some(Line { points })
        } else {
            None
        }
    }

    /// The line's points, in order.
    pub fn points(&self) -> (r: &Vec<Coord>)
        ensures
            r@ == self@,
            r@.len() >= 2,
    {
        proof {
            use_type_invariant(self);
        }
        &self.points
    }

    /// The first point.
    pub fn first(&self) -> (r: Coord)
        ensures
            self@.len() >= 2,
            r == self@.first(),
    {
        proof {
            use_type_invariant(self);
        }
        self.points[0]
    }

    /// The last point.
    pub fn last(&self) -> (r: Coord)
        ensures
            self@.len() >= 2,
            r == self@.last(),
    {
        proof {
            use_type_invariant(self);
        }
        self.points[self.points.len() - 1]
    }

    /// The smallest box that holds every point of the line.
    pub fn envelope(&self) -> (r: Envelope)
        ensures
            self@.len() >= 2,
            r == self.bounds(),
            r.wf(),
            r.in_coord_range(),
    {
        proof {
            use_type_invariant(self);
        }
        let start = self.points[0];
        let mut r = Envelope {
            min_x: start.x as i64,
            min_y: start.y as i64,
            max_x: start.x as i64,
            max_y: start.y as i64,
        };
        assert(self.points@.take(1).len() == 1);
        let mut i: usize = 1;
        while i < self.points.len()
            invariant
                1 <= i <= self.points@.len(),
                r == envelope_of(self.points@.take(i as int)),
            decreases self.points@.len() - i,
        {
            let p = self.points[i];
            proof {
                let upto = self.points@.take(i + 1);
                assert(upto.drop_last() == self.points@.take(i as int));
                assert(upto.last() == p);
                lemma_envelope_of(self.points@.take(i as int));
            }
            if (p.x as i64) < r.min_x {
                r.min_x = p.x as i64;
            }
            if (p.y as i64) < r.min_y {
                r.min_y = p.y as i64;
            }
            if (p.x as i64) > r.max_x {
                r.max_x = p.x as i64;
            }
            if (p.y as i64) > r.max_y {
                r.max_y = p.y as i64;
            }
            i = i + 1;
        }
        proof {
            assert(self.points@.take(i as int) == self.points@);
            lemma_envelope_of(self.points@);
        }
        r
    }
}

} // verus!
