//! Plain geometry values. Every coordinate, radius and width is the bit
//! pattern of an IEEE 754 binary32 number, held in a `u32`: the number as
//! the buffer stores it. Whoever has finer numbers narrows them first, and
//! every bounding box is that of the stored numbers.

use vstd::prelude::*;
use crate::binary32::{greater, greater_of, lesser, lesser_of};
use crate::wire::{holds, le32, le32_at, push_le32, read_le32};

verus! {

/// A point of the plane.
#[derive(Clone, Copy, Debug, PartialEq, Eq, Structural)]
pub struct Point {
    pub x: u32,
    pub y: u32,
}

/// The straight segment from `p0` to `p1`.
#[derive(Clone, Copy, Debug, PartialEq, Eq, Structural)]
pub struct Line {
    pub p0: Point,
    pub p1: Point,
}

/// The circle round `center`.
#[derive(Clone, Copy, Debug, PartialEq, Eq, Structural)]
pub struct Circle {
    pub center: Point,
    pub radius: u32,
}

/// An axis-aligned rectangle, given by its minimum corner `(x0, y0)` and its
/// maximum corner `(x1, y1)`.
#[derive(Clone, Copy, Debug, PartialEq, Eq, Structural)]
pub struct Rect {
    pub x0: u32,
    pub y0: u32,
    pub x1: u32,
    pub y1: u32,
}

/// Bytes that one stored point occupies.
pub const POINT_SIZE: usize = 8;

impl Point {
    /// The point as it stands in a point array: `x`, then `y`, each
    /// little-endian.
    pub open spec fn bytes(self) -> Seq<u8> {
        le32(self.x) + le32(self.y)
    }

    /// Serialises the point.
    pub fn to_bytes(&self) -> (out: Vec<u8>)
        ensures
            out@ == self.bytes(),
            out@.len() == POINT_SIZE,
    {
        let mut out: Vec<u8> = Vec::new();
        push_le32(&mut out, self.x);
        push_le32(&mut out, self.y);
        assert(out@ =~= self.bytes());
        out
    }
}

/// The point array that holds `points` in order, tightly packed.
pub open spec fn points_bytes(points: Seq<Point>) -> Seq<u8>
    decreases points.len(),
{
    if points.len() == 0 {
        Seq::empty()
    } else {
        points_bytes(points.drop_last()) + points.last().bytes()
    }
}

/// A point array has eight bytes for each point.
pub proof fn lemma_points_bytes_len(points: Seq<Point>)
    ensures
        points_bytes(points).len() == points.len() * POINT_SIZE,
    decreases points.len(),
{
    if points.len() > 0 {
        lemma_points_bytes_len(points.drop_last());
    }
}

/// The point that the eight bytes at offset `at` encode, if they lie inside
/// `bytes`.
pub open spec fn point_at(bytes: Seq<u8>, at: int) -> Option<Point> {
    if at < 0 || at + POINT_SIZE > bytes.len() {
        None
    } else {
        Some(Point { x: le32_at(bytes, at), y: le32_at(bytes, at + 4) })
    }
}

/// Decodes the point at offset `at`.
pub fn read_point(buf: &[u8], at: usize) -> (point: Option<Point>)
    ensures
        point == point_at(buf@, at as int),
{
    if buf.len() < POINT_SIZE || at > buf.len() - POINT_SIZE {
        return None;
    }
    Some(Point { x: read_le32(buf, at), y: read_le32(buf, at + 4) })
}

/// A buffer that holds the array of `points` at offset `at` decodes at the
/// place of the `k`-th point to that point.
pub proof fn lemma_points_round_trip(bytes: Seq<u8>, at: int, points: Seq<Point>, k: int)
    requires
        holds(bytes, at, points_bytes(points)),
        0 <= k < points.len(),
    ensures
        point_at(bytes, at + k * POINT_SIZE) == Some(points[k]),
    decreases points.len(),
{
    let head = points.drop_last();
    lemma_points_bytes_len(points);
    lemma_points_bytes_len(head);
    let all = points_bytes(points);
    if k == points.len() - 1 {
        let rec = points[k].bytes();
        let base = at + k * POINT_SIZE;
        assert forall|i: int| 0 <= i < 8 implies #[trigger] bytes[base + i] == rec[i] by {
            assert(bytes[at + (k * POINT_SIZE + i)] == all[k * POINT_SIZE + i]);
        }
        assert(holds(bytes, base + 0, le32(points[k].x))) by {
            assert forall|i: int| 0 <= i < 4 implies #[trigger] bytes[base + 0 + i] == le32(
                points[k].x,
            )[i] by {
                assert(bytes[base + i] == rec[i]);
            }
        }
        assert(holds(bytes, base + 4, le32(points[k].y))) by {
            assert forall|i: int| 0 <= i < 4 implies #[trigger] bytes[base + 4 + i] == le32(
                points[k].y,
            )[i] by {
                assert(bytes[base + (4 + i)] == rec[4 + i]);
            }
        }
        crate::wire::lemma_le32_round_trip(bytes, base, points[k].x);
        crate::wire::lemma_le32_round_trip(bytes, base + 4, points[k].y);
    } else {
        assert forall|i: int| 0 <= i < points_bytes(head).len() implies #[trigger] bytes[at + i]
            == points_bytes(head)[i] by {
            assert(bytes[at + i] == all[i]);
        }
        lemma_points_round_trip(bytes, at, head, k);
    }
}

impl Rect {
    /// The smallest rectangle that holds both points.
    pub open spec fn spanning(p0: Point, p1: Point) -> Rect {
        Rect {
            x0: lesser(p0.x, p1.x),
            y0: lesser(p0.y, p1.y),
            x1: greater(p0.x, p1.x),
            y1: greater(p0.y, p1.y),
        }
    }

    /// The rectangle grown to hold `pt`.
    pub open spec fn with_point(self, pt: Point) -> Rect {
        Rect {
            x0: lesser(self.x0, pt.x),
            y0: lesser(self.y0, pt.y),
            x1: greater(self.x1, pt.x),
            y1: greater(self.y1, pt.y),
        }
    }

    /// The smallest rectangle that holds all of `points`, taken in order.
    pub open spec fn around(points: Seq<Point>) -> Rect
        recommends
            points.len() >= 1,
        decreases points.len(),
    {
        if points.len() <= 1 {
            Rect::spanning(points[0], points[0])
        } else {
            Rect::around(points.drop_last()).with_point(points.last())
        }
    }

    /// The smallest rectangle that holds both points.
    pub fn from_points(p0: Point, p1: Point) -> (r: Rect)
        ensures
            r == Rect::spanning(p0, p1),
    {
        Rect {
            x0: lesser_of(p0.x, p1.x),
            y0: lesser_of(p0.y, p1.y),
            x1: greater_of(p0.x, p1.x),
            y1: greater_of(p0.y, p1.y),
        }
    }

    /// The smallest rectangle that holds all of `points`: the first point's
    /// own rectangle, grown by each further point in turn.
    pub fn bounding(points: &[Point]) -> (r: Rect)
        requires
            points@.len() >= 1,
        ensures
            r == Rect::around(points@),
    {
        let mut rect = Rect::from_points(points[0], points[0]);
        let mut k: usize = 1;
        assert(points@.subrange(0, 1).len() == 1);
        while k < points.len()
            invariant
                1 <= k <= points@.len(),
                rect == Rect::around(points@.subrange(0, k as int)),
            decreases points@.len() - k,
        {
            proof {
                let next = points@.subrange(0, k + 1);
                assert(next.drop_last() =~= points@.subrange(0, k as int));
                assert(next.last() == points@[k as int]);
            }
            rect = rect.union_pt(points[k]);
            k += 1;
        }
        assert(points@.subrange(0, k as int) =~= points@);
        rect
    }

    /// The rectangle grown to hold `pt`.
    pub fn union_pt(&self, pt: Point) -> (r: Rect)
        ensures
            r == self.with_point(pt),
    {
        Rect {
            x0: lesser_of(self.x0, pt.x),
            y0: lesser_of(self.y0, pt.y),
            x1: greater_of(self.x1, pt.x),
            y1: greater_of(self.y1, pt.y),
        }
    }
}

} // verus!
