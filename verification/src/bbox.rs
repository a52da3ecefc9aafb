//! Quantized bounding boxes: four unsigned 16-bit bounds per item, which the
//! renderer tests before it reads the item itself. A box is taken from the
//! binary32 numbers that the buffer stores, with exact arithmetic: it is the
//! smallest box of whole units that holds the stored shape.

use vstd::prelude::*;
use crate::binary32::{
    ceil_of, ceil_sum, decode, decode_half, floor_of, floor_sum, half, magnitude, magnitude_of,
    number,
};
use crate::geom::{Circle, Line, Point, Rect};
use crate::wire::{holds, le16, le16_at, push_le16, read_le16};

verus! {

/// Bytes that one quantized bounding box occupies.
pub const BBOX_SIZE: usize = 8;

/// A bounding box in whole units, saturated to `0 ..= 65535`.
#[derive(Clone, Copy, Debug, PartialEq, Eq, Structural)]
pub struct ShortBbox {
    pub x0: u16,
    pub y0: u16,
    pub x1: u16,
    pub y1: u16,
}

impl ShortBbox {
    /// The box as it stands in the buffer: min-x, min-y, max-x, max-y, each
    /// little-endian.
    pub open spec fn bytes(self) -> Seq<u8> {
        le16(self.x0) + le16(self.y0) + le16(self.x1) + le16(self.y1)
    }

    /// The box of a rectangle: the minimum corner rounded down, the maximum
    /// corner rounded up, each saturated to `0 ..= 65535`.
    pub open spec fn of_rect(rect: Rect) -> ShortBbox {
        ShortBbox {
            x0: number(rect.x0).floor_clamped(),
            y0: number(rect.y0).floor_clamped(),
            x1: number(rect.x1).ceil_clamped(),
            y1: number(rect.y1).ceil_clamped(),
        }
    }

    /// The box of a circle: the center less and plus the absolute radius.
    #[verifier::opaque]
    pub open spec fn of_circle(circle: Circle) -> ShortBbox {
        let r = number(magnitude(circle.radius));
        ShortBbox {
            x0: number(circle.center.x).minus(r).floor_clamped(),
            y0: number(circle.center.y).minus(r).floor_clamped(),
            x1: number(circle.center.x).plus(r).ceil_clamped(),
            y1: number(circle.center.y).plus(r).ceil_clamped(),
        }
    }

    /// The box of a stroked segment: the rectangle that spans its end points,
    /// grown by half the stroke width on every side.
    #[verifier::opaque]
    pub open spec fn of_stroke(line: Line, width: u32) -> ShortBbox {
        let rect = Rect::spanning(line.p0, line.p1);
        let h = half(width);
        ShortBbox {
            x0: number(rect.x0).minus(h).floor_clamped(),
            y0: number(rect.y0).minus(h).floor_clamped(),
            x1: number(rect.x1).plus(h).ceil_clamped(),
            y1: number(rect.y1).plus(h).ceil_clamped(),
        }
    }

    /// The box of a polygon: that of the rectangle round its points.
    #[verifier::opaque]
    pub open spec fn of_points(points: Seq<Point>) -> ShortBbox {
        ShortBbox::of_rect(Rect::around(points))
    }

    /// The quantized bounding box of a polygon's points.
    pub fn from_points(points: &[Point]) -> (bbox: ShortBbox)
        requires
            points@.len() >= 1,
        ensures
            bbox == ShortBbox::of_points(points@),
    {
        reveal(ShortBbox::of_points);
        ShortBbox::from_rect(Rect::bounding(points))
    }

    /// Quantizes a rectangle.
    pub fn from_rect(rect: Rect) -> (bbox: ShortBbox)
        ensures
            bbox == ShortBbox::of_rect(rect),
    {
        ShortBbox {
            x0: floor_of(decode(rect.x0)),
            y0: floor_of(decode(rect.y0)),
            x1: ceil_of(decode(rect.x1)),
            y1: ceil_of(decode(rect.y1)),
        }
    }

    /// The quantized bounding box of a circle.
    pub fn from_circle(circle: &Circle) -> (bbox: ShortBbox)
        ensures
            bbox == ShortBbox::of_circle(*circle),
    {
        reveal(ShortBbox::of_circle);
        let r = decode(magnitude_of(circle.radius));
        let x = decode(circle.center.x);
        let y = decode(circle.center.y);
        ShortBbox {
            x0: floor_sum(x, r.negated()),
            y0: floor_sum(y, r.negated()),
            x1: ceil_sum(x, r),
            y1: ceil_sum(y, r),
        }
    }

    /// The quantized bounding box of a segment stroked with `width`.
    pub fn from_stroke(line: &Line, width: u32) -> (bbox: ShortBbox)
        ensures
            bbox == ShortBbox::of_stroke(*line, width),
    {
        reveal(ShortBbox::of_stroke);
        let rect = Rect::from_points(line.p0, line.p1);
        let h = decode_half(width);
        ShortBbox {
            x0: floor_sum(decode(rect.x0), h.negated()),
            y0: floor_sum(decode(rect.y0), h.negated()),
            x1: ceil_sum(decode(rect.x1), h),
            y1: ceil_sum(decode(rect.y1), h),
        }
    }

    /// Serialises the box.
    pub fn to_bytes(&self) -> (out: Vec<u8>)
        ensures
            out@ == self.bytes(),
            out@.len() == BBOX_SIZE,
    {
        let mut out: Vec<u8> = Vec::new();
        push_le16(&mut out, self.x0);
        push_le16(&mut out, self.y0);
        push_le16(&mut out, self.x1);
        push_le16(&mut out, self.y1);
        assert(out@ =~= self.bytes());
        out
    }
}

/// The box that the eight bytes at offset `at` encode, if they lie inside
/// `bytes`.
pub open spec fn bbox_at(bytes: Seq<u8>, at: int) -> Option<ShortBbox> {
    if at < 0 || at + BBOX_SIZE > bytes.len() {
        None
    } else {
        Some(
            ShortBbox {
                x0: le16_at(bytes, at),
                y0: le16_at(bytes, at + 2),
                x1: le16_at(bytes, at + 4),
                y1: le16_at(bytes, at + 6),
            },
        )
    }
}

/// Decodes the bounding box at offset `at`.
pub fn read_bbox(buf: &[u8], at: usize) -> (bbox: Option<ShortBbox>)
    ensures
        bbox == bbox_at(buf@, at as int),
{
    if buf.len() < BBOX_SIZE || at > buf.len() - BBOX_SIZE {
        return None;
    }
    Some(
        ShortBbox {
            x0: read_le16(buf, at),
            y0: read_le16(buf, at + 2),
            x1: read_le16(buf, at + 4),
            y1: read_le16(buf, at + 6),
        },
    )
}

/// Bytes that hold a box decode to that box.
pub proof fn lemma_bbox_round_trip(bytes: Seq<u8>, at: int, bbox: ShortBbox)
    requires
        holds(bytes, at, bbox.bytes()),
    ensures
        bbox_at(bytes, at) == Some(bbox),
{
    let rec = bbox.bytes();
    assert forall|off: int, field: Seq<u8>|
        0 <= off && off + field.len() <= rec.len() && (forall|k: int|
            0 <= k < field.len() ==> rec[off + k] == field[k]) implies #[trigger] holds(
        bytes,
        at + off,
        field,
    ) by {
        assert forall|k: int| 0 <= k < field.len() implies #[trigger] bytes[at + off + k]
            == field[k] by {
            assert(bytes[at + (off + k)] == rec[off + k]);
        }
    }
    assert(holds(bytes, at + 0, le16(bbox.x0)));
    assert(holds(bytes, at + 2, le16(bbox.y0)));
    assert(holds(bytes, at + 4, le16(bbox.x1)));
    assert(holds(bytes, at + 6, le16(bbox.y1)));
    crate::wire::lemma_le16_round_trip(bytes, at, bbox.x0);
    crate::wire::lemma_le16_round_trip(bytes, at + 2, bbox.y0);
    crate::wire::lemma_le16_round_trip(bytes, at + 4, bbox.x1);
    crate::wire::lemma_le16_round_trip(bytes, at + 6, bbox.y1);
}

} // verus!
