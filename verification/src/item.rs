//! The item records of a group: one closed set of variants that share a
//! fixed-size slot, each with its own field-by-field byte layout.

use vstd::prelude::*;
use crate::geom::Point;
use crate::wire::{be32, be32_at, holds, le32, le32_at, push_be32, push_le32, read_be32, read_le32};

verus! {

/// Bytes that every item slot occupies, whatever the variant stored in it.
pub const ITEM_SIZE: usize = 32;

/// Type tag of a circle.
pub const TAG_CIRCLE: u32 = 1;

/// Type tag of a stroked line.
pub const TAG_LINE: u32 = 2;

/// Type tag of a filled polygon.
pub const TAG_FILL: u32 = 3;

/// One encoded primitive. Colors are `0xRRGGBBAA`; `width` and the point
/// coordinates are binary32 bit patterns.
#[derive(Clone, Copy, Debug, PartialEq, Eq, Structural)]
pub enum Item {
    /// A circle; the renderer rebuilds it from the item's bounding box.
    Circle,
    /// A line segment stroked with the given width.
    StrokeLine { flags: u32, rgba: u32, width: u32, start: Point, end: Point },
    /// A polygon whose `n_points` vertices stand at byte offset `points_ix`.
    Fill { flags: u32, rgba: u32, n_points: u32, points_ix: u32 },
}

impl Item {
    /// The type tag that opens the record.
    pub open spec fn tag(self) -> u32 {
        match self {
            Item::Circle => TAG_CIRCLE,
            Item::StrokeLine { .. } => TAG_LINE,
            Item::Fill { .. } => TAG_FILL,
        }
    }

    /// The record as it stands in the buffer: the tag, then the variant's
    /// fields in declaration order, each little-endian but for the color,
    /// which is big-endian.
    pub open spec fn bytes(self) -> Seq<u8> {
        match self {
            Item::Circle => le32(TAG_CIRCLE),
            Item::StrokeLine { flags, rgba, width, start, end } => le32(TAG_LINE) + le32(flags)
                + be32(rgba) + le32(width) + le32(start.x) + le32(start.y) + le32(end.x) + le32(
                end.y,
            ),
            Item::Fill { flags, rgba, n_points, points_ix } => le32(TAG_FILL) + le32(flags) + be32(
                rgba,
            ) + le32(n_points) + le32(points_ix),
        }
    }

    /// Serialises the record.
    pub fn to_bytes(&self) -> (out: Vec<u8>)
        ensures
            out@ == self.bytes(),
            out@.len() <= ITEM_SIZE,
    {
        let mut out: Vec<u8> = Vec::new();
        match *self {
            Item::Circle => {
                push_le32(&mut out, TAG_CIRCLE);
                assert(out@ =~= self.bytes());
            },
            Item::StrokeLine { flags, rgba, width, start, end } => {
                push_le32(&mut out, TAG_LINE);
                push_le32(&mut out, flags);
                push_be32(&mut out, rgba);
                push_le32(&mut out, width);
                push_le32(&mut out, start.x);
                push_le32(&mut out, start.y);
                push_le32(&mut out, end.x);
                push_le32(&mut out, end.y);
                assert(out@ =~= self.bytes());
            },
            Item::Fill { flags, rgba, n_points, points_ix } => {
                push_le32(&mut out, TAG_FILL);
                push_le32(&mut out, flags);
                push_be32(&mut out, rgba);
                push_le32(&mut out, n_points);
                push_le32(&mut out, points_ix);
                assert(out@ =~= self.bytes());
            },
        }
        out
    }
}

/// The item that the slot at offset `at` encodes, if the slot lies inside
/// `bytes` and opens with a known tag.
pub open spec fn item_at(bytes: Seq<u8>, at: int) -> Option<Item> {
    if at < 0 || at + ITEM_SIZE > bytes.len() {
        None
    } else if le32_at(bytes, at) == TAG_CIRCLE {
        Some(Item::Circle)
    } else if le32_at(bytes, at) == TAG_LINE {
        Some(
            Item::StrokeLine {
                flags: le32_at(bytes, at + 4),
                rgba: be32_at(bytes, at + 8),
                width: le32_at(bytes, at + 12),
                start: Point { x: le32_at(bytes, at + 16), y: le32_at(bytes, at + 20) },
                end: Point { x: le32_at(bytes, at + 24), y: le32_at(bytes, at + 28) },
            },
        )
    } else if le32_at(bytes, at) == TAG_FILL {
        Some(
            Item::Fill {
                flags: le32_at(bytes, at + 4),
                rgba: be32_at(bytes, at + 8),
                n_points: le32_at(bytes, at + 12),
                points_ix: le32_at(bytes, at + 16),
            },
        )
    } else {
        None
    }
}

/// Decodes the item slot at offset `at`.
pub fn read_item(buf: &[u8], at: usize) -> (item: Option<Item>)
    ensures
        item == item_at(buf@, at as int),
{
    if buf.len() < ITEM_SIZE || at > buf.len() - ITEM_SIZE {
        return None;
    }
    let tag = read_le32(buf, at);
    if tag == TAG_CIRCLE {
        Some(Item::Circle)
    } else if tag == TAG_LINE {
        Some(
            Item::StrokeLine {
                flags: read_le32(buf, at + 4),
                rgba: read_be32(buf, at + 8),
                width: read_le32(buf, at + 12),
                start: Point { x: read_le32(buf, at + 16), y: read_le32(buf, at + 20) },
                end: Point { x: read_le32(buf, at + 24), y: read_le32(buf, at + 28) },
            },
        )
    } else if tag == TAG_FILL {
        Some(
            Item::Fill {
                flags: read_le32(buf, at + 4),
                rgba: read_be32(buf, at + 8),
                n_points: read_le32(buf, at + 12),
                points_ix: read_le32(buf, at + 16),
            },
        )
    } else {
        None
    }
}

/// A slot that holds the bytes of `item` decodes to `item`.
pub proof fn lemma_item_round_trip(bytes: Seq<u8>, at: int, item: Item)
    requires
        holds(bytes, at, item.bytes()),
        at + ITEM_SIZE <= bytes.len(),
    ensures
        item_at(bytes, at) == Some(item),
{
    let rec = item.bytes();
    assert forall|k: int| 0 <= k < rec.len() implies bytes[at + k] == rec[k] by {}
    match item {
        Item::Circle => {
            lemma_field(bytes, at, rec, 0, le32(TAG_CIRCLE));
            crate::wire::lemma_le32_round_trip(bytes, at, TAG_CIRCLE);
        },
        Item::StrokeLine { flags, rgba, width, start, end } => {
            lemma_field(bytes, at, rec, 0, le32(TAG_LINE));
            lemma_field(bytes, at, rec, 4, le32(flags));
            lemma_field(bytes, at, rec, 8, be32(rgba));
            lemma_field(bytes, at, rec, 12, le32(width));
            lemma_field(bytes, at, rec, 16, le32(start.x));
            lemma_field(bytes, at, rec, 20, le32(start.y));
            lemma_field(bytes, at, rec, 24, le32(end.x));
            lemma_field(bytes, at, rec, 28, le32(end.y));
            crate::wire::lemma_le32_round_trip(bytes, at, TAG_LINE);
            crate::wire::lemma_le32_round_trip(bytes, at + 4, flags);
            crate::wire::lemma_be32_round_trip(bytes, at + 8, rgba);
            crate::wire::lemma_le32_round_trip(bytes, at + 12, width);
            crate::wire::lemma_le32_round_trip(bytes, at + 16, start.x);
            crate::wire::lemma_le32_round_trip(bytes, at + 20, start.y);
            crate::wire::lemma_le32_round_trip(bytes, at + 24, end.x);
            crate::wire::lemma_le32_round_trip(bytes, at + 28, end.y);
        },
        Item::Fill { flags, rgba, n_points, points_ix } => {
            lemma_field(bytes, at, rec, 0, le32(TAG_FILL));
            lemma_field(bytes, at, rec, 4, le32(flags));
            lemma_field(bytes, at, rec, 8, be32(rgba));
            lemma_field(bytes, at, rec, 12, le32(n_points));
            lemma_field(bytes, at, rec, 16, le32(points_ix));
            crate::wire::lemma_le32_round_trip(bytes, at, TAG_FILL);
            crate::wire::lemma_le32_round_trip(bytes, at + 4, flags);
            crate::wire::lemma_be32_round_trip(bytes, at + 8, rgba);
            crate::wire::lemma_le32_round_trip(bytes, at + 12, n_points);
            crate::wire::lemma_le32_round_trip(bytes, at + 16, points_ix);
        },
    }
}

/// A field that stands at offset `off` of a record stands at `at + off` of
/// a buffer that holds the record at `at`.
proof fn lemma_field(bytes: Seq<u8>, at: int, rec: Seq<u8>, off: int, field: Seq<u8>)
    requires
        holds(bytes, at, rec),
        0 <= off,
        off + field.len() <= rec.len(),
        forall|k: int| 0 <= k < field.len() ==> rec[off + k] == field[k],
    ensures
        holds(bytes, at + off, field),
{
    assert forall|k: int| 0 <= k < field.len() implies #[trigger] bytes[at + off + k] == field[k] by {
        assert(bytes[at + (off + k)] == rec[off + k]);
    }
}

} // verus!
