//! The bump-allocating encoder: a write cursor over a borrowed buffer, and
//! the group that is being filled.

use vstd::prelude::*;
use crate::bbox::{bbox_at, ShortBbox, BBOX_SIZE};
use crate::geom::{
    lemma_points_bytes_len, lemma_points_round_trip, point_at, points_bytes, Circle, Line, Point,
    POINT_SIZE,
};
use crate::item::{item_at, Item, ITEM_SIZE};
use crate::protocol::{lemma_addition, Addition};
use crate::wire::{le32, push_le32, splice};

verus! {

broadcast use vstd::slice::group_slice_axioms;

/// Bytes of a group header: the item count, then the offset of the item array.
pub const GROUP_HEADER_SIZE: usize = 8;

/// Largest offset that the format's 32-bit fields can name.
pub const MAX_OFFSET: usize = 0xffff_ffff;

/// Bytes that a group of `n` items reserves: its header, `n` bounding boxes
/// and `n` item slots.
pub open spec fn group_size(n: nat) -> nat {
    GROUP_HEADER_SIZE as nat + n * BBOX_SIZE as nat + n * ITEM_SIZE as nat
}

/// Offset of the `i`-th bounding box of the group that starts at `start`.
pub open spec fn bbox_offset(start: nat, i: nat) -> nat {
    start + GROUP_HEADER_SIZE as nat + i * BBOX_SIZE as nat
}

/// Offset of the item array of the group of `count` items that starts at `start`.
pub open spec fn items_offset(start: nat, count: nat) -> nat {
    start + GROUP_HEADER_SIZE as nat + count * BBOX_SIZE as nat
}

/// Offset of the `i`-th item slot of the group of `count` items that starts
/// at `start`.
pub open spec fn item_offset(start: nat, count: nat, i: nat) -> nat {
    items_offset(start, count) + i * ITEM_SIZE as nat
}

/// The header of a group of `count` items that starts at `start`.
pub open spec fn header_bytes(start: nat, count: nat) -> Seq<u8> {
    le32(count as u32) + le32(items_offset(start, count) as u32)
}

/// Where the encoder stands between two groups, or inside one.
pub ghost enum GroupState {
    /// No group is open. The counters are those of the group that was
    /// closed last, and zero before the first group.
    Closed { last_start: nat, last_count: nat, last_filled: nat },
    /// The group at `start` was opened for `count` items, `filled` of which
    /// are written.
    Open { start: nat, count: nat, filled: nat },
}

/// The encoder as a value: the buffer's contents, the allocation cursor and
/// the group state.
pub ghost struct EncoderState {
    pub bytes: Seq<u8>,
    pub cursor: nat,
    pub group: GroupState,
}

impl EncoderState {
    /// An open group lies wholly below the cursor and inside the buffer, and
    /// holds no more items than it was opened for.
    pub open spec fn wf(self) -> bool {
        match self.group {
            GroupState::Closed { .. } => true,
            GroupState::Open { start, count, filled } => {
                &&& filled <= count
                &&& start + group_size(count) <= self.cursor
                &&& start + group_size(count) <= self.bytes.len()
                &&& start + group_size(count) <= MAX_OFFSET
            },
        }
    }

    /// The state after `size` bytes were taken at the cursor.
    pub open spec fn allocate(self, size: nat) -> EncoderState {
        EncoderState { cursor: self.cursor + size, ..self }
    }

    /// A group of `n` items can be opened: none is open, and its footprint
    /// fits into the buffer and into the format's 32-bit offsets.
    pub open spec fn can_begin(self, n: nat) -> bool {
        &&& self.group is Closed
        &&& self.cursor + group_size(n) <= self.bytes.len()
        &&& self.cursor + group_size(n) <= MAX_OFFSET
    }

    /// The state after a group of `n` items was opened at the cursor.
    pub open spec fn begin(self, n: nat) -> EncoderState {
        EncoderState {
            bytes: splice(self.bytes, self.cursor as int, header_bytes(self.cursor, n)),
            cursor: self.cursor + group_size(n),
            group: GroupState::Open { start: self.cursor, count: n, filled: 0 },
        }
    }

    /// The open group has a free slot.
    pub open spec fn can_add(self) -> bool {
        self.group matches GroupState::Open { filled, count, .. } && filled < count
    }

    /// The state after `item` and its bounding box were written into the
    /// next free slot of the open group.
    pub open spec fn add(self, bbox: ShortBbox, item: Item) -> EncoderState {
        match self.group {
            GroupState::Closed { .. } => self,
            GroupState::Open { start, count, filled } => EncoderState {
                bytes: splice(
                    splice(self.bytes, bbox_offset(start, filled) as int, bbox.bytes()),
                    item_offset(start, count, filled) as int,
                    item.bytes(),
                ),
                cursor: self.cursor,
                group: GroupState::Open { start, count, filled: filled + 1 },
            },
        }
    }

    /// The state after a circle was added to the open group.
    pub open spec fn circle(self, circle: Circle) -> EncoderState {
        self.add(ShortBbox::of_circle(circle), Item::Circle)
    }

    /// The state after a stroked segment was added to the open group.
    pub open spec fn stroke_line(self, line: Line, width: u32, rgba: u32) -> EncoderState {
        self.add(
            ShortBbox::of_stroke(line, width),
            Item::StrokeLine { flags: 0, rgba, width, start: line.p0, end: line.p1 },
        )
    }

    /// A polygon of `n_points` vertices can be added: the open group has a
    /// free slot, there is at least one vertex, and the point array fits at
    /// the cursor, into the buffer and into the format's 32-bit offsets.
    pub open spec fn can_fill(self, n_points: nat) -> bool {
        &&& self.can_add()
        &&& n_points >= 1
        &&& self.cursor + n_points * POINT_SIZE as nat <= self.bytes.len()
        &&& self.cursor + n_points * POINT_SIZE as nat <= MAX_OFFSET
    }

    /// The state after a filled polygon was added: its point array stands
    /// at the old cursor, and its item, which names that array, in the next
    /// free slot of the open group.
    pub open spec fn fill(self, points: Seq<Point>, rgba: u32) -> EncoderState {
        (EncoderState {
            bytes: splice(self.bytes, self.cursor as int, points_bytes(points)),
            cursor: self.cursor + points.len() * POINT_SIZE as nat,
            group: self.group,
        }).add(
            ShortBbox::of_points(points),
            Item::Fill {
                flags: 0,
                rgba,
                n_points: points.len() as u32,
                points_ix: self.cursor as u32,
            },
        )
    }

    /// The open group holds as many items as it was opened for.
    pub open spec fn can_end(self) -> bool {
        self.group matches GroupState::Open { filled, count, .. } && filled == count
    }

    /// The state after the open group was closed.
    pub open spec fn end(self) -> EncoderState {
        match self.group {
            GroupState::Closed { .. } => self,
            GroupState::Open { start, count, filled } => EncoderState {
                group: GroupState::Closed {
                    last_start: start,
                    last_count: count,
                    last_filled: filled,
                },
                ..self
            },
        }
    }
}

/// Writes scene records into a borrowed buffer, front to back.
pub struct Encoder<'a> {
    /// The destination buffer.
    pub buf: &'a mut [u8],
    /// Offset of the first byte that no allocation has taken.
    pub free_space: usize,
    /// Items that the open group was declared with.
    pub group_count: usize,
    /// Items that the open group holds so far.
    pub group_ix: usize,
    /// Offset of the open group's header.
    pub group_start: usize,
    /// Whether a group is open.
    pub group_open: bool,
}

impl<'a> View for Encoder<'a> {
    type V = EncoderState;

    open spec fn view(&self) -> EncoderState {
        EncoderState {
            bytes: self.buf@,
            cursor: self.free_space as nat,
            group: if self.group_open {
                GroupState::Open {
                    start: self.group_start as nat,
                    count: self.group_count as nat,
                    filled: self.group_ix as nat,
                }
            } else {
                GroupState::Closed {
                    last_start: self.group_start as nat,
                    last_count: self.group_count as nat,
                    last_filled: self.group_ix as nat,
                }
            },
        }
    }
}

impl<'a> Encoder<'a> {
    /// An encoder over `buf`, with the cursor at its start and no group open.
    /// What the encoder leaves in its buffer is what `buf` holds afterwards.
    pub fn new(buf: &'a mut [u8]) -> (enc: Encoder<'a>)
        ensures
            enc@ == (EncoderState {
                bytes: old(buf)@,
                cursor: 0,
                group: GroupState::Closed { last_start: 0, last_count: 0, last_filled: 0 },
            }),
            enc.free_space == 0,
            enc.group_count == 0,
            enc.group_ix == 0,
            enc.group_start == 0,
            !enc.group_open,
            enc@.wf(),
            final(enc.buf)@ == final(buf)@,
    {
        Encoder { buf, free_space: 0, group_count: 0, group_ix: 0, group_start: 0, group_open: false }
    }

    /// Takes `size` bytes at the cursor and returns their offset. The buffer's
    /// capacity is not consulted: whoever writes there answers for it.
    pub fn allocate(&mut self, size: usize) -> (offset: usize)
        requires
            old(self).free_space + size <= usize::MAX,
        ensures
            offset == old(self).free_space,
            final(self)@ == old(self)@.allocate(size as nat),
            final(self).group_count == old(self).group_count,
            final(self).group_ix == old(self).group_ix,
            final(self).group_start == old(self).group_start,
            final(self).group_open == old(self).group_open,
            old(self)@.wf() ==> final(self)@.wf(),
            final(final(self).buf)@ == final(old(self).buf)@,
    {
        let result = self.free_space;
        self.free_space += size;
        result
    }

    /// Copies the serialised record `s` to offset `ix` of the buffer.
    pub fn write_struct(&mut self, ix: usize, s: &[u8])
        requires
            ix + s@.len() <= old(self).buf@.len(),
        ensures
            final(self)@ == (EncoderState {
                bytes: splice(old(self)@.bytes, ix as int, s@),
                ..old(self)@
            }),
            final(self).free_space == old(self).free_space,
            final(self).group_count == old(self).group_count,
            final(self).group_ix == old(self).group_ix,
            final(self).group_start == old(self).group_start,
            final(self).group_open == old(self).group_open,
            final(final(self).buf)@ == final(old(self).buf)@,
    {
        let cap = self.buf.len();
        let mut k: usize = 0;
        while k < s.len()
            invariant
                k <= s@.len(),
                cap == self.buf@.len(),
                ix + s@.len() <= self.buf@.len(),
                self.buf@ == splice(old(self).buf@, ix as int, s@.subrange(0, k as int)),
                self.free_space == old(self).free_space,
                self.group_count == old(self).group_count,
                self.group_ix == old(self).group_ix,
                self.group_start == old(self).group_start,
                self.group_open == old(self).group_open,
                final(self.buf)@ == final(old(self).buf)@,
            decreases s@.len() - k,
        {
            self.buf[ix + k] = s[k];
            k += 1;
            assert(self.buf@ =~= splice(old(self).buf@, ix as int, s@.subrange(0, k as int)));
        }
        assert(s@.subrange(0, k as int) =~= s@);
        assert(self.buf@ =~= splice(old(self).buf@, ix as int, s@));
    }

    /// Whether `begin_group(n_items)` may be called now.
    pub fn can_begin_group(&self, n_items: usize) -> (ok: bool)
        ensures
            ok == self@.can_begin(n_items as nat),
    {
        if self.group_open {
            return false;
        }
        let cap = self.buf.len();
        let limit = if cap < MAX_OFFSET {
            cap
        } else {
            MAX_OFFSET
        };
        if self.free_space > limit || limit - self.free_space < GROUP_HEADER_SIZE {
            return false;
        }
        n_items <= (limit - self.free_space - GROUP_HEADER_SIZE) / (BBOX_SIZE + ITEM_SIZE)
    }

    /// Opens a group of `n_items` items: reserves its header, bounding boxes
    /// and item slots in one piece at the cursor, writes the header and
    /// starts counting the items from zero.
    pub fn begin_group(&mut self, n_items: usize)
        requires
            old(self)@.can_begin(n_items as nat),
        ensures
            final(self)@ == old(self)@.begin(n_items as nat),
            final(self)@.wf(),
            final(final(self).buf)@ == final(old(self).buf)@,
    {
        let item_start = GROUP_HEADER_SIZE + n_items * BBOX_SIZE;
        let total_size = item_start + n_items * ITEM_SIZE;
        let start = self.allocate(total_size);
        self.group_start = start;
        self.group_count = n_items;
        self.group_ix = 0;
        self.group_open = true;
        let mut header: Vec<u8> = Vec::new();
        push_le32(&mut header, n_items as u32);
        push_le32(&mut header, (start + item_start) as u32);
        self.write_struct(start, header.as_slice());
    }

    /// Whether the open group has a free slot.
    pub fn can_add_item(&self) -> (ok: bool)
        ensures
            ok == self@.can_add(),
    {
        self.group_open && self.group_ix < self.group_count
    }

    /// Writes `bbox` and `item` into the next free slot of the open group.
    fn add_item(&mut self, item: &Item, bbox: ShortBbox)
        requires
            old(self)@.wf(),
            old(self)@.can_add(),
        ensures
            final(self)@ == old(self)@.add(bbox, *item),
            final(self)@.wf(),
            final(final(self).buf)@ == final(old(self).buf)@,
    {
        let bbox_ix = self.group_start + GROUP_HEADER_SIZE + self.group_ix * BBOX_SIZE;
        let bbox_rec = bbox.to_bytes();
        self.write_struct(bbox_ix, bbox_rec.as_slice());
        let item_ix = self.group_start + GROUP_HEADER_SIZE + self.group_count * BBOX_SIZE
            + self.group_ix * ITEM_SIZE;
        let item_rec = item.to_bytes();
        self.write_struct(item_ix, item_rec.as_slice());
        self.group_ix += 1;
    }

    /// Adds a circle to the open group. The item carries no geometry: the
    /// renderer rebuilds the circle from the bounding box.
    pub fn circle(&mut self, circle: &Circle)
        requires
            old(self)@.wf(),
            old(self)@.can_add(),
        ensures
            final(self)@ == old(self)@.circle(*circle),
            bbox_at(final(self)@.bytes, bbox_offset(old(self)@.group->start, old(self)@.group->filled) as int) == Some(ShortBbox::of_circle(*circle)),
            item_at(
                final(self)@.bytes,
                item_offset(
                    old(self)@.group->start,
                    old(self)@.group->count,
                    old(self)@.group->filled,
                ) as int,
            ) == Some(Item::Circle),
            final(self)@.wf(),
            final(final(self).buf)@ == final(old(self).buf)@,
    {
        proof {
            lemma_addition(old(self)@, Addition::Circle { circle: *circle });
        }
        self.add_item(&Item::Circle, ShortBbox::from_circle(circle));
    }

    /// Adds a segment stroked with `width` in the color `rgba` to the open
    /// group. Its bounding box covers the whole stroke, not only its center
    /// line.
    pub fn stroke_line(&mut self, line: Line, width: u32, rgba: u32)
        requires
            old(self)@.wf(),
            old(self)@.can_add(),
        ensures
            final(self)@ == old(self)@.stroke_line(line, width, rgba),
            bbox_at(final(self)@.bytes, bbox_offset(old(self)@.group->start, old(self)@.group->filled) as int) == Some(ShortBbox::of_stroke(line, width)),
            item_at(
                final(self)@.bytes,
                item_offset(
                    old(self)@.group->start,
                    old(self)@.group->count,
                    old(self)@.group->filled,
                ) as int,
            ) == Some(Item::StrokeLine { flags: 0, rgba, width, start: line.p0, end: line.p1 }),
            final(self)@.wf(),
            final(final(self).buf)@ == final(old(self).buf)@,
    {
        proof {
            lemma_addition(old(self)@, Addition::StrokeLine { line, width, rgba });
        }
        let item = Item::StrokeLine { flags: 0, rgba, width, start: line.p0, end: line.p1 };
        self.add_item(&item, ShortBbox::from_stroke(&line, width));
    }

    /// Copies `points` to the array that starts at offset `at`.
    fn put_points(&mut self, at: usize, points: &[Point])
        requires
            at + points@.len() * POINT_SIZE <= old(self).buf@.len(),
        ensures
            final(self)@ == (EncoderState {
                bytes: splice(old(self)@.bytes, at as int, points_bytes(points@)),
                ..old(self)@
            }),
            final(final(self).buf)@ == final(old(self).buf)@,
    {
        let n = points.len();
        let cap = self.buf.len();
        let ghost before = self.buf@;
        let mut k: usize = 0;
        assert(points@.subrange(0, 0) =~= Seq::empty());
        assert(self.buf@ =~= splice(before, at as int, points_bytes(points@.subrange(0, 0))));
        while k < n
            invariant
                k <= n,
                n == points@.len(),
                cap == self.buf@.len(),
                at + n * POINT_SIZE <= cap,
                self.buf@ == splice(before, at as int, points_bytes(points@.subrange(0, k as int))),
                self@.cursor == old(self)@.cursor,
                self@.group == old(self)@.group,
                final(self.buf)@ == final(old(self).buf)@,
            decreases n - k,
        {
            let rec = points[k].to_bytes();
            proof {
                lemma_points_bytes_len(points@.subrange(0, k as int));
                lemma_points_prefix(points@, k as int);
                lemma_splice_append(
                    before,
                    at as int,
                    points_bytes(points@.subrange(0, k as int)),
                    points@[k as int].bytes(),
                );
            }
            self.write_struct(at + k * POINT_SIZE, rec.as_slice());
            k += 1;
        }
        assert(points@.subrange(0, n as int) =~= points@);
    }

    /// Whether `fill` may be called now with `n_points` points.
    pub fn can_fill(&self, n_points: usize) -> (ok: bool)
        ensures
            ok == self@.can_fill(n_points as nat),
    {
        if !self.can_add_item() || n_points < 1 {
            return false;
        }
        let cap = self.buf.len();
        let limit = if cap < MAX_OFFSET {
            cap
        } else {
            MAX_OFFSET
        };
        self.free_space <= limit && n_points <= (limit - self.free_space) / POINT_SIZE
    }

    /// Adds a polygon filled with the color `rgba` to the open group. The
    /// points go to an array of their own, taken at the cursor; the item
    /// names the array and carries the bounding box of the points.
    pub fn fill(&mut self, points: &[Point], rgba: u32)
        requires
            old(self)@.wf(),
            old(self)@.can_fill(points@.len()),
        ensures
            final(self)@ == old(self)@.fill(points@, rgba),
            bbox_at(final(self)@.bytes, bbox_offset(old(self)@.group->start, old(self)@.group->filled) as int) == Some(ShortBbox::of_points(points@)),
            item_at(
                final(self)@.bytes,
                item_offset(
                    old(self)@.group->start,
                    old(self)@.group->count,
                    old(self)@.group->filled,
                ) as int,
            ) == Some(
                Item::Fill {
                    flags: 0,
                    rgba,
                    n_points: points@.len() as u32,
                    points_ix: old(self).free_space as u32,
                },
            ),
            forall|k: int|
                0 <= k < points@.len() ==> #[trigger] point_at(
                    final(self)@.bytes,
                    old(self).free_space + k * POINT_SIZE,
                ) == Some(points@[k]),
            final(self)@.wf(),
            final(final(self).buf)@ == final(old(self).buf)@,
    {
        proof {
            let before = old(self)@;
            let after = before.fill(points@, rgba);
            lemma_addition(before, Addition::Fill { points: points@, rgba });
            assert forall|k: int| 0 <= k < points@.len() implies #[trigger] point_at(
                after.bytes,
                before.cursor + k * POINT_SIZE,
            ) == Some(points@[k]) by {
                lemma_points_round_trip(after.bytes, before.cursor as int, points@, k);
            }
        }
        let n = points.len();
        let points_ix = self.allocate(n * POINT_SIZE);
        let item = Item::Fill { flags: 0, rgba, n_points: n as u32, points_ix: points_ix as u32 };
        self.put_points(points_ix, points);
        self.add_item(&item, ShortBbox::from_points(points));
    }

    /// Whether the open group holds as many items as it was opened for.
    pub fn can_end_group(&self) -> (ok: bool)
        ensures
            ok == self@.can_end(),
    {
        self.group_open && self.group_ix == self.group_count
    }

    /// Closes the open group, which must be full.
    pub fn end_group(&mut self)
        requires
            old(self)@.can_end(),
        ensures
            final(self)@ == old(self)@.end(),
            final(self).group_count == old(self).group_count,
            final(self).group_ix == old(self).group_ix,
            final(self).group_start == old(self).group_start,
            !final(self).group_open,
            final(self)@.wf(),
            final(final(self).buf)@ == final(old(self).buf)@,
    {
        self.group_open = false;
    }
}

/// Writing one record and then a second right behind it is writing the two
/// as one.
proof fn lemma_splice_append(bytes: Seq<u8>, at: int, first: Seq<u8>, second: Seq<u8>)
    ensures
        splice(splice(bytes, at, first), at + first.len(), second) == splice(
            bytes,
            at,
            first + second,
        ),
{
    assert(splice(splice(bytes, at, first), at + first.len(), second) =~= splice(
        bytes,
        at,
        first + second,
    ));
}

/// What one more point adds to the array of the points before it.
proof fn lemma_points_prefix(points: Seq<Point>, k: int)
    requires
        0 <= k < points.len(),
    ensures
        points_bytes(points.subrange(0, k + 1)) == points_bytes(points.subrange(0, k))
            + points[k].bytes(),
{
    let next = points.subrange(0, k + 1);
    assert(next.drop_last() =~= points.subrange(0, k));
    assert(next.last() == points[k]);
}

} // verus!
