//! What a reader of the buffer can rely on: how many items a group takes
//! before it can be closed, and that every record which was written is read
//! back unchanged.

use vstd::prelude::*;
use crate::bbox::{bbox_at, lemma_bbox_round_trip, ShortBbox, BBOX_SIZE};
use crate::encoder::{
    bbox_offset, group_size, header_bytes, item_offset, items_offset, EncoderState, GroupState,
    GROUP_HEADER_SIZE, MAX_OFFSET,
};
use crate::geom::{
    lemma_points_bytes_len, lemma_points_round_trip, point_at, points_bytes, Circle, Line, Point,
    POINT_SIZE,
};
use crate::item::{item_at, lemma_item_round_trip, Item, ITEM_SIZE};
use crate::wire::{holds, le32, le32_at, lemma_le32_round_trip, lemma_splice_holds, splice};

verus! {

/// One item handed to the encoder.
pub ghost enum Addition {
    Circle { circle: Circle },
    StrokeLine { line: Line, width: u32, rgba: u32 },
    Fill { points: Seq<Point>, rgba: u32 },
}

impl Addition {
    /// The bounding box that is written for the addition.
    pub open spec fn bbox(self) -> ShortBbox {
        match self {
            Addition::Circle { circle } => ShortBbox::of_circle(circle),
            Addition::StrokeLine { line, width, .. } => ShortBbox::of_stroke(line, width),
            Addition::Fill { points, .. } => ShortBbox::of_points(points),
        }
    }
}

impl EncoderState {
    /// Whether the encoder accepts the addition in this state.
    pub open spec fn admits(self, a: Addition) -> bool {
        match a {
            Addition::Circle { .. } => self.can_add(),
            Addition::StrokeLine { .. } => self.can_add(),
            Addition::Fill { points, .. } => self.can_fill(points.len()),
        }
    }

    /// The item record that is written for the addition in this state.
    pub open spec fn item_of(self, a: Addition) -> Item {
        match a {
            Addition::Circle { .. } => Item::Circle,
            Addition::StrokeLine { line, width, rgba } => Item::StrokeLine {
                flags: 0,
                rgba,
                width,
                start: line.p0,
                end: line.p1,
            },
            Addition::Fill { points, rgba } => Item::Fill {
                flags: 0,
                rgba,
                n_points: points.len() as u32,
                points_ix: self.cursor as u32,
            },
        }
    }

    /// The state after the addition.
    pub open spec fn apply(self, a: Addition) -> EncoderState {
        match a {
            Addition::Circle { circle } => self.circle(circle),
            Addition::StrokeLine { line, width, rgba } => self.stroke_line(line, width, rgba),
            Addition::Fill { points, rgba } => self.fill(points, rgba),
        }
    }

    /// Whether the encoder accepts the additions one after the other.
    pub open spec fn admits_all(self, adds: Seq<Addition>) -> bool
        decreases adds.len(),
    {
        adds.len() == 0 || (self.admits_all(adds.drop_last()) && self.apply_all(
            adds.drop_last(),
        ).admits(adds.last()))
    }

    /// The state after the additions, made one after the other.
    pub open spec fn apply_all(self, adds: Seq<Addition>) -> EncoderState
        decreases adds.len(),
    {
        if adds.len() == 0 {
            self
        } else {
            self.apply_all(adds.drop_last()).apply(adds.last())
        }
    }
}

/// Whether offset `p` lies in the `len` bytes from `at`.
pub open spec fn within(p: int, at: int, len: int) -> bool {
    at <= p < at + len
}

/// Opening a group writes its header at the cursor and nothing else: the
/// header reads back as the item count and the offset of the item array.
pub proof fn lemma_begin(s: EncoderState, n: nat)
    requires
        s.can_begin(n),
    ensures
        s.begin(n).wf(),
        s.begin(n).bytes.len() == s.bytes.len(),
        le32_at(s.begin(n).bytes, s.cursor as int) == n,
        le32_at(s.begin(n).bytes, (s.cursor + 4) as int) == items_offset(s.cursor, n),
        forall|p: int|
            0 <= p < s.bytes.len() && !within(p, s.cursor as int, GROUP_HEADER_SIZE as int)
                ==> #[trigger] s.begin(n).bytes[p] == s.bytes[p],
{
    let t = s.begin(n);
    let header = header_bytes(s.cursor, n);
    lemma_splice_holds(s.bytes, s.cursor as int, header);
    assert(holds(t.bytes, s.cursor as int, header));
    assert(holds(t.bytes, s.cursor as int, le32(n as u32))) by {
        assert forall|k: int| 0 <= k < 4 implies #[trigger] t.bytes[s.cursor + k] == le32(
            n as u32,
        )[k] by {
            assert(header[k] == le32(n as u32)[k]);
        }
    }
    assert(holds(t.bytes, (s.cursor + 4) as int, le32(items_offset(s.cursor, n) as u32))) by {
        assert forall|k: int| 0 <= k < 4 implies #[trigger] t.bytes[s.cursor + 4 + k] == le32(
            items_offset(s.cursor, n) as u32,
        )[k] by {
            assert(t.bytes[s.cursor + (4 + k)] == header[4 + k]);
        }
    }
    lemma_le32_round_trip(t.bytes, s.cursor as int, n as u32);
    lemma_le32_round_trip(t.bytes, (s.cursor + 4) as int, items_offset(s.cursor, n) as u32);
}

/// Writing a bounding box and an item into the next free slot changes that
/// slot alone, and both read back as they were written.
proof fn lemma_add(s: EncoderState, bbox: ShortBbox, item: Item)
    requires
        s.wf(),
        s.can_add(),
    ensures
        s.add(bbox, item).wf(),
        s.add(bbox, item).bytes.len() == s.bytes.len(),
        s.add(bbox, item).cursor == s.cursor,
        s.add(bbox, item).group == (GroupState::Open {
            start: s.group->start,
            count: s.group->count,
            filled: s.group->filled + 1,
        }),
        bbox_at(s.add(bbox, item).bytes, bbox_offset(s.group->start, s.group->filled) as int)
            == Some(bbox),
        item_at(
            s.add(bbox, item).bytes,
            item_offset(s.group->start, s.group->count, s.group->filled) as int,
        ) == Some(item),
        forall|p: int|
            0 <= p < s.bytes.len() && !within(
                p,
                bbox_offset(s.group->start, s.group->filled) as int,
                BBOX_SIZE as int,
            ) && !within(
                p,
                item_offset(s.group->start, s.group->count, s.group->filled) as int,
                ITEM_SIZE as int,
            ) ==> #[trigger] s.add(bbox, item).bytes[p] == s.bytes[p],
{
    let t = s.add(bbox, item);
    let bo = bbox_offset(s.group->start, s.group->filled) as int;
    let io = item_offset(s.group->start, s.group->count, s.group->filled) as int;
    assert(item.bytes().len() <= ITEM_SIZE);
    assert(bbox.bytes().len() == BBOX_SIZE);
    let mid = splice(s.bytes, bo, bbox.bytes());
    assert(t.bytes == splice(mid, io, item.bytes()));
    lemma_splice_holds(s.bytes, bo, bbox.bytes());
    lemma_splice_holds(mid, io, item.bytes());
    assert(holds(t.bytes, bo, bbox.bytes()));
    lemma_bbox_round_trip(t.bytes, bo, bbox);
    lemma_item_round_trip(t.bytes, io, item);
}

/// A point array written at the cursor changes the bytes of the array
/// alone, and these hold the points.
proof fn lemma_put_points(bytes: Seq<u8>, at: int, points: Seq<Point>)
    requires
        0 <= at,
        at + points.len() * POINT_SIZE <= bytes.len(),
    ensures
        splice(bytes, at, points_bytes(points)).len() == bytes.len(),
        holds(splice(bytes, at, points_bytes(points)), at, points_bytes(points)),
        forall|p: int|
            0 <= p < bytes.len() && !within(p, at, points.len() * POINT_SIZE) ==> #[trigger] splice(
                bytes,
                at,
                points_bytes(points),
            )[p] == bytes[p],
{
    lemma_points_bytes_len(points);
    lemma_splice_holds(bytes, at, points_bytes(points));
}

/// Bytes that hold a record still hold it after changes elsewhere.
proof fn lemma_holds_kept(before: Seq<u8>, after: Seq<u8>, at: int, rec: Seq<u8>)
    requires
        holds(before, at, rec),
        before.len() == after.len(),
        forall|p: int| at <= p < at + rec.len() ==> #[trigger] after[p] == before[p],
    ensures
        holds(after, at, rec),
{
    assert forall|k: int| 0 <= k < rec.len() implies #[trigger] after[at + k] == rec[k] by {
        assert(before[at + k] == rec[k]);
    }
}

/// One addition fills the next free slot and nothing it should not: the
/// slot's bounding box and item read back as they were written; so does each
/// point of a polygon, from the old cursor on; and every byte outside the
/// slot's bounding box, its item and the new point array is as before.
pub proof fn lemma_addition(s: EncoderState, a: Addition)
    requires
        s.wf(),
        s.admits(a),
    ensures
        s.apply(a).wf(),
        s.apply(a).bytes.len() == s.bytes.len(),
        s.apply(a).cursor >= s.cursor,
        s.group is Open,
        s.apply(a).group == (GroupState::Open {
            start: s.group->start,
            count: s.group->count,
            filled: s.group->filled + 1,
        }),
        bbox_at(s.apply(a).bytes, bbox_offset(s.group->start, s.group->filled) as int) == Some(
            a.bbox(),
        ),
        item_at(
            s.apply(a).bytes,
            item_offset(s.group->start, s.group->count, s.group->filled) as int,
        ) == Some(s.item_of(a)),
        forall|p: int|
            0 <= p < s.bytes.len() && !within(
                p,
                bbox_offset(s.group->start, s.group->filled) as int,
                BBOX_SIZE as int,
            ) && !within(
                p,
                item_offset(s.group->start, s.group->count, s.group->filled) as int,
                ITEM_SIZE as int,
            ) && !within(p, s.cursor as int, s.apply(a).cursor - s.cursor)
                ==> #[trigger] s.apply(a).bytes[p] == s.bytes[p],
        a matches Addition::Fill { points, .. } ==> s.apply(a).cursor == s.cursor + points.len()
            * POINT_SIZE && holds(s.apply(a).bytes, s.cursor as int, points_bytes(points)),
{
    match a {
        Addition::Fill { points, rgba } => {
            let pre = EncoderState {
                bytes: splice(s.bytes, s.cursor as int, points_bytes(points)),
                cursor: s.cursor + points.len() * POINT_SIZE as nat,
                group: s.group,
            };
            let bbox = a.bbox();
            let item = s.item_of(a);
            assert(s.apply(a) == pre.add(bbox, item));
            lemma_put_points(s.bytes, s.cursor as int, points);
            lemma_points_bytes_len(points);
            lemma_add(pre, bbox, item);
            lemma_holds_kept(pre.bytes, pre.add(bbox, item).bytes, s.cursor as int, points_bytes(points));
        },
        _ => {
            assert(s.apply(a) == s.add(a.bbox(), s.item_of(a)));
            lemma_add(s, a.bbox(), s.item_of(a));
        },
    }
}

/// A group that was opened for `n` items takes exactly `n` additions: after
/// `k` of them it holds `k` items, it can be closed if and only if `k == n`,
/// and once it is full it admits no further addition.
pub proof fn lemma_group_capacity(s: EncoderState, n: nat, adds: Seq<Addition>)
    requires
        s.can_begin(n),
        s.begin(n).admits_all(adds),
    ensures
        adds.len() <= n,
        s.begin(n).apply_all(adds).wf(),
        s.begin(n).apply_all(adds).bytes.len() == s.bytes.len(),
        s.begin(n).apply_all(adds).cursor >= s.cursor + group_size(n),
        s.begin(n).apply_all(adds).group == (GroupState::Open {
            start: s.cursor,
            count: n,
            filled: adds.len(),
        }),
        s.begin(n).apply_all(adds).can_end() <==> adds.len() == n,
        adds.len() == n ==> forall|a: Addition| !s.begin(n).apply_all(adds).admits(a),
    decreases adds.len(),
{
    lemma_begin(s, n);
    if adds.len() > 0 {
        lemma_group_capacity(s, n, adds.drop_last());
        lemma_addition(s.begin(n).apply_all(adds.drop_last()), adds.last());
    }
}

/// Every addition to a group reads back from the final buffer: the `i`-th
/// slot holds the bounding box and the item of the `i`-th addition, a
/// polygon's points stand where its item says, and the header still names
/// the item count and the item array.
pub proof fn lemma_round_trip(s: EncoderState, n: nat, adds: Seq<Addition>, i: int)
    requires
        s.can_begin(n),
        s.begin(n).admits_all(adds),
        0 <= i < adds.len(),
    ensures
        le32_at(s.begin(n).apply_all(adds).bytes, s.cursor as int) == n,
        le32_at(s.begin(n).apply_all(adds).bytes, (s.cursor + 4) as int) == items_offset(
            s.cursor,
            n,
        ),
        bbox_at(s.begin(n).apply_all(adds).bytes, bbox_offset(s.cursor, i as nat) as int) == Some(
            adds[i].bbox(),
        ),
        item_at(s.begin(n).apply_all(adds).bytes, item_offset(s.cursor, n, i as nat) as int)
            == Some(s.begin(n).apply_all(adds.take(i)).item_of(adds[i])),
        adds[i] matches Addition::Fill { points, .. } ==> forall|k: int|
            0 <= k < points.len() ==> #[trigger] point_at(
                s.begin(n).apply_all(adds).bytes,
                s.begin(n).apply_all(adds.take(i)).cursor + k * POINT_SIZE,
            ) == Some(points[k]),
{
    lemma_header_kept(s, n, adds);
    lemma_slot_kept(s, n, adds, i);
    if let Addition::Fill { points, .. } = adds[i] {
        let bytes = s.begin(n).apply_all(adds).bytes;
        let at = s.begin(n).apply_all(adds.take(i)).cursor as int;
        assert forall|k: int| 0 <= k < points.len() implies #[trigger] point_at(
            bytes,
            at + k * POINT_SIZE,
        ) == Some(points[k]) by {
            lemma_points_round_trip(bytes, at, points, k);
        }
    }
}

/// The `i`-th slot of an open group, and the point array of the `i`-th
/// addition, stay as they were written while further items are added.
proof fn lemma_slot_kept(s: EncoderState, n: nat, adds: Seq<Addition>, i: int)
    requires
        s.can_begin(n),
        s.begin(n).admits_all(adds),
        0 <= i < adds.len(),
    ensures
        bbox_at(s.begin(n).apply_all(adds).bytes, bbox_offset(s.cursor, i as nat) as int) == Some(
            adds[i].bbox(),
        ),
        item_at(s.begin(n).apply_all(adds).bytes, item_offset(s.cursor, n, i as nat) as int)
            == Some(s.begin(n).apply_all(adds.take(i)).item_of(adds[i])),
        s.begin(n).apply_all(adds.take(i)).cursor >= s.cursor + group_size(n),
        adds[i] matches Addition::Fill { points, .. } ==> s.begin(n).apply_all(
            adds.take(i),
        ).cursor + points.len() * POINT_SIZE <= s.begin(n).apply_all(adds).cursor && holds(
            s.begin(n).apply_all(adds).bytes,
            s.begin(n).apply_all(adds.take(i)).cursor as int,
            points_bytes(points),
        ),
    decreases adds.len(),
{
    let head = adds.drop_last();
    let before = s.begin(n).apply_all(head);
    let after = s.begin(n).apply_all(adds);
    let last = adds.len() - 1;
    lemma_group_capacity(s, n, head);
    lemma_group_capacity(s, n, adds);
    lemma_addition(before, adds.last());
    if i == last {
        assert(adds.take(i) =~= head);
    } else {
        assert(head.take(i) =~= adds.take(i));
        lemma_slot_kept(s, n, head, i);
        let then = s.begin(n).apply_all(adds.take(i));
        let at_bbox = bbox_offset(s.cursor, i as nat) as int;
        let at_item = item_offset(s.cursor, n, i as nat) as int;
        lemma_frame(before.bytes, after.bytes, at_bbox, BBOX_SIZE as int);
        lemma_frame(before.bytes, after.bytes, at_item, ITEM_SIZE as int);
        if let Addition::Fill { points, .. } = adds[i] {
            lemma_points_bytes_len(points);
            lemma_holds_kept(before.bytes, after.bytes, then.cursor as int, points_bytes(points));
        }
    }
}

/// The decoders read nothing but the bytes of the record they decode.
proof fn lemma_frame(before: Seq<u8>, after: Seq<u8>, at: int, len: int)
    requires
        before.len() == after.len(),
        forall|p: int| at <= p < at + len && 0 <= p < before.len() ==> #[trigger] after[p]
            == before[p],
    ensures
        len >= BBOX_SIZE ==> bbox_at(after, at) == bbox_at(before, at),
        len >= ITEM_SIZE ==> item_at(after, at) == item_at(before, at),
{
}

/// The header of an open group stays as it was written while items are added.
proof fn lemma_header_kept(s: EncoderState, n: nat, adds: Seq<Addition>)
    requires
        s.can_begin(n),
        s.begin(n).admits_all(adds),
    ensures
        le32_at(s.begin(n).apply_all(adds).bytes, s.cursor as int) == n,
        le32_at(s.begin(n).apply_all(adds).bytes, (s.cursor + 4) as int) == items_offset(s.cursor, n),
    decreases adds.len(),
{
    lemma_begin(s, n);
    if adds.len() > 0 {
        let head = adds.drop_last();
        let before = s.begin(n).apply_all(head);
        let after = s.begin(n).apply_all(adds);
        lemma_header_kept(s, n, head);
        lemma_group_capacity(s, n, head);
        lemma_group_capacity(s, n, adds);
        lemma_addition(before, adds.last());
        assert(le32_at(after.bytes, s.cursor as int) == le32_at(before.bytes, s.cursor as int));
        assert(le32_at(after.bytes, (s.cursor + 4) as int) == le32_at(before.bytes, (s.cursor + 4) as int));
    }
}

/// An encoder that admits a run of additions admits every prefix of it.
pub proof fn lemma_prefix(s: EncoderState, adds: Seq<Addition>, i: int)
    requires
        s.admits_all(adds),
        0 <= i <= adds.len(),
    ensures
        s.admits_all(adds.take(i)),
    decreases adds.len(),
{
    if i == adds.len() {
        assert(adds.take(i) =~= adds);
    } else {
        assert(adds.drop_last().take(i) =~= adds.take(i));
        lemma_prefix(s, adds.drop_last(), i);
    }
}

/// The first `i + 1` additions of a run are the first `i` and then the
/// `i`-th: the encoder admits them if it admits the first `i` and then, in
/// the state these lead to, the `i`-th; and they lead where the `i`-th
/// leads from there.
pub proof fn lemma_next(s: EncoderState, adds: Seq<Addition>, i: int)
    requires
        0 <= i < adds.len(),
    ensures
        s.admits_all(adds.take(i + 1)) <==> s.admits_all(adds.take(i)) && s.apply_all(
            adds.take(i),
        ).admits(adds[i]),
        s.apply_all(adds.take(i + 1)) == s.apply_all(adds.take(i)).apply(adds[i]),
{
    assert(adds.take(i + 1).drop_last() =~= adds.take(i));
    assert(adds.take(i + 1).last() == adds[i]);
}

/// Points that the polygons among the additions have together.
pub open spec fn points_needed(adds: Seq<Addition>) -> nat
    decreases adds.len(),
{
    if adds.len() == 0 {
        0
    } else {
        points_needed(adds.drop_last()) + match adds.last() {
            Addition::Fill { points, .. } => points.len(),
            _ => 0,
        }
    }
}

/// Whether every polygon among the additions has a point.
pub open spec fn fills_nonempty(adds: Seq<Addition>) -> bool {
    forall|i: int|
        0 <= i < adds.len() ==> (#[trigger] adds[i] matches Addition::Fill { points, .. }
            ==> points.len() >= 1)
}

/// What a run of additions needs of the encoder: an open group with a free
/// slot for each, a point in every polygon, and room behind the cursor for
/// all point arrays.
pub open spec fn fits(s: EncoderState, adds: Seq<Addition>) -> bool {
    adds.len() == 0 || {
        &&& s.group is Open
        &&& s.group->filled + adds.len() <= s.group->count
        &&& fills_nonempty(adds)
        &&& points_needed(adds) > 0 ==> {
            &&& s.cursor + points_needed(adds) * POINT_SIZE <= s.bytes.len()
            &&& s.cursor + points_needed(adds) * POINT_SIZE <= MAX_OFFSET
        }
    }
}

/// Points that the addition puts behind the cursor.
pub open spec fn points_of(a: Addition) -> nat {
    match a {
        Addition::Fill { points, .. } => points.len(),
        _ => 0,
    }
}

/// What one addition does to the cursor and to the group.
proof fn lemma_addition_shape(s: EncoderState, a: Addition)
    requires
        s.wf(),
        s.admits(a),
    ensures
        s.group is Open,
        s.apply(a).wf(),
        s.apply(a).bytes.len() == s.bytes.len(),
        s.apply(a).cursor == s.cursor + points_of(a) * POINT_SIZE,
        s.apply(a).group == (GroupState::Open {
            start: s.group->start,
            count: s.group->count,
            filled: s.group->filled + 1,
        }),
{
    lemma_addition(s, a);
}

/// A run of additions keeps the encoder well formed and the buffer's length,
/// moves the cursor by the point arrays of its polygons, and adds one item
/// to the open group for each addition.
pub proof fn lemma_run(s: EncoderState, adds: Seq<Addition>)
    requires
        s.wf(),
        s.admits_all(adds),
    ensures
        s.apply_all(adds).wf(),
        s.apply_all(adds).bytes.len() == s.bytes.len(),
        s.apply_all(adds).cursor == s.cursor + points_needed(adds) * POINT_SIZE,
        adds.len() == 0 ==> s.apply_all(adds) == s,
        adds.len() > 0 ==> s.group is Open && s.apply_all(adds).group == (GroupState::Open {
            start: s.group->start,
            count: s.group->count,
            filled: s.group->filled + adds.len(),
        }),
    decreases adds.len(),
{
    if adds.len() > 0 {
        lemma_run(s, adds.drop_last());
        lemma_addition_shape(s.apply_all(adds.drop_last()), adds.last());
        assert(points_of(adds.last()) * POINT_SIZE + points_needed(adds.drop_last()) * POINT_SIZE
            == points_needed(adds) * POINT_SIZE);
    }
}

/// A run of additions that fits leaves out its last addition and still fits.
proof fn lemma_fits_head(s: EncoderState, adds: Seq<Addition>)
    requires
        fits(s, adds),
        adds.len() > 0,
    ensures
        fits(s, adds.drop_last()),
        points_needed(adds) == points_needed(adds.drop_last()) + points_of(adds.last()),
        adds.last() matches Addition::Fill { points, .. } ==> points.len() >= 1,
{
    let head = adds.drop_last();
    assert forall|i: int| 0 <= i < head.len() implies (#[trigger] head[i] matches Addition::Fill {
        points,
        ..
    } ==> points.len() >= 1) by {
        assert(head[i] == adds[i]);
    }
    assert(adds[adds.len() - 1] == adds.last());
}

/// A run of additions fits if it does without its last addition, and the
/// last has a slot, a point and room.
proof fn lemma_fits_push(s: EncoderState, adds: Seq<Addition>)
    requires
        adds.len() > 0,
        fits(s, adds.drop_last()),
        s.group is Open,
        s.group->filled + adds.len() <= s.group->count,
        adds.last() matches Addition::Fill { points, .. } ==> points.len() >= 1 && s.cursor + (
        points_needed(adds.drop_last()) + points.len()) * POINT_SIZE <= s.bytes.len() && s.cursor
            + (points_needed(adds.drop_last()) + points.len()) * POINT_SIZE <= MAX_OFFSET,
    ensures
        fits(s, adds),
{
    let head = adds.drop_last();
    assert forall|i: int| 0 <= i < adds.len() implies (#[trigger] adds[i] matches Addition::Fill {
        points,
        ..
    } ==> points.len() >= 1) by {
        if i < head.len() {
            assert(head[i] == adds[i]);
        } else {
            assert(adds[i] == adds.last());
        }
    }
    assert(points_needed(adds) == points_needed(head) + points_of(adds.last()));
    if head.len() == 0 {
        assert(points_needed(head) == 0);
    }
}

/// The encoder admits a run of additions exactly if the run fits, and the
/// run then moves the cursor by the point arrays and by nothing else.
pub proof fn lemma_admits_all(s: EncoderState, adds: Seq<Addition>)
    requires
        s.wf(),
    ensures
        s.admits_all(adds) <==> fits(s, adds),
        s.admits_all(adds) ==> s.apply_all(adds).cursor == s.cursor + points_needed(adds)
            * POINT_SIZE,
    decreases adds.len(),
{
    if adds.len() > 0 {
        let head = adds.drop_last();
        let last = adds.last();
        let mid = s.apply_all(head);
        lemma_admits_all(s, head);
        if s.admits_all(head) {
            lemma_run(s, head);
        }
        if s.admits_all(adds) {
            lemma_run(s, adds);
            lemma_addition_shape(mid, last);
            assert(points_needed(adds) == points_needed(head) + points_of(last));
            lemma_fits_push(s, adds);
        }
        if fits(s, adds) {
            lemma_fits_head(s, adds);
            assert(mid.admits(last));
        }
    }
}

/// The points of two runs of additions add up, and every polygon of the
/// joined run has a point exactly if every polygon of either run has one.
pub proof fn lemma_points_needed_concat(first: Seq<Addition>, second: Seq<Addition>)
    ensures
        points_needed(first + second) == points_needed(first) + points_needed(second),
        fills_nonempty(first + second) <==> fills_nonempty(first) && fills_nonempty(second),
    decreases second.len(),
{
    let both = first + second;
    if second.len() == 0 {
        assert(both =~= first);
    } else {
        assert(both.drop_last() =~= first + second.drop_last());
        assert(both.last() == second.last());
        lemma_points_needed_concat(first, second.drop_last());
    }
    if fills_nonempty(both) {
        assert forall|i: int| 0 <= i < first.len() implies (
        #[trigger] first[i] matches Addition::Fill { points, .. } ==> points.len() >= 1) by {
            assert(both[i] == first[i]);
        }
        assert forall|i: int| 0 <= i < second.len() implies (
        #[trigger] second[i] matches Addition::Fill { points, .. } ==> points.len() >= 1) by {
            assert(both[first.len() + i] == second[i]);
        }
    }
    if fills_nonempty(first) && fills_nonempty(second) {
        assert forall|i: int| 0 <= i < both.len() implies (
        #[trigger] both[i] matches Addition::Fill { points, .. } ==> points.len() >= 1) by {
            if i < first.len() {
                assert(both[i] == first[i]);
            } else {
                assert(both[i] == second[i - first.len()]);
            }
        }
    }
}

} // verus!
