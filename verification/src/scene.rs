//! Whole paths: a flattened path is a list of subpaths, each a polyline given
//! by its points. A path is filled as one polygon for each subpath, or
//! stroked as one line for each pair of neighbouring points.

use vstd::prelude::*;
use crate::encoder::{Encoder, EncoderState};
use crate::geom::{Line, Point};
use crate::encoder::{GROUP_HEADER_SIZE, MAX_OFFSET};
use crate::bbox::BBOX_SIZE;
use crate::geom::POINT_SIZE;
use crate::item::ITEM_SIZE;
use crate::protocol::{
    fills_nonempty, fits, lemma_addition, lemma_admits_all, lemma_begin, lemma_group_capacity,
    lemma_next, lemma_points_needed_concat, lemma_prefix, lemma_run, points_needed, Addition,
};

verus! {

/// The subpaths as sequences of points.
pub open spec fn subpaths(flattened: Seq<Vec<Point>>) -> Seq<Seq<Point>> {
    Seq::new(flattened.len(), |i: int| flattened[i]@)
}

/// One polygon for each subpath.
pub open spec fn fill_additions(paths: Seq<Seq<Point>>, rgba: u32) -> Seq<Addition> {
    Seq::new(paths.len(), |i: int| Addition::Fill { points: paths[i], rgba })
}

/// Lines that the polyline through `path` has.
pub open spec fn segment_count(path: Seq<Point>) -> nat {
    if path.len() == 0 {
        0
    } else {
        (path.len() - 1) as nat
    }
}

/// One stroked line for each pair of neighbouring points of `path`.
pub open spec fn path_strokes(path: Seq<Point>, width: u32, rgba: u32) -> Seq<Addition> {
    Seq::new(
        segment_count(path),
        |i: int| Addition::StrokeLine { line: Line { p0: path[i], p1: path[i + 1] }, width, rgba },
    )
}

/// The stroked lines of all subpaths, subpath after subpath.
pub open spec fn stroke_additions(paths: Seq<Seq<Point>>, width: u32, rgba: u32) -> Seq<Addition>
    decreases paths.len(),
{
    if paths.len() == 0 {
        Seq::empty()
    } else {
        stroke_additions(paths.drop_last(), width, rgba) + path_strokes(paths.last(), width, rgba)
    }
}

/// Lines that the polylines through `paths` have together.
pub open spec fn stroke_count(paths: Seq<Seq<Point>>) -> nat
    decreases paths.len(),
{
    if paths.len() == 0 {
        0
    } else {
        stroke_count(paths.drop_last()) + segment_count(paths.last())
    }
}

/// Stroking adds as many items as the polylines have lines, whatever the
/// width and the color.
pub proof fn lemma_stroke_count(paths: Seq<Seq<Point>>, width: u32, rgba: u32)
    ensures
        stroke_additions(paths, width, rgba).len() == stroke_count(paths),
    decreases paths.len(),
{
    if paths.len() > 0 {
        lemma_stroke_count(paths.drop_last(), width, rgba);
    }
}

/// The lines of the first `j + 1` subpaths are those of the first `j` and
/// then those of the `j`-th, and the `i`-th line of the `j`-th subpath
/// stands `i` places behind the lines of the subpaths before it.
proof fn lemma_stroke_at(paths: Seq<Seq<Point>>, width: u32, rgba: u32, j: int, i: int)
    requires
        0 <= j < paths.len(),
        0 <= i <= segment_count(paths[j]),
    ensures
        stroke_count(paths.take(j + 1)) == stroke_count(paths.take(j)) + segment_count(paths[j]),
        stroke_count(paths.take(j + 1)) <= stroke_count(paths),
        i < segment_count(paths[j]) ==> stroke_additions(paths, width, rgba)[stroke_count(
            paths.take(j),
        ) + i] == path_strokes(paths[j], width, rgba)[i],
    decreases paths.len(),
{
    let head = paths.drop_last();
    lemma_stroke_count(paths, width, rgba);
    lemma_stroke_count(head, width, rgba);
    assert(paths.take(j + 1).drop_last() =~= paths.take(j));
    if j == paths.len() - 1 {
        assert(paths.take(j) =~= head);
        assert(paths.take(j + 1) =~= paths);
    } else {
        assert(head.take(j) =~= paths.take(j));
        assert(head.take(j + 1) =~= paths.take(j + 1));
        lemma_stroke_at(head, width, rgba, j, i);
    }
}

/// Items that filling the path adds: one for each subpath.
pub fn count_fill_items(flattened: &Vec<Vec<Point>>) -> (n: usize)
    ensures
        n == subpaths(flattened@).len(),
        forall|rgba: u32| n == #[trigger] fill_additions(subpaths(flattened@), rgba).len(),
{
    flattened.len()
}

/// Items that stroking the path adds: one for each pair of neighbouring
/// points of each subpath, saturated to what a `usize` holds.
pub fn count_stroke_items(flattened: &Vec<Vec<Point>>) -> (n: usize)
    ensures
        n == if stroke_count(subpaths(flattened@)) <= usize::MAX {
            stroke_count(subpaths(flattened@))
        } else {
            usize::MAX as nat
        },
{
    let ghost paths = subpaths(flattened@);
    let mut total: usize = 0;
    let mut j: usize = 0;
    assert(paths.take(0) =~= Seq::empty());
    while j < flattened.len()
        invariant
            j <= flattened@.len(),
            paths == subpaths(flattened@),
            total == if stroke_count(paths.take(j as int)) <= usize::MAX {
                stroke_count(paths.take(j as int))
            } else {
                usize::MAX as nat
            },
        decreases flattened@.len() - j,
    {
        proof {
            lemma_stroke_at(paths, 0, 0, j as int, 0);
        }
        let len = flattened[j].len();
        let segments = if len == 0 {
            0
        } else {
            len - 1
        };
        total = if segments > usize::MAX - total {
            usize::MAX
        } else {
            total + segments
        };
        j += 1;
    }
    assert(paths.take(j as int) =~= paths);
    total
}

/// Whether `encode_path` may be called now with this path: a dry run of the
/// fills, which takes the free slots and the point arrays into account and
/// writes nothing.
pub fn can_encode_path(encoder: &Encoder, flattened: &Vec<Vec<Point>>, rgba: u32) -> (ok: bool)
    requires
        encoder@.wf(),
    ensures
        ok == encoder@.admits_all(fill_additions(subpaths(flattened@), rgba)),
{
    let ghost adds = fill_additions(subpaths(flattened@), rgba);
    let cap = encoder.buf.len();
    let limit = if cap < crate::encoder::MAX_OFFSET {
        cap
    } else {
        crate::encoder::MAX_OFFSET
    };
    let mut cursor = encoder.free_space;
    let mut filled = encoder.group_ix;
    let mut k: usize = 0;
    assert(adds.take(0) =~= Seq::empty());
    while k < flattened.len()
        invariant
            k <= flattened@.len(),
            adds == fill_additions(subpaths(flattened@), rgba),
            encoder@.wf(),
            cap == encoder@.bytes.len(),
            limit == if cap < crate::encoder::MAX_OFFSET {
                cap
            } else {
                crate::encoder::MAX_OFFSET
            },
            encoder@.admits_all(adds.take(k as int)),
            encoder@.apply_all(adds.take(k as int)).wf(),
            encoder@.apply_all(adds.take(k as int)).cursor == cursor,
            encoder@.apply_all(adds.take(k as int)).bytes.len() == cap,
            k == 0 ==> filled == encoder.group_ix,
            k > 0 ==> encoder@.apply_all(adds.take(k as int)).group == (
            crate::encoder::GroupState::Open {
                start: encoder.group_start as nat,
                count: encoder.group_count as nat,
                filled: filled as nat,
            }) && encoder.group_open,
        decreases flattened@.len() - k,
    {
        let n = flattened[k].len();
        proof {
            lemma_next(encoder@, adds, k as int);
        }
        let fits = encoder.group_open && filled < encoder.group_count && n >= 1 && cursor <= limit
            && n <= (limit - cursor) / crate::geom::POINT_SIZE;
        if !fits {
            proof {
                if encoder@.admits_all(adds) {
                    lemma_prefix(encoder@, adds, k + 1);
                }
            }
            return false;
        }
        proof {
            lemma_addition(encoder@.apply_all(adds.take(k as int)), adds[k as int]);
        }
        cursor = cursor + n * crate::geom::POINT_SIZE;
        filled = filled + 1;
        k += 1;
    }
    assert(adds.take(k as int) =~= adds);
    true
}

/// Fills the path: adds one polygon for each subpath, in order.
pub fn encode_path(encoder: &mut Encoder, flattened: &Vec<Vec<Point>>, rgba: u32)
    requires
        old(encoder)@.wf(),
        old(encoder)@.admits_all(fill_additions(subpaths(flattened@), rgba)),
    ensures
        final(encoder)@ == old(encoder)@.apply_all(fill_additions(subpaths(flattened@), rgba)),
        final(encoder)@.wf(),
        final(final(encoder).buf)@ == final(old(encoder).buf)@,
{
    let ghost adds = fill_additions(subpaths(flattened@), rgba);
    let mut k: usize = 0;
    assert(adds.take(0) =~= Seq::empty());
    while k < flattened.len()
        invariant
            k <= flattened@.len(),
            adds == fill_additions(subpaths(flattened@), rgba),
            old(encoder)@.admits_all(adds),
            encoder@ == old(encoder)@.apply_all(adds.take(k as int)),
            encoder@.wf(),
            final(encoder.buf)@ == final(old(encoder).buf)@,
        decreases flattened@.len() - k,
    {
        proof {
            lemma_prefix(old(encoder)@, adds, k + 1);
            lemma_next(old(encoder)@, adds, k as int);
        }
        encoder.fill(flattened[k].as_slice(), rgba);
        k += 1;
    }
    assert(adds.take(k as int) =~= adds);
}

/// Whether `encode_path_stroke` may be called now with this path.
pub fn can_encode_path_stroke(
    encoder: &Encoder,
    flattened: &Vec<Vec<Point>>,
    width: u32,
    rgba: u32,
) -> (ok: bool)
    requires
        encoder@.wf(),
    ensures
        ok == encoder@.admits_all(stroke_additions(subpaths(flattened@), width, rgba)),
{
    let ghost adds = stroke_additions(subpaths(flattened@), width, rgba);
    let n = count_stroke_items(flattened);
    proof {
        lemma_stroke_count(subpaths(flattened@), width, rgba);
        lemma_strokes_are_lines(subpaths(flattened@), width, rgba);
        lemma_strokes_admitted(encoder@, adds);
    }
    n == 0 || (encoder.group_open && n <= encoder.group_count - encoder.group_ix)
}

/// Strokes one polyline: adds one line of the given width and color for
/// each pair of neighbouring points, in order.
pub fn stroke_polyline(encoder: &mut Encoder, points: &[Point], width: u32, rgba: u32)
    requires
        old(encoder)@.wf(),
        old(encoder)@.admits_all(path_strokes(points@, width, rgba)),
    ensures
        final(encoder)@ == old(encoder)@.apply_all(path_strokes(points@, width, rgba)),
        final(encoder)@.wf(),
        final(final(encoder).buf)@ == final(old(encoder).buf)@,
{
    let ghost start = old(encoder)@;
    let n = points.len();
    let mut i: usize = 0;
    proof {
        lemma_lines_begin(start, points@, width, rgba);
    }
    while i + 1 < n
        invariant
            n == points@.len(),
            i <= segment_count(points@),
            lines_admitted(start, points@, width, rgba),
            encoder@ == lines_done(start, points@, width, rgba, i as int),
            encoder@.wf(),
            final(encoder.buf)@ == final(old(encoder).buf)@,
        decreases n - i,
    {
        proof {
            lemma_lines_step(start, points@, width, rgba, i as int);
        }
        let line = Line { p0: points[i], p1: points[i + 1] };
        encoder.stroke_line(line, width, rgba);
        i += 1;
    }
    proof {
        lemma_lines_end(start, points@, width, rgba);
    }
}

/// The state after the first `i` lines of the polyline through `path`.
#[verifier::opaque]
spec fn lines_done(s: EncoderState, path: Seq<Point>, width: u32, rgba: u32, i: int) -> EncoderState {
    s.apply_all(path_strokes(path, width, rgba).take(i))
}

/// Whether the encoder admits the lines of the polyline through `path`.
#[verifier::opaque]
spec fn lines_admitted(s: EncoderState, path: Seq<Point>, width: u32, rgba: u32) -> bool {
    s.admits_all(path_strokes(path, width, rgba))
}

/// Before any line is added the encoder is where it started.
proof fn lemma_lines_begin(s: EncoderState, path: Seq<Point>, width: u32, rgba: u32)
    requires
        s.admits_all(path_strokes(path, width, rgba)),
    ensures
        lines_admitted(s, path, width, rgba),
        lines_done(s, path, width, rgba, 0) == s,
{
    reveal(lines_done);
    reveal(lines_admitted);
    assert(path_strokes(path, width, rgba).take(0) =~= Seq::empty());
}

/// The next line is admitted, and adding it leads to the state that counts
/// one line more.
proof fn lemma_lines_step(s: EncoderState, path: Seq<Point>, width: u32, rgba: u32, i: int)
    requires
        lines_admitted(s, path, width, rgba),
        0 <= i < segment_count(path),
    ensures
        lines_done(s, path, width, rgba, i).can_add(),
        lines_done(s, path, width, rgba, i + 1) == lines_done(s, path, width, rgba, i).stroke_line(
            Line { p0: path[i], p1: path[i + 1] },
            width,
            rgba,
        ),
{
    reveal(lines_done);
    reveal(lines_admitted);
    let adds = path_strokes(path, width, rgba);
    lemma_prefix(s, adds, i + 1);
    lemma_next(s, adds, i);
}

/// After the last line all lines are added.
proof fn lemma_lines_end(s: EncoderState, path: Seq<Point>, width: u32, rgba: u32)
    ensures
        lines_done(s, path, width, rgba, segment_count(path) as int) == s.apply_all(
            path_strokes(path, width, rgba),
        ),
{
    reveal(lines_done);
    let adds = path_strokes(path, width, rgba);
    assert(adds.take(adds.len() as int) =~= adds);
}

/// Strokes the path: adds one line of the given width and color for each
/// pair of neighbouring points of each subpath, in order.
pub fn encode_path_stroke(
    encoder: &mut Encoder,
    flattened: &Vec<Vec<Point>>,
    width: u32,
    rgba: u32,
)
    requires
        old(encoder)@.wf(),
        old(encoder)@.admits_all(stroke_additions(subpaths(flattened@), width, rgba)),
    ensures
        final(encoder)@ == old(encoder)@.apply_all(
            stroke_additions(subpaths(flattened@), width, rgba),
        ),
        final(encoder)@.wf(),
        final(final(encoder).buf)@ == final(old(encoder).buf)@,
{
    let ghost paths = subpaths(flattened@);
    let ghost start = old(encoder)@;
    let mut j: usize = 0;
    proof {
        lemma_strokes_begin(start, paths, width, rgba);
    }
    while j < flattened.len()
        invariant
            j <= flattened@.len(),
            paths == subpaths(flattened@),
            strokes_admitted(start, paths, width, rgba),
            encoder@ == strokes_done(start, paths, width, rgba, j as int),
            encoder@.wf(),
            final(encoder.buf)@ == final(old(encoder).buf)@,
        decreases flattened@.len() - j,
    {
        proof {
            lemma_strokes_step(start, paths, width, rgba, j as int);
        }
        stroke_polyline(encoder, flattened[j].as_slice(), width, rgba);
        j += 1;
    }
    proof {
        lemma_strokes_end(start, paths, width, rgba);
    }
}

/// The state after the lines of the first `j` subpaths.
#[verifier::opaque]
spec fn strokes_done(
    s: EncoderState,
    paths: Seq<Seq<Point>>,
    width: u32,
    rgba: u32,
    j: int,
) -> EncoderState {
    s.apply_all(stroke_additions(paths.take(j), width, rgba))
}

/// Whether the encoder admits the lines of all subpaths.
#[verifier::opaque]
spec fn strokes_admitted(s: EncoderState, paths: Seq<Seq<Point>>, width: u32, rgba: u32) -> bool {
    s.admits_all(stroke_additions(paths, width, rgba))
}

/// Two runs of additions made one after the other are one run.
pub proof fn lemma_concat(s: EncoderState, first: Seq<Addition>, second: Seq<Addition>)
    ensures
        s.apply_all(first + second) == s.apply_all(first).apply_all(second),
        s.admits_all(first + second) <==> s.admits_all(first) && s.apply_all(first).admits_all(
            second,
        ),
    decreases second.len(),
{
    if second.len() == 0 {
        assert(first + second =~= first);
    } else {
        assert((first + second).drop_last() =~= first + second.drop_last());
        assert((first + second).last() == second.last());
        lemma_concat(s, first, second.drop_last());
    }
}

/// An encoder that admits the lines of all subpaths admits those of the
/// first `j`.
proof fn lemma_strokes_admit_prefix(
    s: EncoderState,
    paths: Seq<Seq<Point>>,
    width: u32,
    rgba: u32,
    j: int,
)
    requires
        s.admits_all(stroke_additions(paths, width, rgba)),
        0 <= j <= paths.len(),
    ensures
        s.admits_all(stroke_additions(paths.take(j), width, rgba)),
    decreases paths.len(),
{
    if j == paths.len() {
        assert(paths.take(j) =~= paths);
    } else {
        let head = paths.drop_last();
        lemma_concat(
            s,
            stroke_additions(head, width, rgba),
            path_strokes(paths.last(), width, rgba),
        );
        assert(head.take(j) =~= paths.take(j));
        lemma_strokes_admit_prefix(s, head, width, rgba, j);
    }
}

/// Before any line is added the encoder is where it started.
proof fn lemma_strokes_begin(s: EncoderState, paths: Seq<Seq<Point>>, width: u32, rgba: u32)
    requires
        s.admits_all(stroke_additions(paths, width, rgba)),
    ensures
        strokes_admitted(s, paths, width, rgba),
        strokes_done(s, paths, width, rgba, 0) == s,
{
    reveal(strokes_done);
    reveal(strokes_admitted);
    assert(paths.take(0) =~= Seq::empty());
}

/// The lines of the next subpath are admitted, and adding them leads to the
/// state that counts one subpath more.
proof fn lemma_strokes_step(s: EncoderState, paths: Seq<Seq<Point>>, width: u32, rgba: u32, j: int)
    requires
        strokes_admitted(s, paths, width, rgba),
        0 <= j < paths.len(),
    ensures
        strokes_done(s, paths, width, rgba, j).admits_all(path_strokes(paths[j], width, rgba)),
        strokes_done(s, paths, width, rgba, j + 1) == strokes_done(s, paths, width, rgba, j).apply_all(
            path_strokes(paths[j], width, rgba),
        ),
{
    reveal(strokes_done);
    reveal(strokes_admitted);
    let next = paths.take(j + 1);
    assert(next.drop_last() =~= paths.take(j));
    assert(next.last() == paths[j]);
    lemma_strokes_admit_prefix(s, paths, width, rgba, j + 1);
    lemma_concat(
        s,
        stroke_additions(paths.take(j), width, rgba),
        path_strokes(paths[j], width, rgba),
    );
}

/// After the last subpath all lines are added.
proof fn lemma_strokes_end(s: EncoderState, paths: Seq<Seq<Point>>, width: u32, rgba: u32)
    ensures
        strokes_done(s, paths, width, rgba, paths.len() as int) == s.apply_all(
            stroke_additions(paths, width, rgba),
        ),
{
    reveal(strokes_done);
    assert(paths.take(paths.len() as int) =~= paths);
}

/// Stroking adds nothing but lines.
proof fn lemma_strokes_are_lines(paths: Seq<Seq<Point>>, width: u32, rgba: u32)
    ensures
        forall|i: int|
            0 <= i < stroke_additions(paths, width, rgba).len() ==> #[trigger] stroke_additions(
                paths,
                width,
                rgba,
            )[i] is StrokeLine,
    decreases paths.len(),
{
    if paths.len() > 0 {
        lemma_strokes_are_lines(paths.drop_last(), width, rgba);
    }
}

/// Lines need nothing but a free slot each: a run of them is admitted if
/// and only if it is empty or a group is open with as many free slots.
proof fn lemma_strokes_admitted(s: EncoderState, adds: Seq<Addition>)
    requires
        s.wf(),
        forall|i: int| 0 <= i < adds.len() ==> #[trigger] adds[i] is StrokeLine,
    ensures
        s.admits_all(adds) <==> adds.len() == 0 || (s.group is Open && s.group->filled + adds.len()
            <= s.group->count),
    decreases adds.len(),
{
    if adds.len() > 0 {
        let head = adds.drop_last();
        lemma_strokes_admitted(s, head);
        assert(adds.last() is StrokeLine);
        if s.admits_all(head) && head.len() > 0 {
            lemma_run(s, head);
        }
    }
}

/// How a path is stroked.
#[derive(Clone, Copy, Debug)]
pub struct Stroke {
    /// Width of the stroke, a binary32 bit pattern.
    pub width: u32,
    /// Color of the stroke.
    pub rgba: u32,
}

/// A flattened path with the colors it is filled and stroked with, if any.
#[derive(Debug)]
pub struct StyledPath {
    pub subpaths: Vec<Vec<Point>>,
    pub fill: Option<u32>,
    pub stroke: Option<Stroke>,
}

impl StyledPath {
    /// The polygons that the path adds: one for each subpath, if it is filled.
    pub open spec fn fills(self) -> Seq<Addition> {
        match self.fill {
            Some(rgba) => fill_additions(subpaths(self.subpaths@), rgba),
            None => Seq::empty(),
        }
    }

    /// The lines that the path adds: one for each segment, if it is stroked.
    pub open spec fn strokes(self) -> Seq<Addition> {
        match self.stroke {
            Some(stroke) => stroke_additions(subpaths(self.subpaths@), stroke.width, stroke.rgba),
            None => Seq::empty(),
        }
    }

    /// All that the path adds: its polygons, then its lines.
    pub open spec fn additions(self) -> Seq<Addition> {
        self.fills() + self.strokes()
    }
}

/// All that the paths add, path after path.
pub open spec fn scene_additions(paths: Seq<StyledPath>) -> Seq<Addition>
    decreases paths.len(),
{
    if paths.len() == 0 {
        Seq::empty()
    } else {
        scene_additions(paths.drop_last()) + paths.last().additions()
    }
}

/// `n` as far as a `usize` holds it.
pub open spec fn saturated(n: nat) -> usize {
    if n <= usize::MAX {
        n as usize
    } else {
        usize::MAX
    }
}

/// What a scene needs of the encoder. The counts are saturated.
#[derive(Clone, Copy, Debug)]
pub struct Budget {
    /// Items that the scene adds.
    pub items: usize,
    /// Points of all its polygons.
    pub points: usize,
    /// Whether every polygon has a point.
    pub fillable: bool,
}

/// Points that the subpaths have together.
pub open spec fn total_points(paths: Seq<Seq<Point>>) -> nat
    decreases paths.len(),
{
    if paths.len() == 0 {
        0
    } else {
        total_points(paths.drop_last()) + paths.last().len()
    }
}

/// Whether every subpath has a point.
pub open spec fn all_nonempty(paths: Seq<Seq<Point>>) -> bool {
    forall|i: int| 0 <= i < paths.len() ==> (#[trigger] paths[i]).len() >= 1
}

/// Filling needs the points of all subpaths and a point in each.
proof fn lemma_fill_needs(paths: Seq<Seq<Point>>, rgba: u32)
    ensures
        points_needed(fill_additions(paths, rgba)) == total_points(paths),
        fills_nonempty(fill_additions(paths, rgba)) <==> all_nonempty(paths),
    decreases paths.len(),
{
    let adds = fill_additions(paths, rgba);
    if paths.len() > 0 {
        assert(adds.drop_last() =~= fill_additions(paths.drop_last(), rgba));
        lemma_fill_needs(paths.drop_last(), rgba);
    }
    if fills_nonempty(adds) {
        assert forall|i: int| 0 <= i < paths.len() implies (#[trigger] paths[i]).len() >= 1 by {
            assert(adds[i] == Addition::Fill { points: paths[i], rgba });
        }
    }
    if all_nonempty(paths) {
        assert forall|i: int| 0 <= i < adds.len() implies (#[trigger] adds[i] matches Addition::Fill {
            points,
            ..
        } ==> points.len() >= 1) by {
            assert(paths[i].len() >= 1);
        }
    }
}

/// Stroking needs no points.
proof fn lemma_stroke_needs(paths: Seq<Seq<Point>>, width: u32, rgba: u32)
    ensures
        points_needed(stroke_additions(paths, width, rgba)) == 0,
        fills_nonempty(stroke_additions(paths, width, rgba)),
{
    lemma_strokes_are_lines(paths, width, rgba);
    lemma_lines_need_nothing(stroke_additions(paths, width, rgba));
}

/// A run of lines needs no points.
proof fn lemma_lines_need_nothing(adds: Seq<Addition>)
    requires
        forall|i: int| 0 <= i < adds.len() ==> #[trigger] adds[i] is StrokeLine,
    ensures
        points_needed(adds) == 0,
    decreases adds.len(),
{
    if adds.len() > 0 {
        assert(adds.last() is StrokeLine);
        lemma_lines_need_nothing(adds.drop_last());
    }
}

/// Items that the first `k` paths add.
#[verifier::opaque]
spec fn items_upto(paths: Seq<StyledPath>, k: int) -> nat {
    scene_additions(paths.take(k)).len()
}

/// Points that the polygons of the first `k` paths have.
#[verifier::opaque]
spec fn points_upto(paths: Seq<StyledPath>, k: int) -> nat {
    points_needed(scene_additions(paths.take(k)))
}

/// Whether every polygon of the first `k` paths has a point.
#[verifier::opaque]
spec fn fillable_upto(paths: Seq<StyledPath>, k: int) -> bool {
    fills_nonempty(scene_additions(paths.take(k)))
}

/// No path needs nothing.
proof fn lemma_budget_begin(paths: Seq<StyledPath>)
    ensures
        items_upto(paths, 0) == 0,
        points_upto(paths, 0) == 0,
        fillable_upto(paths, 0),
{
    reveal(items_upto);
    reveal(points_upto);
    reveal(fillable_upto);
    assert(paths.take(0) =~= Seq::empty());
}

/// What one more path needs.
proof fn lemma_budget_step(paths: Seq<StyledPath>, k: int)
    requires
        0 <= k < paths.len(),
    ensures
        items_upto(paths, k + 1) == items_upto(paths, k) + (if paths[k].fill is Some {
            subpaths(paths[k].subpaths@).len()
        } else {
            0
        }) + (if paths[k].stroke is Some {
            stroke_count(subpaths(paths[k].subpaths@))
        } else {
            0
        }),
        points_upto(paths, k + 1) == points_upto(paths, k) + (if paths[k].fill is Some {
            total_points(subpaths(paths[k].subpaths@))
        } else {
            0
        }),
        fillable_upto(paths, k + 1) <==> fillable_upto(paths, k) && (paths[k].fill is Some
            ==> all_nonempty(subpaths(paths[k].subpaths@))),
{
    reveal(items_upto);
    reveal(points_upto);
    reveal(fillable_upto);
    let next = paths.take(k + 1);
    let path = paths[k];
    let flat = subpaths(path.subpaths@);
    assert(next.drop_last() =~= paths.take(k));
    assert(next.last() == path);
    lemma_points_needed_concat(scene_additions(paths.take(k)), path.additions());
    lemma_points_needed_concat(path.fills(), path.strokes());
    if let Some(rgba) = path.fill {
        lemma_fill_needs(flat, rgba);
    } else {
        assert(points_needed(path.fills()) == 0);
    }
    if let Some(stroke) = path.stroke {
        lemma_stroke_needs(flat, stroke.width, stroke.rgba);
        lemma_stroke_count(flat, stroke.width, stroke.rgba);
    } else {
        assert(points_needed(path.strokes()) == 0);
    }
}

/// All paths need what the scene needs.
proof fn lemma_budget_end(paths: Seq<StyledPath>)
    ensures
        items_upto(paths, paths.len() as int) == scene_additions(paths).len(),
        points_upto(paths, paths.len() as int) == points_needed(scene_additions(paths)),
        fillable_upto(paths, paths.len() as int) == fills_nonempty(scene_additions(paths)),
{
    reveal(items_upto);
    reveal(points_upto);
    reveal(fillable_upto);
    assert(paths.take(paths.len() as int) =~= paths);
}

/// The sum of two saturated counts, saturated.
fn saturating_sum(a: usize, b: usize) -> (r: usize)
    ensures
        r == saturated((a + b) as nat),
{
    if b > usize::MAX - a {
        usize::MAX
    } else {
        a + b
    }
}

/// Points that the subpaths have together, saturated, and whether each has
/// one.
fn fill_budget(flattened: &Vec<Vec<Point>>) -> (r: (usize, bool))
    ensures
        r.0 == saturated(total_points(subpaths(flattened@))),
        r.1 == all_nonempty(subpaths(flattened@)),
{
    let ghost paths = subpaths(flattened@);
    let mut points: usize = 0;
    let mut nonempty = true;
    let mut k: usize = 0;
    assert(paths.take(0) =~= Seq::empty());
    while k < flattened.len()
        invariant
            k <= flattened@.len(),
            paths == subpaths(flattened@),
            points == saturated(total_points(paths.take(k as int))),
            nonempty == all_nonempty(paths.take(k as int)),
        decreases flattened@.len() - k,
    {
        let n = flattened[k].len();
        proof {
            let next = paths.take(k + 1);
            let cur = paths.take(k as int);
            assert(next.drop_last() =~= cur);
            assert(next.last() == paths[k as int]);
            if all_nonempty(next) {
                assert forall|i: int| 0 <= i < cur.len() implies (#[trigger] cur[i]).len() >= 1 by {
                    assert(next[i] == cur[i]);
                }
                assert(next[k as int].len() >= 1);
            }
            if all_nonempty(cur) && n >= 1 {
                assert forall|i: int| 0 <= i < next.len() implies (#[trigger] next[i]).len()
                    >= 1 by {
                    if i < k {
                        assert(next[i] == cur[i]);
                    }
                }
            }
        }
        points = saturating_sum(points, n);
        nonempty = nonempty && n >= 1;
        k += 1;
    }
    assert(paths.take(k as int) =~= paths);
    (points, nonempty)
}

/// What the scene of these paths needs of the encoder.
pub fn scene_budget(paths: &Vec<StyledPath>) -> (b: Budget)
    ensures
        b.items == saturated(scene_additions(paths@).len()),
        b.points == saturated(points_needed(scene_additions(paths@))),
        b.fillable == fills_nonempty(scene_additions(paths@)),
{
    let mut items: usize = 0;
    let mut points: usize = 0;
    let mut fillable = true;
    let mut k: usize = 0;
    proof {
        lemma_budget_begin(paths@);
    }
    while k < paths.len()
        invariant
            k <= paths@.len(),
            items == saturated(items_upto(paths@, k as int)),
            points == saturated(points_upto(paths@, k as int)),
            fillable == fillable_upto(paths@, k as int),
        decreases paths@.len() - k,
    {
        let path = &paths[k];
        proof {
            lemma_budget_step(paths@, k as int);
        }
        if path.fill.is_some() {
            let (n, nonempty) = fill_budget(&path.subpaths);
            items = saturating_sum(items, count_fill_items(&path.subpaths));
            points = saturating_sum(points, n);
            fillable = fillable && nonempty;
        }
        if path.stroke.is_some() {
            items = saturating_sum(items, count_stroke_items(&path.subpaths));
        }
        k += 1;
    }
    proof {
        lemma_budget_end(paths@);
    }
    Budget { items, points, fillable }
}

/// Whether `make_test_scene` may be called now with these paths.
pub fn can_make_test_scene(encoder: &Encoder, paths: &Vec<StyledPath>) -> (ok: bool)
    ensures
        ok == (encoder@.can_begin(scene_additions(paths@).len()) && encoder@.begin(
            scene_additions(paths@).len(),
        ).admits_all(scene_additions(paths@))),
{
    let ghost adds = scene_additions(paths@);
    let budget = scene_budget(paths);
    if !encoder.can_begin_group(budget.items) {
        return false;
    }
    proof {
        lemma_begin(encoder@, adds.len());
        lemma_admits_all(encoder@.begin(adds.len()), adds);
    }
    if !budget.fillable {
        return false;
    }
    if budget.points == 0 {
        return true;
    }
    let cap = encoder.buf.len();
    let limit = if cap < MAX_OFFSET {
        cap
    } else {
        MAX_OFFSET
    };
    let cursor = encoder.free_space + GROUP_HEADER_SIZE + budget.items * (BBOX_SIZE + ITEM_SIZE);
    budget.points <= (limit - cursor) / POINT_SIZE
}

/// Encodes the scene of these paths as one group: counts the items that the
/// paths add, opens a group for as many, fills and strokes path after path,
/// and closes the group.
pub fn make_test_scene(encoder: &mut Encoder, paths: &Vec<StyledPath>)
    requires
        old(encoder)@.can_begin(scene_additions(paths@).len()),
        old(encoder)@.begin(scene_additions(paths@).len()).admits_all(scene_additions(paths@)),
    ensures
        final(encoder)@ == old(encoder)@.begin(scene_additions(paths@).len()).apply_all(
            scene_additions(paths@),
        ).end(),
        final(encoder)@.wf(),
        final(final(encoder).buf)@ == final(old(encoder).buf)@,
{
    let ghost adds = scene_additions(paths@);
    let ghost start = old(encoder)@.begin(adds.len());
    let budget = scene_budget(paths);
    encoder.begin_group(budget.items);
    proof {
        lemma_scene_begin(start, paths@);
    }
    let mut k: usize = 0;
    while k < paths.len()
        invariant
            k <= paths@.len(),
            scene_admitted(start, paths@),
            encoder@ == scene_done(start, paths@, k as int),
            encoder@.wf(),
            final(encoder.buf)@ == final(old(encoder).buf)@,
        decreases paths@.len() - k,
    {
        let path = &paths[k];
        proof {
            lemma_scene_step(start, paths@, k as int);
        }
        match path.fill {
            Some(rgba) => {
                encode_path(encoder, &path.subpaths, rgba);
            },
            None => {},
        }
        match path.stroke {
            Some(stroke) => {
                encode_path_stroke(encoder, &path.subpaths, stroke.width, stroke.rgba);
            },
            None => {},
        }
        k += 1;
    }
    proof {
        lemma_scene_end(start, paths@);
        lemma_group_capacity(old(encoder)@, adds.len(), adds);
    }
    encoder.end_group();
}

/// The state after the additions of the first `k` paths.
#[verifier::opaque]
spec fn scene_done(s: EncoderState, paths: Seq<StyledPath>, k: int) -> EncoderState {
    s.apply_all(scene_additions(paths.take(k)))
}

/// Whether the encoder admits the additions of all paths.
#[verifier::opaque]
spec fn scene_admitted(s: EncoderState, paths: Seq<StyledPath>) -> bool {
    s.admits_all(scene_additions(paths))
}

/// An encoder that admits the additions of all paths admits those of the
/// first `k`.
proof fn lemma_scene_admit_prefix(s: EncoderState, paths: Seq<StyledPath>, k: int)
    requires
        s.admits_all(scene_additions(paths)),
        0 <= k <= paths.len(),
    ensures
        s.admits_all(scene_additions(paths.take(k))),
    decreases paths.len(),
{
    if k == paths.len() {
        assert(paths.take(k) =~= paths);
    } else {
        let head = paths.drop_last();
        lemma_concat(s, scene_additions(head), paths.last().additions());
        assert(head.take(k) =~= paths.take(k));
        lemma_scene_admit_prefix(s, head, k);
    }
}

/// Before any path is encoded the encoder is where it started.
proof fn lemma_scene_begin(s: EncoderState, paths: Seq<StyledPath>)
    requires
        s.admits_all(scene_additions(paths)),
    ensures
        scene_admitted(s, paths),
        scene_done(s, paths, 0) == s,
{
    reveal(scene_done);
    reveal(scene_admitted);
    assert(paths.take(0) =~= Seq::empty());
}

/// The polygons of the next path are admitted, then its lines, and adding
/// both leads to the state that counts one path more.
proof fn lemma_scene_step(s: EncoderState, paths: Seq<StyledPath>, k: int)
    requires
        scene_admitted(s, paths),
        0 <= k < paths.len(),
    ensures
        scene_done(s, paths, k).admits_all(paths[k].fills()),
        scene_done(s, paths, k).apply_all(paths[k].fills()).admits_all(paths[k].strokes()),
        scene_done(s, paths, k + 1) == scene_done(s, paths, k).apply_all(
            paths[k].fills(),
        ).apply_all(paths[k].strokes()),
        paths[k].fill is None ==> scene_done(s, paths, k).apply_all(paths[k].fills())
            == scene_done(s, paths, k),
        paths[k].stroke is None ==> scene_done(s, paths, k).apply_all(
            paths[k].fills(),
        ).apply_all(paths[k].strokes()) == scene_done(s, paths, k).apply_all(paths[k].fills()),
{
    reveal(scene_done);
    reveal(scene_admitted);
    let next = paths.take(k + 1);
    let before = scene_additions(paths.take(k));
    let path = paths[k];
    assert(next.drop_last() =~= paths.take(k));
    assert(next.last() == path);
    lemma_scene_admit_prefix(s, paths, k + 1);
    lemma_concat(s, before, path.additions());
    lemma_concat(s.apply_all(before), path.fills(), path.strokes());
}

/// After the last path all additions are made.
proof fn lemma_scene_end(s: EncoderState, paths: Seq<StyledPath>)
    ensures
        scene_done(s, paths, paths.len() as int) == s.apply_all(scene_additions(paths)),
{
    reveal(scene_done);
    assert(paths.take(paths.len() as int) =~= paths);
}

} // verus!
