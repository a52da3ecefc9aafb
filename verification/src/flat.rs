//! A flattened path as it arrives, event by event, and the subpaths that
//! the events make up.

use vstd::prelude::*;
use crate::geom::Point;
use crate::scene::subpaths;

verus! {

/// One step of a flattened path.
#[derive(Clone, Copy, Debug, PartialEq, Eq, Structural)]
pub enum PathEvent {
    /// Start a new subpath at the point.
    MoveTo(Point),
    /// Go on to the point in a straight line.
    LineTo(Point),
    /// Go back to where the subpath started.
    Close,
}

/// The subpaths after one more event. A move starts a subpath of one point.
/// A line adds its point to the last subpath, and starts one where there is
/// none. A close adds the first point of the last subpath to it, unless the
/// subpath ends there already.
pub open spec fn step(paths: Seq<Seq<Point>>, event: PathEvent) -> Seq<Seq<Point>> {
    match event {
        PathEvent::MoveTo(p) => paths.push(seq![p]),
        PathEvent::LineTo(p) => if paths.len() == 0 {
            paths.push(seq![p])
        } else {
            paths.update(paths.len() - 1, paths.last().push(p))
        },
        PathEvent::Close => if paths.len() > 0 && paths.last().first() != paths.last().last() {
            paths.update(paths.len() - 1, paths.last().push(paths.last().first()))
        } else {
            paths
        },
    }
}

/// The subpaths that the events make up, taken in order.
pub open spec fn assembled(events: Seq<PathEvent>) -> Seq<Seq<Point>>
    decreases events.len(),
{
    if events.len() == 0 {
        Seq::empty()
    } else {
        step(assembled(events.drop_last()), events.last())
    }
}

/// The subpaths so far: those that are finished and, behind them, the one
/// that is being built, if it has a point.
spec fn so_far(done: Seq<Vec<Point>>, current: Seq<Point>) -> Seq<Seq<Point>> {
    if current.len() == 0 {
        subpaths(done)
    } else {
        subpaths(done).push(current)
    }
}

/// Assembles the events of a flattened path into its subpaths.
pub fn subpaths_of(events: &Vec<PathEvent>) -> (r: Vec<Vec<Point>>)
    ensures
        subpaths(r@) == assembled(events@),
{
    let mut done: Vec<Vec<Point>> = Vec::new();
    let mut current: Vec<Point> = Vec::new();
    let mut k: usize = 0;
    assert(events@.take(0) =~= Seq::empty());
    assert(so_far(done@, current@) =~= Seq::empty());
    while k < events.len()
        invariant
            k <= events@.len(),
            current@.len() == 0 ==> done@.len() == 0,
            so_far(done@, current@) == assembled(events@.take(k as int)),
        decreases events@.len() - k,
    {
        let ghost before = so_far(done@, current@);
        let ghost finished = done@;
        let ghost building = current@;
        proof {
            let next = events@.take(k + 1);
            assert(next.drop_last() =~= events@.take(k as int));
            assert(next.last() == events@[k as int]);
        }
        match events[k] {
            PathEvent::MoveTo(p) => {
                if current.len() > 0 {
                    done.push(current);
                    assert(subpaths(done@) =~= subpaths(finished).push(building));
                }
                current = Vec::new();
                current.push(p);
                assert(current@ =~= seq![p]);
                assert(so_far(done@, current@) =~= before.push(seq![p]));
            },
            PathEvent::LineTo(p) => {
                current.push(p);
                proof {
                    if building.len() == 0 {
                        assert(current@ =~= seq![p]);
                        assert(so_far(done@, current@) =~= before.push(seq![p]));
                    } else {
                        assert(so_far(done@, current@) =~= before.update(
                            before.len() - 1,
                            before.last().push(p),
                        ));
                    }
                }
            },
            PathEvent::Close => {
                if current.len() > 0 {
                    let first = current[0];
                    let last = current[current.len() - 1];
                    if first != last {
                        current.push(first);
                        assert(so_far(done@, current@) =~= before.update(
                            before.len() - 1,
                            before.last().push(before.last().first()),
                        ));
                    }
                }
            },
        }
        k += 1;
    }
    assert(events@.take(k as int) =~= events@);
    if current.len() > 0 {
        let ghost finished = done@;
        let ghost building = current@;
        done.push(current);
        assert(subpaths(done@) =~= subpaths(finished).push(building));
    }
    done
}

} // verus!
