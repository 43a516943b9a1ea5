//! The decisions of motion planning: which canonical commands become
//! straight segments, which become arcs, in which plane frame, and where an
//! arc without a definition stops the plan. The tessellation into segments
//! is floating-point geometry and stays outside the library.

use vstd::prelude::*;

use crate::decimal::Decimal;
use crate::domain::{command_views, ArcDefinition, CanonicalCommand, CommandView, MotionMode, Plane, Vec3};

verus! {

/// How a segment of a toolpath is travelled.
#[derive(Clone, Copy, Debug, PartialEq, Eq, Structural)]
pub enum SegmentKind {
    Rapid,
    Feed,
    Arc,
}

/// One motion to tessellate.
#[derive(Clone, Copy, Debug, PartialEq, Eq)]
pub enum MotionStep {
    /// A straight motion, rapid or at feed.
    Linear { start: Vec3, end: Vec3, kind: SegmentKind, feed_mm_min: Option<Decimal> },
    /// An arc in a plane, with its definition and direction.
    Arc {
        start: Vec3,
        end: Vec3,
        plane: Plane,
        definition: ArcDefinition,
        clockwise: bool,
        feed_mm_min: Option<Decimal>,
    },
}

/// The steps of a program's moves, in order, up to the first arc move
/// without a definition; `missing_arc` says whether the plan stopped there.
#[derive(Clone, Debug, PartialEq, Eq)]
pub struct MovePlan {
    pub steps: Vec<MotionStep>,
    pub missing_arc: bool,
}

/// The step of one command: none for commands other than moves; `Err` for
/// an arc move without a definition.
pub open spec fn step_of(c: CommandView) -> Result<Option<MotionStep>, ()> {
    match c {
        CommandView::Move { mode, plane, start, end, arc, feed_mm_min } => match mode {
            MotionMode::Rapid => Ok(
                Some(MotionStep::Linear { start, end, kind: SegmentKind::Rapid, feed_mm_min }),
            ),
            MotionMode::Linear => Ok(
                Some(MotionStep::Linear { start, end, kind: SegmentKind::Feed, feed_mm_min }),
            ),
            _ => match arc {
                None => Err(()),
                Some(definition) => Ok(
                    Some(
                        MotionStep::Arc {
                            start,
                            end,
                            plane,
                            definition,
                            clockwise: mode == MotionMode::ArcClockwise,
                            feed_mm_min,
                        },
                    ),
                ),
            },
        },
        _ => Ok(None),
    }
}

/// The steps of the commands, in order, and whether an arc move without a
/// definition stopped them.
pub open spec fn plan_spec(cs: Seq<CommandView>) -> (Seq<MotionStep>, bool)
    decreases cs.len(),
{
    if cs.len() == 0 {
        (Seq::empty(), false)
    } else {
        let (steps, stopped) = plan_spec(cs.drop_last());
        if stopped {
            (steps, true)
        } else {
            match step_of(cs.last()) {
                Err(_) => (steps, true),
                Ok(None) => (steps, false),
                Ok(Some(s)) => (steps.push(s), false),
            }
        }
    }
}

proof fn lemma_plan_stopped_sticks(cs: Seq<CommandView>, i: int)
    requires
        0 <= i <= cs.len(),
        plan_spec(cs.take(i)).1,
    ensures
        plan_spec(cs) == plan_spec(cs.take(i)),
    decreases cs.len() - i,
{
    if i < cs.len() {
        assert(cs.take(i + 1).drop_last() =~= cs.take(i));
        lemma_plan_stopped_sticks(cs, i + 1);
    } else {
        assert(cs.take(i) =~= cs);
    }
}

/// Plans the moves of a program, as [`plan_spec`] says.
pub fn plan_moves(commands: &Vec<CanonicalCommand>) -> (r: MovePlan)
    ensures
        (r.steps@, r.missing_arc) == plan_spec(command_views(commands@)),
{
    let ghost cs = command_views(commands@);
    let mut steps: Vec<MotionStep> = Vec::new();
    let mut missing_arc = false;
    let mut i: usize = 0;
    assert(cs.take(0) =~= Seq::<CommandView>::empty());
    while i < commands.len() && !missing_arc
        invariant
            i <= commands@.len(),
            cs == command_views(commands@),
            (steps@, missing_arc) == plan_spec(cs.take(i as int)),
        decreases commands@.len() - i,
    {
        proof {
            assert(cs.take(i + 1).drop_last() =~= cs.take(i as int));
            assert(cs.take(i + 1).last() == commands@[i as int]@);
        }
        match &commands[i] {
            CanonicalCommand::Move { mode, plane, start, end, arc, feed_mm_min } => {
                match mode {
                    MotionMode::Rapid => {
                        steps.push(
                            MotionStep::Linear {
                                start: *start,
                                end: *end,
                                kind: SegmentKind::Rapid,
                                feed_mm_min: *feed_mm_min,
                            },
                        );
                    },
                    MotionMode::Linear => {
                        steps.push(
                            MotionStep::Linear {
                                start: *start,
                                end: *end,
                                kind: SegmentKind::Feed,
                                feed_mm_min: *feed_mm_min,
                            },
                        );
                    },
                    _ => {
                        match arc {
                            None => {
                                missing_arc = true;
                            },
                            Some(definition) => {
                                steps.push(
                                    MotionStep::Arc {
                                        start: *start,
                                        end: *end,
                                        plane: *plane,
                                        definition: *definition,
                                        clockwise: *mode == MotionMode::ArcClockwise,
                                        feed_mm_min: *feed_mm_min,
                                    },
                                );
                            },
                        }
                    },
                }
            },
            _ => {},
        }
        i = i + 1;
    }
    proof {
        if missing_arc {
            lemma_plan_stopped_sticks(cs, i as int);
        } else {
            assert(cs.take(i as int) =~= cs);
        }
    }
    MovePlan { steps, missing_arc }
}

/// The message of an arc move without a definition.
pub open spec fn missing_arc_text() -> Seq<char> {
    "Bogenbewegung ohne Definition"@
}

/// The message of an arc move without a definition.
pub fn missing_arc_message() -> (r: String)
    ensures
        r@ == missing_arc_text(),
{
    "Bogenbewegung ohne Definition".to_owned()
}

// ---------------------------------------------------------------------------
// The frame of a working plane.
// ---------------------------------------------------------------------------

/// The in-plane coordinates `(u, v)` and the coordinate `w` along the axis
/// orthogonal to the plane: XY gives `(x, y, z)`, XZ gives `(x, z, y)` and YZ
/// gives `(y, z, x)`.
pub open spec fn spec_project<T>(plane: Plane, p: (T, T, T)) -> (T, T, T) {
    match plane {
        Plane::Xy => (p.0, p.1, p.2),
        Plane::Xz => (p.0, p.2, p.1),
        Plane::Yz => (p.1, p.2, p.0),
    }
}

/// The point whose plane coordinates are `q`.
pub open spec fn spec_unproject<T>(plane: Plane, q: (T, T, T)) -> (T, T, T) {
    match plane {
        Plane::Xy => (q.0, q.1, q.2),
        Plane::Xz => (q.0, q.2, q.1),
        Plane::Yz => (q.2, q.0, q.1),
    }
}

/// The two centre offsets of an arc that lie in the plane: `(i, j)` for XY,
/// `(i, k)` for XZ and `(j, k)` for YZ.
pub open spec fn spec_center_offsets<T>(plane: Plane, i: T, j: T, k: T) -> (T, T) {
    match plane {
        Plane::Xy => (i, j),
        Plane::Xz => (i, k),
        Plane::Yz => (j, k),
    }
}

/// The frame of a working plane.
#[derive(Clone, Copy, Debug, PartialEq, Eq, Structural)]
pub struct PlaneFrame {
    pub plane: Plane,
}

impl PlaneFrame {
    pub fn from_plane(plane: Plane) -> (r: PlaneFrame)
        ensures
            r.plane == plane,
    {
        PlaneFrame { plane }
    }

    /// A point in plane coordinates, as [`spec_project`] says.
    pub fn project<T: Copy>(self, p: (T, T, T)) -> (r: (T, T, T))
        ensures
            r == spec_project(self.plane, p),
    {
        match self.plane {
            Plane::Xy => (p.0, p.1, p.2),
            Plane::Xz => (p.0, p.2, p.1),
            Plane::Yz => (p.1, p.2, p.0),
        }
    }

    /// The point of plane coordinates, as [`spec_unproject`] says.
    pub fn unproject<T: Copy>(self, q: (T, T, T)) -> (r: (T, T, T))
        ensures
            r == spec_unproject(self.plane, q),
    {
        match self.plane {
            Plane::Xy => (q.0, q.1, q.2),
            Plane::Xz => (q.0, q.2, q.1),
            Plane::Yz => (q.2, q.0, q.1),
        }
    }

    /// The centre offsets in the plane, as [`spec_center_offsets`] says.
    pub fn center_offsets<T: Copy>(self, i: T, j: T, k: T) -> (r: (T, T))
        ensures
            r == spec_center_offsets(self.plane, i, j, k),
    {
        match self.plane {
            Plane::Xy => (i, j),
            Plane::Xz => (i, k),
            Plane::Yz => (j, k),
        }
    }
}

/// Projecting into a plane's frame and back gives the point again, and
/// back then forth gives the plane coordinates again.
pub proof fn law_frame_round_trip<T>(plane: Plane, p: (T, T, T))
    ensures
        spec_unproject(plane, spec_project(plane, p)) == p,
        spec_project(plane, spec_unproject(plane, p)) == p,
{
}

/// The frame of each plane: its two in-plane coordinates are its named axes
/// in the order of its name, and the third coordinate lies on the axis
/// orthogonal to it; XY leaves a point as it is.
pub proof fn law_frame_axes<T>(p: (T, T, T))
    ensures
        spec_project(Plane::Xy, p) == p,
        spec_project(Plane::Xz, p) == (p.0, p.2, p.1),
        spec_project(Plane::Yz, p) == (p.1, p.2, p.0),
        spec_unproject(Plane::Xy, p) == p,
{
}

/// The centre offsets a plane takes from `I`, `J`, `K` are the in-plane
/// coordinates of the offset vector `(I, J, K)` in its frame: the first
/// lies on the first in-plane axis, the second on the second.
pub proof fn law_offsets_follow_frame<T>(plane: Plane, i: T, j: T, k: T)
    ensures
        spec_center_offsets(plane, i, j, k) == (
            spec_project(plane, (i, j, k)).0,
            spec_project(plane, (i, j, k)).1,
        ),
{
}

/// Planning a program that has not stopped, with one more arc move that
/// has a definition, adds one arc step for it: from its start to its end,
/// in its plane, with its definition and feed, clockwise for `G2` and
/// counter-clockwise for `G3`.
pub proof fn law_arc_step_direction(
    cs: Seq<CommandView>,
    mode: MotionMode,
    plane: Plane,
    start: Vec3,
    end: Vec3,
    definition: ArcDefinition,
    feed_mm_min: Option<Decimal>,
)
    requires
        !plan_spec(cs).1,
        mode == MotionMode::ArcClockwise || mode == MotionMode::ArcCounterClockwise,
    ensures
        ({
            let c = CommandView::Move { mode, plane, start, end, arc: Some(definition), feed_mm_min };
            let (steps, stopped) = plan_spec(cs.push(c));
            &&& !stopped
            &&& steps.len() == plan_spec(cs).0.len() + 1
            &&& steps.drop_last() == plan_spec(cs).0
            &&& steps.last() matches MotionStep::Arc {
                start: s,
                end: e,
                plane: pl,
                definition: d,
                clockwise,
                feed_mm_min: f,
            } && s == start && e == end && pl == plane && d == definition && f == feed_mm_min
                && (mode == MotionMode::ArcClockwise ==> clockwise)
                && (mode == MotionMode::ArcCounterClockwise ==> !clockwise)
        }),
{
    let c = CommandView::Move { mode, plane, start, end, arc: Some(definition), feed_mm_min };
    assert(cs.push(c).drop_last() =~= cs);
    assert(cs.push(c).last() == c);
    assert(plan_spec(cs).0.push(plan_spec(cs.push(c)).0.last()).drop_last() =~= plan_spec(cs).0);
}

/// Planning a program that has not stopped, with one more command: a
/// non-move adds nothing; a rapid move adds a rapid line and a linear move
/// a feed line, each from the move's start to its end at its feed; an arc
/// move without a definition stops the plan and adds nothing.
pub proof fn law_plan_one_more(cs: Seq<CommandView>, c: CommandView)
    requires
        !plan_spec(cs).1,
    ensures
        ({
            let (before, _) = plan_spec(cs);
            let (steps, stopped) = plan_spec(cs.push(c));
            match c {
                CommandView::Move { mode, plane, start, end, arc, feed_mm_min } => {
                    if mode == MotionMode::Rapid || mode == MotionMode::Linear {
                        &&& !stopped
                        &&& steps.len() == before.len() + 1
                        &&& steps.drop_last() == before
                        &&& steps.last() matches MotionStep::Linear { start: s, end: e, kind, feed_mm_min: f }
                            && s == start && e == end && f == feed_mm_min
                            && (kind == SegmentKind::Rapid <==> mode == MotionMode::Rapid)
                            && (kind == SegmentKind::Feed <==> mode == MotionMode::Linear)
                    } else if arc is None {
                        stopped && steps == before
                    } else {
                        !stopped && steps.len() == before.len() + 1
                    }
                },
                _ => !stopped && steps == before,
            }
        }),
{
    assert(cs.push(c).drop_last() =~= cs);
    assert(cs.push(c).last() == c);
    assert(plan_spec(cs).0.push(plan_spec(cs.push(c)).0.last()).drop_last() =~= plan_spec(cs).0);
}

} // verus!
