//! The stable CNC domain vocabulary: planes, units, modes, points and the
//! canonical commands that the parser hands to motion planning.

use vstd::prelude::*;

use crate::decimal::{fits_i128, Decimal};

verus! {

pub const AUTHOR: &'static str = "Amir Mobasheraghdam";

pub const PRODUCT_NAME: &'static str = "OrangeCNC Studio";

/// A point or offset in millimetres.
#[derive(Clone, Copy, Debug, PartialEq, Eq)]
pub struct Vec3 {
    pub x: Decimal,
    pub y: Decimal,
    pub z: Decimal,
}

impl Vec3 {
    pub fn new(x: Decimal, y: Decimal, z: Decimal) -> (r: Vec3)
        ensures
            r == (Vec3 { x, y, z }),
    {
        Vec3 { x, y, z }
    }

    /// The origin.
    pub fn zero() -> (r: Vec3)
        ensures
            r == spec_zero_point(),
    {
        Vec3 { x: Decimal::zero(), y: Decimal::zero(), z: Decimal::zero() }
    }
}

/// The origin, with each coordinate written as `0`.
pub open spec fn spec_zero_point() -> Vec3 {
    let z = Decimal { mantissa: 0, scale: 0 };
    Vec3 { x: z, y: z, z: z }
}

/// The working plane of arcs.
#[derive(Clone, Copy, Debug, PartialEq, Eq, Structural)]
pub enum Plane {
    Xy,
    Xz,
    Yz,
}

/// The length unit of the values in a program.
#[derive(Clone, Copy, Debug, PartialEq, Eq, Structural)]
pub enum Units {
    Inch,
    Millimeter,
}

/// Whether coordinates are absolute or relative to the current position.
#[derive(Clone, Copy, Debug, PartialEq, Eq, Structural)]
pub enum DistanceMode {
    Absolute,
    Incremental,
}

/// The modal motion of `G0` to `G3`.
#[derive(Clone, Copy, Debug, PartialEq, Eq, Structural)]
pub enum MotionMode {
    Rapid,
    Linear,
    ArcClockwise,
    ArcCounterClockwise,
}

impl Default for Plane {
    fn default() -> (r: Self)
        ensures
            r == Plane::Xy,
    {
        Plane::Xy
    }
}

impl Default for Units {
    fn default() -> (r: Self)
        ensures
            r == Units::Millimeter,
    {
        Units::Millimeter
    }
}

impl Default for DistanceMode {
    fn default() -> (r: Self)
        ensures
            r == DistanceMode::Absolute,
    {
        DistanceMode::Absolute
    }
}

impl Default for MotionMode {
    fn default() -> (r: Self)
        ensures
            r == MotionMode::Rapid,
    {
        MotionMode::Rapid
    }
}

/// `value` in `units`, converted to millimetres: an inch is 25.4 mm.
pub open spec fn spec_to_mm(units: Units, value: Decimal) -> Decimal {
    match units {
        Units::Millimeter => value,
        Units::Inch => Decimal { mantissa: (value.mantissa * 254) as i128, scale: (value.scale + 1) as u32 },
    }
}

/// The conversion of `value` to millimetres fits the representation.
pub open spec fn convertible(units: Units, value: Decimal) -> bool {
    units == Units::Millimeter || (fits_i128(value.mantissa * 254) && value.scale < u32::MAX)
}

impl Units {
    /// Converts a value in these units to millimetres.
    pub fn to_mm(self, value: Decimal) -> (r: Decimal)
        requires
            convertible(self, value),
        ensures
            r == spec_to_mm(self, value),
    {
        match self {
            Units::Millimeter => value,
            Units::Inch => Decimal { mantissa: value.mantissa * 254, scale: value.scale + 1 },
        }
    }
}

/// How an arc's centre is given: by offsets from its start, or by a radius
/// whose sign selects the major arc when negative.
#[derive(Clone, Copy, Debug, PartialEq, Eq)]
pub enum ArcDefinition {
    CenterOffset { i: Decimal, j: Decimal, k: Decimal },
    Radius(Decimal),
}

/// One machine-independent command.
#[derive(Clone, Debug, PartialEq)]
pub enum CanonicalCommand {
    Move {
        mode: MotionMode,
        plane: Plane,
        start: Vec3,
        end: Vec3,
        arc: Option<ArcDefinition>,
        feed_mm_min: Option<Decimal>,
    },
    Spindle { enabled: bool, clockwise: bool, rpm: Option<Decimal> },
    SelectTool(u32),
    ToolChange,
    ProgramEnd,
    Comment(String),
    NoOp,
}

/// A canonical command with the text of a comment as a sequence.
pub enum CommandView {
    Move {
        mode: MotionMode,
        plane: Plane,
        start: Vec3,
        end: Vec3,
        arc: Option<ArcDefinition>,
        feed_mm_min: Option<Decimal>,
    },
    Spindle { enabled: bool, clockwise: bool, rpm: Option<Decimal> },
    SelectTool(u32),
    ToolChange,
    ProgramEnd,
    Comment(Seq<char>),
    NoOp,
}

impl View for CanonicalCommand {
    type V = CommandView;

    open spec fn view(&self) -> CommandView {
        match self {
            CanonicalCommand::Move { mode, plane, start, end, arc, feed_mm_min } => CommandView::Move {
                mode: *mode,
                plane: *plane,
                start: *start,
                end: *end,
                arc: *arc,
                feed_mm_min: *feed_mm_min,
            },
            CanonicalCommand::Spindle { enabled, clockwise, rpm } => CommandView::Spindle {
                enabled: *enabled,
                clockwise: *clockwise,
                rpm: *rpm,
            },
            CanonicalCommand::SelectTool(t) => CommandView::SelectTool(*t),
            CanonicalCommand::ToolChange => CommandView::ToolChange,
            CanonicalCommand::ProgramEnd => CommandView::ProgramEnd,
            CanonicalCommand::Comment(s) => CommandView::Comment(s@),
            CanonicalCommand::NoOp => CommandView::NoOp,
        }
    }
}

/// The views of a sequence of commands.
pub open spec fn command_views(v: Seq<CanonicalCommand>) -> Seq<CommandView> {
    v.map_values(|c: CanonicalCommand| c@)
}

/// The errors of the CNC pipeline, by stage.
#[derive(Clone, Debug, PartialEq)]
pub enum CncError {
    Parser(String),
    Geometry(String),
    Machine(String),
}

impl CncError {
    /// The message of the error: its stage, a colon and its text.
    pub open spec fn spec_message(&self) -> Seq<char> {
        match self {
            CncError::Parser(s) => "Parserfehler: "@ + s@,
            CncError::Geometry(s) => "Geometriefehler: "@ + s@,
            CncError::Machine(s) => "Maschinenfehler: "@ + s@,
        }
    }

    /// The message of the error, as [`CncError::spec_message`] says.
    pub fn message(&self) -> (r: String)
        ensures
            r@ == self.spec_message(),
    {
        match self {
            CncError::Parser(s) => {
                let mut r = "Parserfehler: ".to_owned();
                r.append(s.as_str());
                r
            },
            CncError::Geometry(s) => {
                let mut r = "Geometriefehler: ".to_owned();
                r.append(s.as_str());
                r
            },
            CncError::Machine(s) => {
                let mut r = "Maschinenfehler: ".to_owned();
                r.append(s.as_str());
                r
            },
        }
    }
}

} // verus!
