//! The modal state of a G-code program: what stays in force from one line
//! to the next.

use vstd::prelude::*;

use crate::decimal::Decimal;
use crate::domain::{spec_zero_point, DistanceMode, MotionMode, Plane, Units, Vec3};

verus! {

/// The modes, position and settings in force after the lines parsed so far.
#[derive(Clone, Copy, Debug, PartialEq, Eq)]
pub struct ModalState {
    pub motion: MotionMode,
    pub plane: Plane,
    pub units: Units,
    pub distance: DistanceMode,
    pub position_mm: Vec3,
    pub feed_mm_min: Option<Decimal>,
    pub spindle_rpm: Option<Decimal>,
    pub selected_tool: Option<u32>,
}

/// The state at the start of a program: rapid motion in the XY plane,
/// millimetres, absolute distances, at the origin, with no feed, spindle
/// speed or tool.
pub open spec fn spec_default_state() -> ModalState {
    ModalState {
        motion: MotionMode::Rapid,
        plane: Plane::Xy,
        units: Units::Millimeter,
        distance: DistanceMode::Absolute,
        position_mm: spec_zero_point(),
        feed_mm_min: None,
        spindle_rpm: None,
        selected_tool: None,
    }
}

impl Default for ModalState {
    fn default() -> (r: Self)
        ensures
            r == spec_default_state(),
    {
        ModalState {
            motion: MotionMode::Rapid,
            plane: Plane::Xy,
            units: Units::Millimeter,
            distance: DistanceMode::Absolute,
            position_mm: Vec3::zero(),
            feed_mm_min: None,
            spindle_rpm: None,
            selected_tool: None,
        }
    }
}

} // verus!
