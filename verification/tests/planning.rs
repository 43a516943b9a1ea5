use orangecnc::decimal::Decimal;
use orangecnc::domain::{ArcDefinition, CanonicalCommand, MotionMode, Plane, Vec3};
use orangecnc::motion::{missing_arc_message, plan_moves, MotionStep, PlaneFrame, SegmentKind};
use orangecnc::parser::Parser;
use orangecnc::report::sort_and_dedup;

fn dec(mantissa: i128, scale: u32) -> Decimal {
    Decimal::new(mantissa, scale)
}

fn p(x: i128, y: i128, z: i128) -> Vec3 {
    Vec3::new(dec(x, 0), dec(y, 0), dec(z, 0))
}

fn mv(mode: MotionMode, arc: Option<ArcDefinition>) -> CanonicalCommand {
    CanonicalCommand::Move {
        mode,
        plane: Plane::Xy,
        start: p(0, 0, 0),
        end: p(10, 0, 0),
        arc,
        feed_mm_min: Some(dec(500, 0)),
    }
}

#[test]
fn plan_turns_moves_into_steps_and_skips_other_commands() {
    let commands = vec![
        CanonicalCommand::SelectTool(1),
        mv(MotionMode::Rapid, None),
        CanonicalCommand::Comment("x".to_string()),
        mv(MotionMode::Linear, None),
        mv(MotionMode::ArcCounterClockwise, Some(ArcDefinition::Radius(dec(5, 0)))),
        CanonicalCommand::ProgramEnd,
    ];
    let plan = plan_moves(&commands);
    assert!(!plan.missing_arc);
    assert_eq!(plan.steps.len(), 3);
    assert!(matches!(plan.steps[0], MotionStep::Linear { kind: SegmentKind::Rapid, .. }));
    assert!(matches!(plan.steps[1], MotionStep::Linear { kind: SegmentKind::Feed, .. }));
    assert_eq!(
        plan.steps[2],
        MotionStep::Arc {
            start: p(0, 0, 0),
            end: p(10, 0, 0),
            plane: Plane::Xy,
            definition: ArcDefinition::Radius(dec(5, 0)),
            clockwise: false,
            feed_mm_min: Some(dec(500, 0)),
        }
    );
}

#[test]
fn arc_without_definition_stops_the_plan() {
    let commands = vec![
        mv(MotionMode::Linear, None),
        mv(MotionMode::ArcClockwise, None),
        mv(MotionMode::Rapid, None),
    ];
    let plan = plan_moves(&commands);
    assert!(plan.missing_arc);
    assert_eq!(plan.steps.len(), 1);
    assert_eq!(missing_arc_message(), "Bogenbewegung ohne Definition");
}

#[test]
fn parsed_r_arc_becomes_an_arc_step() {
    let mut parser = Parser::new();
    let lines = parser.parse_program("G17 G3 X10 Y0 R5 F500").unwrap();
    let commands: Vec<CanonicalCommand> = lines.into_iter().flat_map(|l| l.commands).collect();
    let plan = plan_moves(&commands);
    match plan.steps[0] {
        MotionStep::Arc { clockwise, definition, .. } => {
            assert!(!clockwise);
            assert_eq!(definition, ArcDefinition::Radius(dec(5, 0)));
        },
        other => panic!("unexpected {:?}", other),
    }
}

#[test]
fn plane_frame_round_trips() {
    for plane in [Plane::Xy, Plane::Xz, Plane::Yz] {
        let frame = PlaneFrame::from_plane(plane);
        let q = frame.project((1.0, 2.0, 3.0));
        assert_eq!(frame.unproject(q), (1.0, 2.0, 3.0));
    }
    assert_eq!(PlaneFrame::from_plane(Plane::Xz).project((1, 2, 3)), (1, 3, 2));
    assert_eq!(PlaneFrame::from_plane(Plane::Yz).project((1, 2, 3)), (2, 3, 1));
    assert_eq!(PlaneFrame::from_plane(Plane::Yz).unproject((2, 3, 1)), (1, 2, 3));
    assert_eq!(PlaneFrame::from_plane(Plane::Xy).center_offsets(7, 8, 9), (7, 8));
    assert_eq!(PlaneFrame::from_plane(Plane::Xz).center_offsets(7, 8, 9), (7, 9));
    assert_eq!(PlaneFrame::from_plane(Plane::Yz).center_offsets(7, 8, 9), (8, 9));
}

#[test]
fn warnings_are_sorted_without_repeats() {
    let input = vec![
        "Z-Grenze".to_string(),
        "X-Grenze".to_string(),
        "Z-Grenze".to_string(),
        "X-Grenze verletzt".to_string(),
        "Ä".to_string(),
        "Y".to_string(),
    ];
    let mut expected = input.clone();
    expected.sort();
    expected.dedup();
    assert_eq!(sort_and_dedup(input), expected);
    assert_eq!(sort_and_dedup(Vec::new()), Vec::<String>::new());
}
