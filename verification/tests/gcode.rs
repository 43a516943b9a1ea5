use orangecnc::decimal::Decimal;
use orangecnc::domain::{
    ArcDefinition, CanonicalCommand, CncError, DistanceMode, MotionMode, Plane, Units, Vec3,
};
use orangecnc::lexer::{lex_line, LexError, Token, Word};
use orangecnc::modal::ModalState;
use orangecnc::parser::Parser;

fn f(d: &Decimal) -> f64 {
    d.mantissa as f64 / 10f64.powi(d.scale as i32)
}

fn dec(mantissa: i128, scale: u32) -> Decimal {
    Decimal::new(mantissa, scale)
}

fn point(x: f64, y: f64, z: f64) -> (f64, f64, f64) {
    (x, y, z)
}

fn as_point(p: &Vec3) -> (f64, f64, f64) {
    (f(&p.x), f(&p.y), f(&p.z))
}

#[test]
fn compact_words_are_lexed() {
    let tokens = lex_line("G1X12.5Y-3.25F1200").unwrap();
    assert_eq!(tokens.len(), 4);
}

#[test]
fn semicolon_comment_ends_line() {
    let tokens = lex_line("G1 X10 ; Schlichtgang").unwrap();
    assert!(matches!(tokens.last(), Some(Token::Comment(c)) if c == "Schlichtgang"));
}

#[test]
fn parses_compact_absolute_motion() {
    let mut parser = Parser::new();
    parser.parse_line("G21G90G1X10Y20F1200").unwrap();
    assert_eq!(as_point(&parser.state().position_mm), point(10.0, 20.0, 0.0));
    assert_eq!(parser.state().feed_mm_min.map(|v| f(&v)), Some(1200.0));
}

#[test]
fn converts_inches_to_mm() {
    let mut parser = Parser::new();
    parser.parse_line("G20 G90 G1 X1").unwrap();
    assert!((f(&parser.state().position_mm.x) - 25.4).abs() < 1e-9);
}

#[test]
fn incremental_mode_accumulates() {
    let mut parser = Parser::new();
    parser.parse_line("G90 G1 X10").unwrap();
    parser.parse_line("G91 G1 X2.5").unwrap();
    assert_eq!(f(&parser.state().position_mm.x), 12.5);
}

#[test]
fn lexed_words_keep_exact_values() {
    let tokens = lex_line("g1x12.5y-3.25f1200").unwrap();
    let words: Vec<Word> = tokens
        .iter()
        .map(|t| match t {
            Token::Word(w) => *w,
            Token::Comment(_) => panic!("no comment expected"),
        })
        .collect();
    assert_eq!(
        words,
        vec![
            Word { address: 'G', value: dec(1, 0) },
            Word { address: 'X', value: dec(125, 1) },
            Word { address: 'Y', value: dec(-325, 2) },
            Word { address: 'F', value: dec(1200, 0) },
        ]
    );
}

#[test]
fn spaced_and_compact_lex_alike() {
    assert_eq!(lex_line("G1 X10 Y5").unwrap(), lex_line("G1X10Y5").unwrap());
}

#[test]
fn parenthesis_comment_is_trimmed_and_lexing_goes_on() {
    let tokens = lex_line("%G0 ( Eilgang ) X5").unwrap();
    assert_eq!(tokens.len(), 3);
    assert!(matches!(&tokens[1], Token::Comment(c) if c == "Eilgang"));
    assert_eq!(tokens[2], Token::Word(Word { address: 'X', value: dec(5, 0) }));
}

#[test]
fn lex_errors_are_reported() {
    assert_eq!(lex_line("G1 X"), Err(LexError::MissingValue('X')));
    assert_eq!(lex_line("G1 X-."), Err(LexError::MissingValue('X')));
    assert_eq!(lex_line("G1 #5"), Err(LexError::InvalidCharacter('#')));
    assert_eq!(lex_line("G1 (offen"), Err(LexError::UnclosedComment));
}

#[test]
fn long_numbers_are_read() {
    assert_eq!(
        lex_line("X1234567890123456789"),
        Ok(vec![Token::Word(Word { address: 'X', value: dec(1234567890123456789, 0) })])
    );
    assert_eq!(
        lex_line("X1000000000000000000"),
        Ok(vec![Token::Word(Word { address: 'X', value: dec(1000000000000000000, 0) })])
    );
    // Digits after the point beyond the thirtieth are dropped.
    assert_eq!(
        lex_line("Y0.12345678901234567890123456789012"),
        Ok(vec![Token::Word(Word {
            address: 'Y',
            value: dec(123456789012345678901234567890, 30)
        })])
    );
    // A fraction digit that would take the mantissa to 10^34 is dropped, and
    // so is every later one.
    assert_eq!(
        lex_line("Z-12345678901234567890.123456789012345"),
        Ok(vec![Token::Word(Word {
            address: 'Z',
            value: dec(-1234567890123456789012345678901234, 14)
        })])
    );
    // An integer part of 10^34 or more becomes the largest mantissa below it.
    assert_eq!(
        lex_line("X123456789012345678901234567890123456.5"),
        Ok(vec![Token::Word(Word { address: 'X', value: dec(9999999999999999999999999999999999, 0) })])
    );
}

#[test]
fn lex_error_messages() {
    assert_eq!(LexError::MissingValue('X').message(), "Nach Adresse X fehlt ein Wert");
    assert_eq!(
        LexError::InvalidNumber('Y', "99".to_string()).message(),
        "Ungültige Zahl bei Adresse Y: 99"
    );
    assert_eq!(LexError::InvalidCharacter('#').message(), "Ungültiges Zeichen: #");
    assert_eq!(LexError::UnclosedComment.message(), "Kommentar wurde nicht geschlossen");
}

#[test]
fn parse_line_reports_lex_errors_and_keeps_state() {
    let mut parser = Parser::new();
    parser.parse_line("G1 X5").unwrap();
    let err = parser.parse_line("G0 X1 #").unwrap_err();
    assert_eq!(err, "Ungültiges Zeichen: #");
    assert_eq!(parser.state().motion, MotionMode::Linear);
    assert_eq!(f(&parser.state().position_mm.x), 5.0);
}

#[test]
fn non_integer_g_code_is_rejected_after_earlier_codes() {
    let mut parser = Parser::new();
    let err = parser.parse_line("G91 G1.5 X3").unwrap_err();
    assert_eq!(err, "Nicht ganzzahliger G/M-Code wird noch nicht unterstützt: 1.5");
    assert_eq!(parser.state().distance, DistanceMode::Incremental);
    assert_eq!(f(&parser.state().position_mm.x), 0.0);
}

#[test]
fn code_within_tolerance_counts_as_integer() {
    let mut parser = Parser::new();
    parser.parse_line("G1.0000000001 X1").unwrap();
    assert_eq!(parser.state().motion, MotionMode::Linear);
    assert!(parser.parse_line("G1.00000001").is_err());
}

#[test]
fn modal_codes_set_plane_units_and_distance() {
    let mut parser = Parser::new();
    parser.parse_line("G18 G20 G91").unwrap();
    let st = parser.state();
    assert_eq!(st.plane, Plane::Xz);
    assert_eq!(st.units, Units::Inch);
    assert_eq!(st.distance, DistanceMode::Incremental);
    parser.parse_line("G19 G21 G90 G3").unwrap();
    let st = parser.state();
    assert_eq!(st.plane, Plane::Yz);
    assert_eq!(st.units, Units::Millimeter);
    assert_eq!(st.distance, DistanceMode::Absolute);
    assert_eq!(st.motion, MotionMode::ArcCounterClockwise);
}

#[test]
fn empty_line_is_noop() {
    let mut parser = Parser::new();
    let line = parser.parse_line("   ").unwrap();
    assert_eq!(line.commands, vec![CanonicalCommand::NoOp]);
}

#[test]
fn line_commands_come_in_order() {
    let mut parser = Parser::new();
    let line = parser.parse_line("T2 S1000 G1 X10 F300 M6 M3 (Schruppen)").unwrap();
    let zero = dec(0, 0);
    assert_eq!(
        line.commands,
        vec![
            CanonicalCommand::SelectTool(2),
            CanonicalCommand::Move {
                mode: MotionMode::Linear,
                plane: Plane::Xy,
                start: Vec3::new(zero, zero, zero),
                end: Vec3::new(dec(10, 0), zero, zero),
                arc: None,
                feed_mm_min: Some(dec(300, 0)),
            },
            CanonicalCommand::ToolChange,
            CanonicalCommand::Spindle { enabled: true, clockwise: true, rpm: Some(dec(1000, 0)) },
            CanonicalCommand::Comment("Schruppen".to_string()),
        ]
    );
    assert_eq!(line.words.get('G').map(|v| v.clone()), Some(vec![dec(1, 0)]));
    assert_eq!(line.words.last('M'), Some(dec(3, 0)));
    assert!(!line.words.contains_key('Y'));
    assert_eq!(line.words.addresses(), vec!['F', 'G', 'M', 'S', 'T', 'X']);
    assert_eq!(line.words.get('M').map(|v| v.len()), Some(2));
}

#[test]
fn m_codes_end_program_and_stop_spindle() {
    let mut parser = Parser::new();
    let line = parser.parse_line("M4 M5 M2 M30 M99").unwrap();
    assert_eq!(
        line.commands,
        vec![
            CanonicalCommand::Spindle { enabled: true, clockwise: false, rpm: None },
            CanonicalCommand::Spindle { enabled: false, clockwise: true, rpm: None },
            CanonicalCommand::ProgramEnd,
            CanonicalCommand::ProgramEnd,
        ]
    );
}

#[test]
fn tool_is_rounded_and_negative_tool_is_ignored() {
    let mut parser = Parser::new();
    parser.parse_line("T2.5").unwrap();
    assert_eq!(parser.state().selected_tool, Some(3));
    let line = parser.parse_line("T-1").unwrap();
    assert_eq!(parser.state().selected_tool, Some(3));
    assert_eq!(line.commands, vec![CanonicalCommand::SelectTool(3)]);
}

#[test]
fn arcs_carry_radius_or_offsets() {
    let mut parser = Parser::new();
    let line = parser.parse_line("G2 X10 R5").unwrap();
    match &line.commands[0] {
        CanonicalCommand::Move { mode, arc, .. } => {
            assert_eq!(*mode, MotionMode::ArcClockwise);
            assert_eq!(*arc, Some(ArcDefinition::Radius(dec(5, 0))));
        },
        other => panic!("unexpected {:?}", other),
    }
    let line = parser.parse_line("G20 G3 X0 J1").unwrap();
    match &line.commands[0] {
        CanonicalCommand::Move { arc: Some(ArcDefinition::CenterOffset { i, j, k }), .. } => {
            assert_eq!(f(i), 0.0);
            assert!((f(j) - 25.4).abs() < 1e-9);
            assert_eq!(f(k), 0.0);
        },
        other => panic!("unexpected {:?}", other),
    }
}

#[test]
fn feed_is_converted_with_units_of_the_line() {
    let mut parser = Parser::new();
    parser.parse_line("G20 F10").unwrap();
    assert_eq!(parser.state().feed_mm_min, Some(dec(2540, 1)));
}

#[test]
fn parse_program_splits_lines_and_stops_at_first_error() {
    let mut parser = Parser::new();
    let lines = parser.parse_program("G0 X1\r\nG1 Y2\n\nM30\n").unwrap();
    assert_eq!(lines.len(), 4);
    assert_eq!(lines[2].commands, vec![CanonicalCommand::NoOp]);
    assert_eq!(as_point(&parser.state().position_mm), point(1.0, 2.0, 0.0));

    let mut parser = Parser::new();
    let err = parser.parse_program("G1 X3\nG1 (offen\nG1 X9").unwrap_err();
    assert_eq!(err, "Kommentar wurde nicht geschlossen");
    assert_eq!(f(&parser.state().position_mm.x), 3.0);
}

#[test]
fn reset_restores_defaults() {
    let mut parser = Parser::new();
    parser.parse_line("G91 G20 G2 X1 F5 S100 T4").unwrap();
    parser.reset();
    assert_eq!(*parser.state(), ModalState::default());
    assert_eq!(parser.state().motion, MotionMode::Rapid);
    assert_eq!(parser.state().selected_tool, None);
}

#[test]
fn decimal_text_and_arithmetic() {
    assert_eq!(dec(-150, 2).to_text(), "-1.5");
    assert_eq!(dec(5, 3).to_text(), "0.005");
    assert_eq!(dec(1200, 0).to_text(), "1200");
    assert_eq!(dec(100, 2).to_text(), "1");
    assert_eq!(dec(125, 1).rounded_add(&dec(5, 2)), dec(1255, 2));
    assert_eq!(dec(-125, 1).rounded_add(&dec(5, 2)), dec(-1245, 2));
    assert_eq!(dec(25, 1).round(), (3, false));
    assert_eq!(dec(-25, 1).round(), (-3, false));
    assert_eq!(dec(24, 1).round(), (2, false));
    assert_eq!(dec(70, 1).round(), (7, true));
    assert_eq!(Units::Inch.to_mm(dec(2, 0)), dec(508, 1));
    assert_eq!(Units::Millimeter.to_mm(dec(2, 0)), dec(2, 0));
}

#[test]
fn cnc_error_messages() {
    assert_eq!(CncError::Parser("x".to_string()).message(), "Parserfehler: x");
    assert_eq!(CncError::Geometry("y".to_string()).message(), "Geometriefehler: y");
    assert_eq!(CncError::Machine("z".to_string()).message(), "Maschinenfehler: z");
}

#[test]
fn rounded_sums() {
    let big: i128 = 10_000_000_000_000_000_000_000_000_000_000_000_000;
    // Exact when a shorter form fits the bound.
    assert_eq!(
        dec(9 * big / 10, 36).rounded_add(&dec(2 * big / 10, 36)),
        dec(11 * big / 100, 35)
    );
    // Rounded, halves upward, when no exact form fits.
    assert_eq!(dec(big / 10, 0).rounded_add(&dec(15, 1)), dec(big / 10 + 2, 0));
    assert_eq!(dec(-big / 10, 0).rounded_add(&dec(-15, 1)), dec(-big / 10 - 1, 0));
    // Saturated when not even the integer part fits.
    assert_eq!(dec(big, 0).rounded_add(&dec(big, 0)), dec(big, 0));
    assert_eq!(dec(-big, 0).rounded_add(&dec(-big, 0)), dec(-big, 0));
}

#[test]
fn large_incremental_coordinate_is_rounded() {
    let mut parser = Parser::new();
    parser.parse_line("G20 X999999999999999999").unwrap();
    assert_eq!(parser.state().position_mm.x, dec(999999999999999999 * 254, 1));
    let line = parser.parse_line("G91 X0.000000000000000001").unwrap();
    let end = dec(2539999999999999997460000000000000003, 17);
    assert!(matches!(&line.commands[0], CanonicalCommand::Move { end: e, .. } if e.x == end));
    assert_eq!(parser.state().position_mm.x, end);
}

#[test]
fn decimals_compare_by_value() {
    assert_eq!(dec(10, 0), dec(100, 1));
    assert_eq!(dec(-25, 1), dec(-2500, 3));
    assert_eq!(dec(0, 0), dec(0, 30));
    assert_ne!(dec(1, 0), dec(11, 1));
    assert_ne!(dec(1, 0), dec(1, 40));
    assert_ne!(dec(i128::MAX, 0), dec(i128::MAX, 1));
    assert_eq!(lex_line("X10"), lex_line("X10.0"));
    let mut a = Parser::new();
    let mut b = Parser::new();
    let la = a.parse_line("G1 X10 Y2.5").unwrap();
    let lb = b.parse_line("G1 X10.000 Y2.50").unwrap();
    assert_eq!(la.commands, lb.commands);
    assert_eq!(a.state(), b.state());
}
