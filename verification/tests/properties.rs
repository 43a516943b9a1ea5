use orangecnc::domain::CanonicalCommand;
use orangecnc::lexer::lex_line;
use orangecnc::motion::plan_moves;
use orangecnc::parser::Parser;

const DEMO: &str = "; OrangeCNC Demo\nG21 G90\nG0 X20 Y20 Z0\nG1 X100 Y20 F1500\nG2 X100 Y100 I0 J40\nG1 X20 Y100\nG3 X20 Y20 I0 J-40\nM5\nM30\n";

#[test]
fn moves_of_consecutive_lines_connect() {
    let mut parser = Parser::new();
    let lines = parser.parse_program(DEMO).unwrap();
    let mut last_end = None;
    for line in &lines {
        for c in &line.commands {
            if let CanonicalCommand::Move { start, end, .. } = c {
                if let Some(prev) = last_end {
                    assert_eq!(*start, prev);
                }
                last_end = Some(*end);
            }
        }
    }
    assert_eq!(last_end, Some(parser.state().position_mm));
}

#[test]
fn absolute_line_parsed_twice_gives_same_state() {
    let mut parser = Parser::new();
    parser.parse_line("G91 X3").unwrap();
    parser.parse_line("G90 G20 X5 Y3 F100 S200 T1").unwrap();
    let once = *parser.state();
    parser.parse_line("G90 G20 X5 Y3 F100 S200 T1").unwrap();
    assert_eq!(*parser.state(), once);
}

#[test]
fn program_in_parts_equals_program_at_once() {
    let (a, b) = DEMO.split_at(DEMO.find("G2").unwrap());
    let mut whole = Parser::new();
    let all = whole.parse_program(DEMO).unwrap();
    let mut parts = Parser::new();
    let mut lines = parts.parse_program(a).unwrap();
    lines.extend(parts.parse_program(b).unwrap());
    assert_eq!(whole.state(), parts.state());
    assert_eq!(all.len(), lines.len());
    for (x, y) in all.iter().zip(lines.iter()) {
        assert_eq!(x.commands, y.commands);
    }
}

#[test]
fn address_case_is_ignored() {
    assert_eq!(lex_line("g1x10.5y-2").unwrap(), lex_line("G1X10.5Y-2").unwrap());
    assert_eq!(lex_line("g1 x10.5 y-2").unwrap(), lex_line("G1X10.5Y-2").unwrap());
}

#[test]
fn parsed_demo_plans_without_missing_arcs() {
    let mut parser = Parser::new();
    let lines = parser.parse_program(DEMO).unwrap();
    let commands: Vec<CanonicalCommand> = lines.into_iter().flat_map(|l| l.commands).collect();
    let plan = plan_moves(&commands);
    assert!(!plan.missing_arc);
    assert_eq!(plan.steps.len(), 5);
}

#[test]
fn line_without_g_words_keeps_modes() {
    let mut parser = Parser::new();
    parser.parse_line("G2 G18 G20 G91").unwrap();
    let before = *parser.state();
    parser.parse_line("X1 F3 M3").unwrap();
    let after = parser.state();
    assert_eq!(after.motion, before.motion);
    assert_eq!(after.plane, before.plane);
    assert_eq!(after.units, before.units);
    assert_eq!(after.distance, before.distance);
}

#[test]
fn white_space_between_tokens_changes_nothing() {
    let compact = lex_line("G1X10(Schlichten)Y-5.5;Ende");
    assert!(compact.is_ok());
    assert_eq!(lex_line("G1 X10 (Schlichten) Y-5.5 ;Ende"), compact);
    assert_eq!(lex_line("  G1\tX10  (Schlichten)\tY-5.5  ;Ende"), compact);
    assert_eq!(lex_line("G1X10(Schlichten)Y-5.5;Ende   "), compact);
    // Errors stay the same too.
    assert_eq!(lex_line("G1 X #"), lex_line("G1X#"));
}

#[test]
fn exact_sum_found_at_a_shorter_scale() {
    let mut parser = Parser::new();
    parser.parse_line("G91 X9.000000000000000000000000000000").unwrap();
    parser.parse_line("X2.000000000000000000000000000000").unwrap();
    let x = parser.state().position_mm.x;
    assert_eq!(x.mantissa * 10i128.pow(30 - x.scale), 11 * 10i128.pow(30));
}

#[test]
fn program_is_its_lines_in_turn() {
    let mut whole = Parser::new();
    let all = whole.parse_program(DEMO).unwrap();
    let mut single = Parser::new();
    let lines: Vec<&str> = DEMO.lines().collect();
    assert_eq!(all.len(), lines.len());
    for (k, l) in lines.iter().enumerate() {
        let line = single.parse_line(l).unwrap();
        assert_eq!(line.commands, all[k].commands);
    }
    assert_eq!(single.state(), whole.state());

    let faulty = "G1 X5\nG91 X2 Y#\nX7\n";
    let mut whole = Parser::new();
    let err = whole.parse_program(faulty).unwrap_err();
    let mut single = Parser::new();
    single.parse_line("G1 X5").unwrap();
    assert_eq!(single.parse_line("G91 X2 Y#").unwrap_err(), err);
    assert_eq!(single.state(), whole.state());
}

#[test]
fn lines_fail_only_on_lexing_or_g_values() {
    let mut parser = Parser::new();
    assert!(parser.parse_line("M3.5 G1 X1 Q9 G7").is_ok());
    assert!(parser.parse_line("G1.5 X2").is_err());
    assert!(parser.parse_line("X2 #").is_err());
    assert!(parser.parse_line("G91 X99999999999999999999999999999999999999999").is_ok());
}
