use gcode::number::Number;
use gcode::program::{Direction, Distance, GCode, Program};
use gcode::render::{program2gcode, render_code, RenderError};
use gcode::validate::validate_gcode;

fn n(v: i64) -> Number {
    Number::integer(v)
}

fn d(m: i64, s: u8) -> Number {
    Number::new(m, s).unwrap()
}

fn text_of(x: Number) -> String {
    let mut s = String::new();
    x.write_to(&mut s);
    s
}

fn linear(x: Option<Number>, y: Option<Number>, z: Option<Number>, f: Option<Number>) -> GCode {
    GCode::LinearInterpolation { x, y, z, f }
}

fn render(codes: Vec<GCode>) -> Result<String, RenderError> {
    program2gcode(&Program::from(codes))
}

#[test]
fn number_text_integers() {
    assert_eq!(text_of(n(0)), "0");
    assert_eq!(text_of(n(100)), "100");
    assert_eq!(text_of(n(-2)), "-2");
    assert_eq!(text_of(n(i64::MIN)), "-9223372036854775808");
    assert_eq!(text_of(n(i64::MAX)), "9223372036854775807");
}

#[test]
fn number_text_fractions() {
    assert_eq!(text_of(d(15, 1)), "1.5");
    assert_eq!(text_of(d(150, 2)), "1.5");
    assert_eq!(text_of(d(-5, 1)), "-0.5");
    assert_eq!(text_of(d(1005, 3)), "1.005");
    assert_eq!(text_of(d(1000, 3)), "1");
    assert_eq!(text_of(d(0, 3)), "0");
    assert_eq!(text_of(d(1, 18)), "0.000000000000000001");
}

#[test]
fn number_new_rejects_large_scale() {
    assert!(Number::new(1, 19).is_none());
    assert!(Number::new(1, 18).is_some());
}

#[test]
fn number_equality_across_scales() {
    assert!(d(15, 1).equals(&d(1500, 3)));
    assert!(n(100).equals(&d(1000, 1)));
    assert!(!d(15, 1).equals(&d(16, 1)));
    assert!(!n(i64::MAX).equals(&d(i64::MAX, 18)));
}

#[test]
fn end_to_end_program() {
    let codes = vec![
        GCode::UnitsMillimeters,
        linear(Some(n(0)), Some(n(0)), None, Some(n(100))),
        linear(Some(n(10)), None, None, None),
        GCode::ProgramEnd,
    ];
    assert_eq!(render(codes).unwrap(), "G21\nG1 X0 Y0 F100\nG1 X10\nM20\n");
}

#[test]
fn end_to_end_program_without_y() {
    let codes = vec![
        GCode::UnitsMillimeters,
        linear(Some(n(0)), None, None, Some(n(100))),
        linear(Some(n(10)), None, None, None),
        GCode::ProgramEnd,
    ];
    assert_eq!(render(codes).unwrap(), "G21\nG1 X0 F100\nG1 X10\nM20\n");
}

#[test]
fn empty_moves_render_nothing() {
    let codes = vec![
        GCode::RapidPositioning { x: None, y: None },
        linear(None, None, None, None),
        GCode::RapidPositioning { x: None, y: None },
    ];
    assert_eq!(render(codes).unwrap(), "");
}

#[test]
fn empty_linear_move_needs_no_feedrate() {
    assert_eq!(render(vec![linear(None, None, None, None)]).unwrap(), "");
}

#[test]
fn first_feedrate_is_emitted() {
    let mut last: Option<Number> = None;
    let line = render_code(&linear(Some(n(1)), None, Some(d(25, 1)), Some(n(300))), &mut last);
    assert_eq!(line.unwrap(), "G1 X1 Z2.5 F300\n");
    assert_eq!(last, Some(n(300)));
}

#[test]
fn feedrate_alone_is_emitted() {
    assert_eq!(render(vec![linear(None, None, None, Some(n(50)))]).unwrap(), "G1 F50\n");
}

#[test]
fn missing_feedrate_fails() {
    let r = render(vec![linear(Some(n(1)), Some(n(2)), Some(n(3)), None)]);
    assert_eq!(r, Err(RenderError::MissingFeedrate));
    let r = render(vec![linear(None, None, Some(n(3)), None)]);
    assert_eq!(r, Err(RenderError::MissingFeedrate));
}

#[test]
fn missing_feedrate_after_other_lines() {
    let codes = vec![GCode::UnitsInches, GCode::RapidPositioning { x: Some(n(1)), y: None }, linear(Some(n(1)), None, None, None)];
    assert_eq!(render(codes), Err(RenderError::MissingFeedrate));
}

#[test]
fn missing_feedrate_leaves_state() {
    let mut last: Option<Number> = None;
    let r = render_code(&linear(Some(n(1)), None, None, None), &mut last);
    assert_eq!(r, Err(RenderError::MissingFeedrate));
    assert_eq!(last, None);
}

#[test]
fn equal_feedrate_is_omitted() {
    let codes = vec![
        linear(Some(n(0)), None, None, Some(n(100))),
        linear(Some(n(1)), None, None, Some(d(1000, 1))),
        linear(Some(n(2)), None, None, None),
    ];
    assert_eq!(render(codes).unwrap(), "G1 X0 F100\nG1 X1\nG1 X2\n");
}

#[test]
fn equal_feedrate_updates_state() {
    let mut last: Option<Number> = Some(n(100));
    let r = render_code(&linear(Some(n(1)), None, None, Some(d(1000, 1))), &mut last);
    assert_eq!(r.unwrap(), "G1 X1\n");
    assert_eq!(last, Some(d(1000, 1)));
}

#[test]
fn changed_feedrate_is_emitted_but_not_kept() {
    let codes = vec![
        linear(Some(n(0)), None, None, Some(n(100))),
        linear(Some(n(1)), None, None, Some(n(200))),
        linear(Some(n(2)), None, None, Some(n(200))),
        linear(Some(n(3)), None, None, Some(n(100))),
    ];
    assert_eq!(
        render(codes).unwrap(),
        "G1 X0 F100\nG1 X1 F200\nG1 X2 F200\nG1 X3\n"
    );
    let mut last: Option<Number> = Some(n(100));
    let r = render_code(&linear(None, Some(n(4)), None, Some(n(200))), &mut last);
    assert_eq!(r.unwrap(), "G1 Y4 F200\n");
    assert_eq!(last, Some(n(100)));
}

#[test]
fn fixed_codes() {
    let codes = vec![
        GCode::RapidPositioning { x: Some(d(15, 1)), y: Some(n(-2)) },
        GCode::RapidPositioning { x: None, y: Some(n(7)) },
        GCode::Dwell { p: d(5, 1) },
        GCode::UnitsInches,
        GCode::UnitsMillimeters,
        GCode::StartSpindle { d: Direction::Clockwise, s: n(1200) },
        GCode::StartSpindle { d: Direction::AntiClockwise, s: n(800) },
        GCode::StopSpindle,
        GCode::DistanceMode(Distance::Absolute),
        GCode::DistanceMode(Distance::Incremental),
        GCode::ProgramEnd,
    ];
    assert_eq!(
        render(codes).unwrap(),
        "G0 X1.5 Y-2\nG0 Y7\nG4 P0.5\nG20\nG21\nM3 S1200\nM4 S800\nM5\nG90\nG91\nM20\n"
    );
}

#[test]
fn comment_and_raw() {
    let codes = vec![
        GCode::Comment(Box::new(String::from("tool change"))),
        GCode::Raw(Box::new(String::from("T1 M6"))),
    ];
    assert_eq!(render(codes).unwrap(), "(tool change)\nT1 M6\n");
}

#[test]
fn merge_moves_all() {
    let mut a = Program::from(vec![GCode::UnitsInches, GCode::StopSpindle]);
    let mut b = Program::new();
    b.push(GCode::ProgramEnd);
    b.push(GCode::UnitsMillimeters);
    a.merge(&mut b);
    assert_eq!(b.len(), 0);
    assert_eq!(
        a.as_slice(),
        &[GCode::UnitsInches, GCode::StopSpindle, GCode::ProgramEnd, GCode::UnitsMillimeters][..]
    );
}

#[test]
fn add_assign_moves_all() {
    let mut a = Program::default();
    a.push(GCode::UnitsInches);
    a += Program::from(vec![GCode::ProgramEnd]);
    assert_eq!(a.as_slice(), &[GCode::UnitsInches, GCode::ProgramEnd][..]);
}

#[test]
fn rendered_program_is_valid() {
    let codes = vec![
        GCode::UnitsMillimeters,
        GCode::DistanceMode(Distance::Absolute),
        GCode::Comment(Box::new(String::from("start (here)"))),
        GCode::StartSpindle { d: Direction::Clockwise, s: n(1000) },
        GCode::RapidPositioning { x: Some(d(-125, 2)), y: Some(n(3)) },
        linear(Some(n(0)), Some(n(0)), Some(d(-1, 1)), Some(n(100))),
        linear(Some(n(10)), None, None, Some(n(150))),
        GCode::Dwell { p: n(2) },
        GCode::StopSpindle,
        GCode::ProgramEnd,
    ];
    let out = render(codes).unwrap();
    assert!(validate_gcode(&out.as_str()));
}

#[test]
fn validator_examples() {
    assert!(validate_gcode(&"G0 X1.5 Y-2"));
    assert!(!validate_gcode(&"G0 X"));
    assert!(validate_gcode(&"(a comment)"));
    assert!(validate_gcode(&"%"));
}

#[test]
fn validator_checks_each_line_alone() {
    assert!(validate_gcode(&"G0 X1.5\nY-2"));
    assert!(!validate_gcode(&"G0 X1.5\nY-"));
    assert!(!validate_gcode(&"G0 X1.5\n y2"));
}

#[test]
fn validator_edge_cases() {
    assert!(validate_gcode(&""));
    assert!(validate_gcode(&"G0\n\nG1 X1\n"));
    assert!(validate_gcode(&"G0 X1\r\nG1 Y2\r\n"));
    assert!(validate_gcode(&"G0X1Y+2"));
    assert!(validate_gcode(&"X1. Y2.25\t"));
    assert!(validate_gcode(&"^3"));
    assert!(validate_gcode(&"(a)X)"));
    assert!(validate_gcode(&"%(x)G1"));
    assert!(!validate_gcode(&" G0"));
    assert!(!validate_gcode(&"  "));
    assert!(!validate_gcode(&"g0"));
    assert!(!validate_gcode(&"G-"));
    assert!(!validate_gcode(&"(open"));
    assert!(!validate_gcode(&"X.5"));
    assert!(!validate_gcode(&"G0 X1\rY2"));
}

#[test]
fn supported_scales() {
    assert!(GCode::Dwell { p: d(5, 18) }.supported());
    assert!(!GCode::Dwell { p: Number { mantissa: 5, scale: 19 } }.supported());
    assert!(!linear(None, None, None, Some(Number { mantissa: 1, scale: 40 })).supported());
    assert!(GCode::StopSpindle.supported());
}

#[test]
fn program_reads_as_slice() {
    let p = Program::from(vec![GCode::UnitsInches, GCode::ProgramEnd]);
    assert_eq!(p.iter().count(), 2);
    assert_eq!(p[1], GCode::ProgramEnd);
    assert_eq!(p.len(), 2);
}

#[test]
fn rendered_program_with_raw_lines_is_valid() {
    let codes = vec![
        GCode::Raw(Box::new(String::from("T1 M6\nG43 H1"))),
        GCode::Raw(Box::new(String::from(""))),
        linear(Some(n(1)), None, None, Some(n(60))),
    ];
    let out = render(codes).unwrap();
    assert_eq!(out, "T1 M6\nG43 H1\n\nG1 X1 F60\n");
    assert!(validate_gcode(&out.as_str()));
}
