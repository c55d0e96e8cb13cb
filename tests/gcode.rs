use gimbal_motion::gcode::{invalid_gcode, Gcode, GcodeParser};

#[test]
fn test_g1_move() {
    let gcode = GcodeParser::of_str("G1 P50 T60").unwrap();
    assert_eq!(gcode, Gcode::G1Move(Some(50_000), Some(60_000)));
}

#[test]
fn test_g28_home() {
    let gcode = GcodeParser::of_str("G28").unwrap();
    assert_eq!(gcode, Gcode::G28Home);
}

#[test]
fn test_m1_set_velocity() {
    let gcode = GcodeParser::of_str("M1 T2000.1  P1000").unwrap();
    assert_eq!(gcode, Gcode::M1SetVelocity(Some(1_000_000), Some(2_000_100)));
}

#[test]
fn unknown_letter_is_rejected_with_the_line() {
    assert_eq!(GcodeParser::of_str("Q1"), Err("invalid gcode: Q1".to_string()));
}

#[test]
fn invalid_gcode_echoes_the_line() {
    assert_eq!(invalid_gcode("G1 Px"), "invalid gcode: G1 Px");
}

#[test]
fn coordinate_modes_parse() {
    assert_eq!(GcodeParser::of_str("G90"), Ok(Gcode::G90SetAbsolute));
    assert_eq!(GcodeParser::of_str("G91"), Ok(Gcode::G91SetRelative));
}

#[test]
fn missing_axes_stay_unset() {
    assert_eq!(GcodeParser::of_str("G1"), Ok(Gcode::G1Move(None, None)));
    assert_eq!(GcodeParser::of_str("M1 P2"), Ok(Gcode::M1SetVelocity(Some(2_000), None)));
}

#[test]
fn keys_in_any_order_and_the_last_repeat_wins() {
    assert_eq!(
        GcodeParser::of_str("G1 T-5 P1.25 P3"),
        Ok(Gcode::G1Move(Some(3_000), Some(-5_000)))
    );
}

#[test]
fn bare_numbers_and_other_keys_are_ignored_after_the_command() {
    assert_eq!(
        GcodeParser::of_str("G1 7 G2 P4"),
        Ok(Gcode::G1Move(Some(4_000), None))
    );
}

#[test]
fn any_whitespace_separates_tokens() {
    assert_eq!(
        GcodeParser::of_str("  G1\tP1\n T2 "),
        Ok(Gcode::G1Move(Some(1_000), Some(2_000)))
    );
}

#[test]
fn decimals_keep_three_places() {
    assert_eq!(
        GcodeParser::of_str("G1 P.5 T-0.0019"),
        Ok(Gcode::G1Move(Some(500), Some(-1)))
    );
    assert_eq!(GcodeParser::of_str("G1 P5."), Ok(Gcode::G1Move(Some(5_000), None)));
    assert_eq!(GcodeParser::of_str("G1 P+2"), Ok(Gcode::G1Move(Some(2_000), None)));
}

#[test]
fn command_number_uses_its_whole_part() {
    assert_eq!(GcodeParser::of_str("G28.7"), Ok(Gcode::G28Home));
    assert_eq!(GcodeParser::of_str("G1.9 P1"), Ok(Gcode::G1Move(Some(1_000), None)));
}

#[test]
fn malformed_lines_are_rejected() {
    for line in [
        "", "   ", "G", "G1 P", "G1 Px", "G1 P1.2.3", "G1 P.", "G1 P-", "g1", "P1 G1", "5 G1",
        "M2", "G2", "G-1", "G1 X5", "G1 P1e", "G1 P1e+", "G1 Pe3", "G1 P1e3x",
    ] {
        assert_eq!(
            GcodeParser::of_str(line),
            Err(format!("invalid gcode: {}", line)),
            "line {:?}",
            line
        );
    }
}

#[test]
fn numbers_beyond_the_fixed_point_range_are_rejected() {
    assert_eq!(
        GcodeParser::of_str("G1 P2147483.647"),
        Ok(Gcode::G1Move(Some(i32::MAX), None))
    );
    assert_eq!(
        GcodeParser::of_str("G1 P-2147483.647"),
        Ok(Gcode::G1Move(Some(-i32::MAX), None))
    );
    assert!(GcodeParser::of_str("G1 P2147483.648").is_err());
    assert!(GcodeParser::of_str("G1 P99999999999999999999").is_err());
}

#[test]
fn exponents_scale_the_value() {
    assert_eq!(GcodeParser::of_str("G1 P1e3"), Ok(Gcode::G1Move(Some(1_000_000), None)));
    assert_eq!(GcodeParser::of_str("G1 P1E+2 T1.5e-1"), Ok(Gcode::G1Move(Some(100_000), Some(150))));
    assert_eq!(GcodeParser::of_str("G1 P.5e1 T1.e1"), Ok(Gcode::G1Move(Some(5_000), Some(10_000))));
    assert_eq!(GcodeParser::of_str("G1 T-2e-4"), Ok(Gcode::G1Move(None, Some(0))));
    assert_eq!(GcodeParser::of_str("G2.8e1"), Ok(Gcode::G28Home));
    assert_eq!(
        GcodeParser::of_str("G1 P123456789012345e-10"),
        Ok(Gcode::G1Move(Some(12_345_678), None))
    );
    assert_eq!(
        GcodeParser::of_str("G1 P00000000000000000001 T2147483647e-3"),
        Ok(Gcode::G1Move(Some(1_000), Some(i32::MAX)))
    );
    assert_eq!(
        GcodeParser::of_str("G1 P0e99999999999999999999999 T5e-99999999999999999999999"),
        Ok(Gcode::G1Move(Some(0), Some(0)))
    );
    assert!(GcodeParser::of_str("G1 P2147483648e-3").is_err());
    assert!(GcodeParser::of_str("G1 P1e99999999999").is_err());
    assert!(GcodeParser::of_str("G1 P1e7").is_err());
}
