use potsweep::convert::{convert_capture, process_output, ExtractError};
use potsweep::extract::extract_captures;

fn captures(s: &str) -> Vec<String> {
    extract_captures(s.as_bytes())
        .into_iter()
        .map(|c| String::from_utf8(c).unwrap())
        .collect()
}

fn converted(c: &str) -> String {
    String::from_utf8(convert_capture(c.as_bytes()).unwrap()).unwrap()
}

#[test]
fn captures_one_energy_line() {
    assert_eq!(captures("  Final energy =      -123.456000 eV\n"), vec!["-123.456000"]);
}

#[test]
fn captures_every_line_in_reply_order() {
    let out = "junk\nFinal energy =  1.5 eV\nmore junk\nFinal energy = -2.25 eV\n";
    assert_eq!(captures(out), vec!["1.5", "-2.25"]);
}

#[test]
fn whitespace_between_number_and_unit_may_be_any_mix() {
    assert_eq!(captures("Final energy =\n\t 42.0 \t\n eV"), vec!["42.0"]);
}

#[test]
fn no_capture_without_space_after_equals() {
    assert_eq!(captures("Final energy =-1.5 eV"), Vec::<String>::new());
}

#[test]
fn no_capture_for_single_bare_digit() {
    // The numeric shape wants two digits when there is no dot.
    assert_eq!(captures("Final energy = 5 eV"), Vec::<String>::new());
    assert_eq!(captures("Final energy = 55 eV"), vec!["55"]);
}

#[test]
fn no_capture_for_trailing_dot() {
    assert_eq!(captures("Final energy = 12. eV"), Vec::<String>::new());
}

#[test]
fn no_capture_without_unit() {
    assert_eq!(captures("Final energy = 12.5 e\n"), Vec::<String>::new());
}

#[test]
fn conversion_multiplies_and_rounds_to_six_decimals() {
    // -123.456 × 239.2311 = -29534.5146816 exactly.
    assert_eq!(converted("-123.456000"), "-29534.514682\n");
    assert_eq!(converted("1.5"), "358.846650\n");
    assert_eq!(converted("-2.25"), "-538.269975\n");
    assert_eq!(converted("00.0"), "0.000000\n");
    assert_eq!(converted("-0.0"), "-0.000000\n");
}

#[test]
fn conversion_agrees_with_binary_floating_point_here() {
    let line = converted("-123.456000");
    let f = format!("{:.6}\n", -123.456f64 * 239.2311f64);
    assert_eq!(line, f);
}

#[test]
fn conversion_rejects_malformed_captures() {
    assert_eq!(convert_capture(b""), Err(ExtractError::MalformedNumber));
    assert_eq!(convert_capture(b"-"), Err(ExtractError::MalformedNumber));
    assert_eq!(convert_capture(b".5"), Err(ExtractError::MalformedNumber));
    assert_eq!(convert_capture(b"5."), Err(ExtractError::MalformedNumber));
    assert_eq!(convert_capture(b"1x2"), Err(ExtractError::MalformedNumber));
}

#[test]
fn conversion_rejects_over_long_captures() {
    let cap = "1".repeat(26);
    assert_eq!(convert_capture(cap.as_bytes()), Err(ExtractError::NumberTooLong));
    let cap = "1".repeat(25);
    assert!(convert_capture(cap.as_bytes()).is_ok());
}

#[test]
fn reply_with_expected_matches_yields_lines() {
    let out = "Final energy = 1.5 eV\nFinal energy = -2.25 eV\n";
    let lines = process_output(out.as_bytes(), 2).unwrap();
    let lines: Vec<String> = lines.into_iter().map(|l| String::from_utf8(l).unwrap()).collect();
    assert_eq!(lines, vec!["358.846650\n", "-538.269975\n"]);
}

#[test]
fn reply_with_wrong_match_count_is_fatal() {
    let out = "Final energy = 1.5 eV\n";
    assert_eq!(process_output(out.as_bytes(), 2), Err(ExtractError::CountMismatch));
    assert_eq!(process_output(out.as_bytes(), 0), Err(ExtractError::CountMismatch));
    assert_eq!(process_output(b"no energy here", 1), Err(ExtractError::CountMismatch));
}

#[test]
fn reply_with_over_long_number_is_fatal() {
    let out = format!("Final energy = {}.5 eV\n", "9".repeat(30));
    assert_eq!(process_output(out.as_bytes(), 1), Err(ExtractError::NumberTooLong));
}

#[test]
fn engine_reply_yields_converted_output_line() {
    let out = "header noise\n  Final energy =   -123.456000 eV\ntrailer\n";
    let lines = process_output(out.as_bytes(), 1).unwrap();
    assert_eq!(lines.len(), 1);
    assert_eq!(String::from_utf8(lines[0].clone()).unwrap(), "-29534.514682\n");
}
