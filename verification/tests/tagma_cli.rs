use tagma::base11172::base64_encoded_len;
use tagma::tagma_cli::{check_report, compose_report, decompose_report, dist_report, parse_val};

#[test]
fn parse_val_single_char_is_code_point() {
    assert_eq!(parse_val("\u{ac00}"), Some(0xAC00));
    assert_eq!(parse_val("A"), Some(0x41));
}

#[test]
fn parse_val_single_char_keeps_low_16_bits() {
    assert_eq!(parse_val("\u{1F600}"), Some(0xF600));
}

#[test]
fn parse_val_plain_hex() {
    assert_eq!(parse_val("AC01"), Some(0xAC01));
    assert_eq!(parse_val("ffff"), Some(0xFFFF));
}

#[test]
fn parse_val_hex_with_prefix() {
    assert_eq!(parse_val("0xD7A3"), Some(0xD7A3));
}

#[test]
fn parse_val_rejects_non_hex() {
    assert_eq!(parse_val("invalid"), None);
    assert_eq!(parse_val("0x"), None);
    assert_eq!(parse_val(""), None);
}

#[test]
fn parse_val_rejects_overflow() {
    assert_eq!(parse_val("12345"), None);
}

#[test]
fn parse_val_accepts_plus_sign() {
    assert_eq!(parse_val("+ff"), Some(0xFF));
    assert_eq!(parse_val("+"), Some(0x2B));
    assert_eq!(parse_val("-1"), None);
}

#[test]
fn check_report_valid_and_invalid() {
    assert_eq!(check_report(0xAC00), "valid: \u{ac00} (U+AC00, i=0, m=0, f=0)");
    assert_eq!(check_report(0xD7A3), "valid: \u{d7a3} (U+D7A3, i=18, m=20, f=27)");
    assert_eq!(check_report(0x0041), "invalid: U+0041");
}

#[test]
fn compose_report_ok_and_error() {
    assert_eq!(compose_report(0, 0, 0), Ok("\u{ac00} (U+AC00)".to_string()));
    assert_eq!(compose_report(19, 0, 0), Err("error: invalid axes (19,0,0)".to_string()));
}

#[test]
fn decompose_report_ok_and_error() {
    assert_eq!(
        decompose_report(0xAC01),
        Ok("\u{ac01}: initial=0, medial=0, final=1".to_string())
    );
    assert_eq!(decompose_report(0xD7A4), Err("error: U+D7A4 is not valid".to_string()));
}

#[test]
fn dist_report_ok_and_error() {
    assert_eq!(
        dist_report(0xAC00, 0xD7A3),
        Ok("Hamming distance: initial=18, medial=20, final=27".to_string())
    );
    assert_eq!(
        dist_report(0xAC00, 0x41),
        Err("error: one or both values are not valid".to_string())
    );
}

#[test]
fn base64_length() {
    assert_eq!(base64_encoded_len(0), 0);
    assert_eq!(base64_encoded_len(1), 4);
    assert_eq!(base64_encoded_len(3), 4);
    assert_eq!(base64_encoded_len(4), 8);
    assert_eq!(base64_encoded_len(1_000_000), 1_333_336);
}

#[test]
fn parse_val_single_char() {
    let out = check_report(parse_val("가").unwrap());
    assert!(out.contains("valid"));
    assert!(out.contains("U+AC00"));
}

#[test]
fn parse_val_hex() {
    let out = check_report(parse_val("AC01").unwrap());
    assert!(out.contains("valid"));
}

#[test]
fn parse_val_hex_prefix() {
    let out = check_report(parse_val("0xD7A3").unwrap());
    assert!(out.contains("힣"));
}

#[test]
fn parse_val_invalid() {
    assert_eq!(parse_val("invalid"), None);
}
