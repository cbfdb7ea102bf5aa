//! Tests of the per-record decisions, the delimiter and trimming.

use csvfmt::format::parse_template;
use csvfmt::rows::{delimiter_byte, parse_delimiter, process_record, RowOptions, RowState};
use csvfmt::text::trim_field;

fn fields(v: &[&str]) -> Vec<String> {
    v.iter().map(|s| s.to_string()).collect()
}

#[test]
fn delimiter_names() {
    assert_eq!(parse_delimiter("\\t"), Ok(b'\t'));
    assert_eq!(parse_delimiter("tab"), Ok(b'\t'));
    assert_eq!(parse_delimiter(";"), Ok(b';'));
    assert_eq!(parse_delimiter("\t"), Ok(b'\t'));
    assert_eq!(
        parse_delimiter("ab"),
        Err("delimiter must be a single ASCII character, got \"ab\"".to_string())
    );
    assert_eq!(
        parse_delimiter(""),
        Err("delimiter must be a single ASCII character, got \"\"".to_string())
    );
    assert_eq!(
        parse_delimiter("é"),
        Err("delimiter must be a single ASCII character, got \"é\"".to_string())
    );
    assert_eq!(parse_delimiter("\""), Ok(b'"'));
    assert_eq!(
        parse_delimiter("\"\""),
        Err("delimiter must be a single ASCII character, got \"\\\"\\\"\"".to_string())
    );
}

#[test]
fn delimiter_choice() {
    assert_eq!(delimiter_byte(true, None), Ok(b'\t'));
    assert_eq!(delimiter_byte(true, Some("x")), Ok(b'\t'));
    assert_eq!(delimiter_byte(false, None), Ok(b','));
    assert_eq!(delimiter_byte(false, Some("|")), Ok(b'|'));
    assert!(delimiter_byte(false, Some("||")).is_err());
}

#[test]
fn trim_matches_std_for_every_char() {
    for u in 0..=0x10FFFFu32 {
        if let Some(c) = char::from_u32(u) {
            let s = format!("{c}{c}x{c}y{c}");
            assert_eq!(trim_field(&s), s.trim(), "char U+{u:04X}");
        }
    }
}

#[test]
fn header_row_is_kept_not_rendered() {
    let segs = parse_template("{name}={1}").unwrap();
    let options = RowOptions { header: true, trim: false, skip_empty: false };
    let mut state = RowState::new();
    assert_eq!(process_record(&mut state, fields(&["name", "v"]), &options, &segs), None);
    assert_eq!(state.headers, Some(fields(&["name", "v"])));
    assert!(!state.first);
    assert_eq!(
        process_record(&mut state, fields(&["a", "b"]), &options, &segs),
        Some("a=a".to_string())
    );
    assert_eq!(
        process_record(&mut state, fields(&["name", "v"]), &options, &segs),
        Some("name=name".to_string())
    );
}

#[test]
fn without_header_first_row_is_rendered() {
    let segs = parse_template("{name}|{1}").unwrap();
    let options = RowOptions { header: false, trim: false, skip_empty: false };
    let mut state = RowState::new();
    assert_eq!(
        process_record(&mut state, fields(&["a"]), &options, &segs),
        Some("|a".to_string())
    );
    assert_eq!(state.headers, None);
}

#[test]
fn skip_and_pad() {
    let segs = parse_template("[{1}:{2}]").unwrap();
    let skipping = RowOptions { header: false, trim: false, skip_empty: true };
    let keeping = RowOptions { header: false, trim: false, skip_empty: false };
    let mut state = RowState::new();
    assert_eq!(process_record(&mut state, fields(&["", ""]), &skipping, &segs), None);
    assert_eq!(process_record(&mut state, fields(&[]), &skipping, &segs), None);
    assert_eq!(
        process_record(&mut state, fields(&["", "x"]), &skipping, &segs),
        Some("[:x]".to_string())
    );
    assert_eq!(
        process_record(&mut state, fields(&[]), &keeping, &segs),
        Some("[:]".to_string())
    );
}

#[test]
fn trimming_applies_before_skipping_and_headers() {
    let segs = parse_template("{k}").unwrap();
    let options = RowOptions { header: true, trim: true, skip_empty: true };
    let mut state = RowState::new();
    assert_eq!(process_record(&mut state, fields(&[" k "]), &options, &segs), None);
    assert_eq!(state.headers, Some(fields(&["k"])));
    assert_eq!(process_record(&mut state, fields(&["  ", "\t"]), &options, &segs), None);
    assert_eq!(
        process_record(&mut state, fields(&[" v "]), &options, &segs),
        Some("v".to_string())
    );
}
