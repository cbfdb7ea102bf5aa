//! End-to-end tests of the record pipeline: the delimiter, the template, the
//! records read by `csv`, and the per-record decisions.

use csvfmt::format::parse_template;
use csvfmt::rows::{delimiter_byte, process_record, RowOptions, RowState};

/// Runs the pipeline on `input` with the command-line arguments `args`,
/// returning (stdout, stderr, success) as the tool would.
fn run(input: &str, args: &[&str]) -> (String, String, bool) {
    let mut tsv = false;
    let mut delimiter: Option<&str> = None;
    let mut header = false;
    let mut trim = false;
    let mut skip_empty = false;
    let mut template: Option<&str> = None;
    let mut i = 0;
    while i < args.len() {
        match args[i] {
            "-t" | "--tsv" => tsv = true,
            "-d" | "--delimiter" => {
                i += 1;
                delimiter = Some(args[i]);
            }
            "-H" | "--header" => header = true,
            "--trim" => trim = true,
            "-s" | "--skip-empty" => skip_empty = true,
            other => template = Some(other),
        }
        i += 1;
    }
    let delim = match delimiter_byte(tsv, delimiter) {
        Ok(b) => b,
        Err(e) => return (String::new(), format!("csvfmt: {e}\n"), false),
    };
    let segments = match parse_template(template.expect("a template")) {
        Ok(s) => s,
        Err(e) => return (String::new(), format!("csvfmt: invalid template: {e}\n"), false),
    };
    let mut reader = csv::ReaderBuilder::new()
        .delimiter(delim)
        .has_headers(false)
        .flexible(true)
        .from_reader(input.as_bytes());
    let options = RowOptions { header, trim, skip_empty };
    let mut state = RowState::new();
    let mut out = String::new();
    for result in reader.records() {
        let record = match result {
            Ok(r) => r,
            Err(e) => return (out, format!("csvfmt: read error: {e}\n"), false),
        };
        let fields: Vec<String> = record.iter().map(|f| f.to_string()).collect();
        if let Some(line) = process_record(&mut state, fields, &options, &segments) {
            out.push_str(&line);
            out.push('\n');
        }
    }
    (out, String::new(), true)
}

/// Asserts success and returns stdout.
fn run_ok(input: &str, args: &[&str]) -> String {
    let (stdout, stderr, ok) = run(input, args);
    assert!(ok, "csvfmt failed.\nstderr: {stderr}");
    stdout
}

// ── Basic substitution ──────────────────────────────────────────────────────

#[test]
fn basic_substitution() {
    let out = run_ok("Alice,30\n", &["Hello {1}, you are {2} years old."]);
    assert_eq!(out.trim(), "Hello Alice, you are 30 years old.");
}

#[test]
fn multiple_rows() {
    let out = run_ok("Alice,30\nBob,25\n", &["{1}: {2}"]);
    assert_eq!(out.trim(), "Alice: 30\nBob: 25");
}

// ── Named fields with headers ───────────────────────────────────────────────

#[test]
fn named_fields_with_header() {
    let input = "first,last,email\nAlice,Smith,alice@example.com\n";
    let out = run_ok(input, &["-H", "Dear {first} {last} <{email}>,"]);
    assert_eq!(out.trim(), "Dear Alice Smith <alice@example.com>,");
}

#[test]
fn named_fields_multiple_rows() {
    let input = "name,age\nAlice,30\nBob,25\n";
    let out = run_ok(input, &["-H", "{name} is {age}"]);
    assert_eq!(out.trim(), "Alice is 30\nBob is 25");
}

// ── Conditional blocks ──────────────────────────────────────────────────────

#[test]
fn conditional_present() {
    let out = run_ok("Alice,30,Engineer\n", &["Hello {1}{?3:, job: {3}}"]);
    assert_eq!(out.trim(), "Hello Alice, job: Engineer");
}

#[test]
fn conditional_absent() {
    let out = run_ok("Alice,30,\n", &["Hello {1}{?3:, job: {3}}"]);
    assert_eq!(out.trim(), "Hello Alice");
}

// ── Default values ──────────────────────────────────────────────────────────

#[test]
fn default_value_used() {
    let out = run_ok("Alice,,\n", &["{1} is {2:unknown} years old"]);
    assert_eq!(out.trim(), "Alice is unknown years old");
}

#[test]
fn default_value_not_used() {
    let out = run_ok("Alice,30,\n", &["{1} is {2:unknown} years old"]);
    assert_eq!(out.trim(), "Alice is 30 years old");
}

// ── TSV input ───────────────────────────────────────────────────────────────

#[test]
fn tsv_flag() {
    let out = run_ok("Alice\t30\n", &["--tsv", "{1}: {2}"]);
    assert_eq!(out.trim(), "Alice: 30");
}

#[test]
fn delimiter_flag_tab() {
    let out = run_ok("Alice\t30\n", &["-d", "\\t", "{1}: {2}"]);
    assert_eq!(out.trim(), "Alice: 30");
}

#[test]
fn delimiter_flag_semicolon() {
    let out = run_ok("Alice;30;Berlin\n", &["-d", ";", "{1} lives in {3}"]);
    assert_eq!(out.trim(), "Alice lives in Berlin");
}

// ── Trim ────────────────────────────────────────────────────────────────────

#[test]
fn trim_whitespace() {
    let out = run_ok(" Alice , 30 \n", &["--trim", "Name={1}, Age={2}"]);
    assert_eq!(out.trim(), "Name=Alice, Age=30");
}

// ── Skip empty ──────────────────────────────────────────────────────────────

#[test]
fn skip_empty_rows() {
    let out = run_ok("Alice,30\n\n,\nBob,25\n", &["--skip-empty", "{1}: {2}"]);
    assert_eq!(out.trim(), "Alice: 30\nBob: 25");
}

// ── Escaped braces ──────────────────────────────────────────────────────────

#[test]
fn cli_escaped_braces() {
    let out = run_ok("Alice\n", &["{{{1}}}"]);
    assert_eq!(out.trim(), "{Alice}");
}

// ── Error cases ─────────────────────────────────────────────────────────────

#[test]
fn error_on_invalid_template() {
    let (_, stderr, ok) = run("Alice\n", &["{1"]);
    assert!(!ok, "should fail on unclosed brace");
    assert!(stderr.contains("invalid template"), "stderr: {stderr}");
}

#[test]
fn error_on_bad_delimiter() {
    let (_, stderr, ok) = run("Alice\n", &["-d", "ab", "{1}"]);
    assert!(!ok);
    assert_eq!(
        stderr,
        "csvfmt: delimiter must be a single ASCII character, got \"ab\"\n"
    );
}

// ── SQL generation (practical use case) ─────────────────────────────────────

#[test]
fn sql_insert_generation() {
    let out = run_ok(
        "Alice,30\nBob,25\n",
        &["INSERT INTO users (name, age) VALUES ('{1}', {2});"],
    );
    let lines: Vec<&str> = out.trim().lines().collect();
    assert_eq!(
        lines[0],
        "INSERT INTO users (name, age) VALUES ('Alice', 30);"
    );
    assert_eq!(
        lines[1],
        "INSERT INTO users (name, age) VALUES ('Bob', 25);"
    );
}

// ── Markdown links (practical use case) ─────────────────────────────────────

#[test]
fn markdown_link_generation() {
    let out = run_ok("Google,https://google.com\n", &["[{1}]({2})"]);
    assert_eq!(out.trim(), "[Google](https://google.com)");
}
