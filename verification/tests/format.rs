//! Tests of the template parser and renderer.

use csvfmt::format::{parse_template, render, resolve_key, FieldKey, Segment};

fn fields(v: &[&str]) -> Vec<String> {
    v.iter().map(|s| s.to_string()).collect()
}

// ── parse_template ─────────────────────────────────────────────────────────

#[test]
fn literal_only() {
    let segs = parse_template("hello world").unwrap();
    assert_eq!(segs, vec![Segment::Literal("hello world".to_string())]);
}

#[test]
fn single_index_field() {
    let segs = parse_template("{1}").unwrap();
    assert_eq!(segs, vec![Segment::Field { key: FieldKey::Index(1) }]);
}

#[test]
fn named_field() {
    let segs = parse_template("{name}").unwrap();
    assert_eq!(
        segs,
        vec![Segment::Field {
            key: FieldKey::Name("name".to_string())
        }]
    );
}

#[test]
fn field_with_default() {
    let segs = parse_template("{2:n/a}").unwrap();
    assert_eq!(
        segs,
        vec![Segment::FieldWithDefault {
            key: FieldKey::Index(2),
            default: "n/a".to_string()
        }]
    );
}

#[test]
fn conditional_segment() {
    let segs = parse_template("{?3: and {3}}").unwrap();
    assert_eq!(
        segs,
        vec![Segment::Conditional {
            key: FieldKey::Index(3),
            body: vec![
                Segment::Literal(" and ".to_string()),
                Segment::Field { key: FieldKey::Index(3) },
            ]
        }]
    );
}

#[test]
fn format_escaped_braces() {
    let segs = parse_template("{{literal}}").unwrap();
    assert_eq!(
        segs,
        vec![
            Segment::Literal("{".to_string()),
            Segment::Literal("literal".to_string()),
            Segment::Literal("}".to_string()),
        ]
    );
}

#[test]
fn error_on_zero_index() {
    assert!(parse_template("{0}").is_err());
}

#[test]
fn error_unclosed_brace() {
    assert!(parse_template("{1").is_err());
}

// ── render ─────────────────────────────────────────────────────────────────

#[test]
fn render_basic() {
    let segs = parse_template("Hello {1}, how are you {2}?").unwrap();
    let rec = fields(&["Alice", "Bob"]);
    assert_eq!(render(&segs, &rec, None), "Hello Alice, how are you Bob?");
}

#[test]
fn render_default_used_when_empty() {
    let segs = parse_template("{1:unknown}").unwrap();
    let rec = fields(&[""]);
    assert_eq!(render(&segs, &rec, None), "unknown");
}

#[test]
fn render_default_not_used_when_value_present() {
    let segs = parse_template("{1:unknown}").unwrap();
    let rec = fields(&["Alice"]);
    assert_eq!(render(&segs, &rec, None), "Alice");
}

#[test]
fn render_conditional_included() {
    let segs = parse_template("Hi {1}{?2:, age {2}}").unwrap();
    let rec = fields(&["Alice", "30"]);
    assert_eq!(render(&segs, &rec, None), "Hi Alice, age 30");
}

#[test]
fn render_conditional_excluded() {
    let segs = parse_template("Hi {1}{?2:, age {2}}").unwrap();
    let rec = fields(&["Alice", ""]);
    assert_eq!(render(&segs, &rec, None), "Hi Alice");
}

#[test]
fn render_named_field() {
    let headers = fields(&["first", "last"]);
    let segs = parse_template("{first} {last}").unwrap();
    let rec = fields(&["Alice", "Smith"]);
    assert_eq!(render(&segs, &rec, Some(&headers)), "Alice Smith");
}

#[test]
fn render_out_of_bounds_field_empty() {
    let segs = parse_template("{5}").unwrap();
    let rec = fields(&["a", "b"]);
    assert_eq!(render(&segs, &rec, None), "");
}

// ── error messages ─────────────────────────────────────────────────────────

#[test]
fn error_message_unclosed() {
    assert_eq!(
        parse_template("ab{1").unwrap_err(),
        "Unclosed `{` in format template"
    );
    assert_eq!(
        parse_template("{?1:{2}").unwrap_err(),
        "Unclosed `{` in format template"
    );
}

#[test]
fn error_message_stray_close() {
    assert_eq!(
        parse_template("abc}x").unwrap_err(),
        "Unexpected `}` at position 3"
    );
    assert_eq!(
        parse_template("{1}{{0123456789}").unwrap_err(),
        "Unexpected `}` at position 15"
    );
}

#[test]
fn error_message_empty_placeholder() {
    assert_eq!(parse_template("x{}").unwrap_err(), "Empty placeholder `{}`");
}

#[test]
fn error_message_missing_colon() {
    assert_eq!(
        parse_template("{?1}").unwrap_err(),
        "Expected `:` in conditional placeholder `{?1}`"
    );
}

#[test]
fn error_message_empty_key() {
    assert_eq!(
        parse_template("{ }").unwrap_err(),
        "Empty field key in placeholder"
    );
    assert_eq!(
        parse_template("{:fallback}").unwrap_err(),
        "Empty field key in placeholder"
    );
    assert_eq!(
        parse_template("{?:text}").unwrap_err(),
        "Empty field key in placeholder"
    );
}

#[test]
fn error_message_zero_index() {
    let msg = "Field indices are 1-based; `{0}` is not valid";
    assert_eq!(parse_template("{0}").unwrap_err(), msg);
    assert_eq!(parse_template("{00}").unwrap_err(), msg);
    assert_eq!(parse_template("{+0}").unwrap_err(), msg);
    assert_eq!(parse_template("{?0:x}").unwrap_err(), msg);
}

#[test]
fn error_in_conditional_body() {
    assert_eq!(
        parse_template("{?1:{}}").unwrap_err(),
        "Empty placeholder `{}`"
    );
}

// ── keys ───────────────────────────────────────────────────────────────────

#[test]
fn key_forms() {
    assert_eq!(
        parse_template("{+5}").unwrap(),
        vec![Segment::Field { key: FieldKey::Index(5) }]
    );
    assert_eq!(
        parse_template("{ 7\t}").unwrap(),
        vec![Segment::Field { key: FieldKey::Index(7) }]
    );
    assert_eq!(
        parse_template("{-1}").unwrap(),
        vec![Segment::Field { key: FieldKey::Name("-1".to_string()) }]
    );
    assert_eq!(
        parse_template("{+}").unwrap(),
        vec![Segment::Field { key: FieldKey::Name("+".to_string()) }]
    );
    assert_eq!(
        parse_template("{1a}").unwrap(),
        vec![Segment::Field { key: FieldKey::Name("1a".to_string()) }]
    );
    let max = usize::MAX.to_string();
    assert_eq!(
        parse_template(&format!("{{{max}}}")).unwrap(),
        vec![Segment::Field { key: FieldKey::Index(usize::MAX) }]
    );
    let over = format!("{max}0");
    assert_eq!(
        parse_template(&format!("{{{over}}}")).unwrap(),
        vec![Segment::Field { key: FieldKey::Name(over.clone()) }]
    );
}

#[test]
fn keys_agree_with_std_parse() {
    let samples = [
        "0", "1", "+1", "++1", "-1", "-0", "+", "-", "12", "012", "1 2", "١", "٣٤", "x9",
        "9x", "18446744073709551615", "18446744073709551616", "4294967295", "4294967296",
    ];
    for s in samples {
        let expected = match s.parse::<usize>() {
            Ok(0) => Err("Field indices are 1-based; `{0}` is not valid".to_string()),
            Ok(n) => Ok(vec![Segment::Field { key: FieldKey::Index(n) }]),
            Err(_) => Ok(vec![Segment::Field { key: FieldKey::Name(s.to_string()) }]),
        };
        assert_eq!(parse_template(&format!("{{{s}}}")), expected, "key {s:?}");
    }
}

#[test]
fn key_is_trimmed_but_default_is_not() {
    assert_eq!(
        parse_template("{ 2 : n/a }").unwrap(),
        vec![Segment::FieldWithDefault {
            key: FieldKey::Index(2),
            default: " n/a ".to_string()
        }]
    );
    assert_eq!(
        parse_template("{\u{3000}name\u{2003}}").unwrap(),
        vec![Segment::Field { key: FieldKey::Name("name".to_string()) }]
    );
}

#[test]
fn default_text_keeps_later_colons() {
    assert_eq!(
        parse_template("{1:a:b}").unwrap(),
        vec![Segment::FieldWithDefault {
            key: FieldKey::Index(1),
            default: "a:b".to_string()
        }]
    );
}

#[test]
fn nested_braces_in_conditional() {
    let segs = parse_template("{?1:x {2:none} y}").unwrap();
    let rec = fields(&["a", ""]);
    assert_eq!(render(&segs, &rec, None), "x none y");
    assert_eq!(render(&segs, &fields(&["", "b"]), None), "");
}

// ── laws on concrete values ────────────────────────────────────────────────

#[test]
fn law_render_concat_example() {
    let rec = fields(&["Alice", "30"]);
    let whole = parse_template("Hi {1}, {?2:age {2}}").unwrap();
    let a = parse_template("Hi {1}, ").unwrap();
    let b = parse_template("{?2:age {2}}").unwrap();
    let mut joined = a;
    joined.extend(b.into_iter());
    assert_eq!(render(&whole, &rec, None), render(&joined, &rec, None));
    assert_eq!(render(&whole, &rec, None), "Hi Alice, age 30");
}

#[test]
fn law_escaped_text_example() {
    let text = "a{b}}c{{";
    let escaped: String = text
        .chars()
        .flat_map(|c| if c == '{' || c == '}' { vec![c, c] } else { vec![c] })
        .collect();
    let segs = parse_template(&escaped).unwrap();
    assert_eq!(render(&segs, &fields(&["x"]), None), text);
}

#[test]
fn law_index_placeholder_example() {
    let rec = fields(&["a", "b", "c", "d", "e", "f", "g", "h", "i", "j", "k", "l"]);
    let segs = parse_template("{12}").unwrap();
    assert_eq!(segs, vec![Segment::Field { key: FieldKey::Index(12) }]);
    assert_eq!(render(&segs, &rec, None), "l");
    assert_eq!(render(&parse_template("{13}").unwrap(), &rec, None), "");
}

#[test]
fn law_default_placeholder_example() {
    let segs = parse_template("{2:none}").unwrap();
    assert_eq!(render(&segs, &fields(&["a", "b"]), None), "b");
    assert_eq!(render(&segs, &fields(&["a", ""]), None), "none");
    assert_eq!(render(&segs, &fields(&["a"]), None), "none");
}

#[test]
fn law_conditional_placeholder_example() {
    let segs = parse_template("{?2:yes}").unwrap();
    assert_eq!(render(&segs, &fields(&["a", "b"]), None), "yes");
    assert_eq!(render(&segs, &fields(&["a", ""]), None), "");
    assert_eq!(render(&segs, &fields(&["a"]), None), "");
}

#[test]
fn law_named_placeholder_example() {
    let segs = parse_template("{age}").unwrap();
    let rec = fields(&["Alice", "30"]);
    let headers = fields(&["age", "age"]);
    assert_eq!(render(&segs, &rec, None), "");
    assert_eq!(render(&segs, &rec, Some(&headers)), "Alice");
    let other = fields(&["name"]);
    assert_eq!(render(&segs, &rec, Some(&other)), "");
}

// ── resolve_key ────────────────────────────────────────────────────────────

#[test]
fn resolve_key_cases() {
    let rec = fields(&["x", "y"]);
    let headers = fields(&["first", "second", "third"]);
    assert_eq!(resolve_key(&FieldKey::Index(2), &rec, None), Some("y"));
    assert_eq!(resolve_key(&FieldKey::Index(3), &rec, None), None);
    assert_eq!(
        resolve_key(&FieldKey::Name("second".to_string()), &rec, Some(&headers)),
        Some("y")
    );
    assert_eq!(
        resolve_key(&FieldKey::Name("third".to_string()), &rec, Some(&headers)),
        None
    );
    assert_eq!(
        resolve_key(&FieldKey::Name("first".to_string()), &rec, None),
        None
    );
}

#[test]
fn index_zero_finds_nothing() {
    let rec = fields(&["a"]);
    assert_eq!(resolve_key(&FieldKey::Index(0), &rec, None), None);
    let segs = vec![
        Segment::Field { key: FieldKey::Index(0) },
        Segment::FieldWithDefault { key: FieldKey::Index(0), default: "d".to_string() },
        Segment::Conditional {
            key: FieldKey::Index(0),
            body: vec![Segment::Literal("x".to_string())],
        },
    ];
    assert_eq!(render(&segs, &rec, None), "d");
}

fn merge_literals(v: Vec<Segment>) -> Vec<Segment> {
    let mut out: Vec<Segment> = Vec::new();
    for seg in v {
        match (out.last_mut(), seg) {
            (Some(Segment::Literal(a)), Segment::Literal(b)) => a.push_str(&b),
            (_, seg) => out.push(seg),
        }
    }
    out
}

#[test]
fn law_parse_concat_example() {
    let pairs = [("x{1}y", "z{{w"), ("ab", "cd"), ("{?1:a}", "}}{2:d}"), ("", "{n}"), ("q", "")];
    for (t1, t2) in pairs {
        let s1 = parse_template(t1).unwrap();
        let s2 = parse_template(t2).unwrap();
        let whole = parse_template(&(t1.to_string() + t2)).unwrap();
        let mut joined = s1;
        joined.extend(s2);
        assert_eq!(merge_literals(whole), merge_literals(joined), "{t1:?} + {t2:?}");
    }
    assert_eq!(
        merge_literals(parse_template("x{1}yz{{w").unwrap()),
        vec![
            Segment::Literal("x".to_string()),
            Segment::Field { key: FieldKey::Index(1) },
            Segment::Literal("yz{w".to_string()),
        ]
    );
}

fn check_shape(segs: &[Segment]) {
    fn key_ok(k: &FieldKey) {
        match k {
            FieldKey::Index(n) => assert!(*n >= 1),
            FieldKey::Name(m) => {
                assert!(!m.is_empty());
                assert_eq!(m.trim(), m);
                assert!(!m.contains(':'));
                assert!(m.parse::<usize>().is_err());
            }
        }
    }
    for seg in segs {
        match seg {
            Segment::Literal(x) => assert!(!x.is_empty()),
            Segment::Field { key } => key_ok(key),
            Segment::FieldWithDefault { key, .. } => key_ok(key),
            Segment::Conditional { key, body } => {
                key_ok(key);
                check_shape(body);
            }
        }
    }
}

#[test]
fn law_parsed_shape_example() {
    let templates = [
        "a{ b }c{?2: x {\tname\u{a0}:d} {3}}{{}}",
        "{ +7 :}{?q:{{r}}}",
        "{-1}{1a}{ 12 }",
    ];
    for t in templates {
        check_shape(&parse_template(t).unwrap());
    }
}

#[test]
fn law_escaped_text_literals_example() {
    let text = "}{a{{b}c";
    let escaped: String = text
        .chars()
        .flat_map(|c| if c == '{' || c == '}' { vec![c, c] } else { vec![c] })
        .collect();
    let segs = parse_template(&escaped).unwrap();
    let mut joined = String::new();
    for seg in &segs {
        match seg {
            Segment::Literal(x) => {
                assert!(!x.is_empty());
                joined.push_str(x);
            }
            other => panic!("not a literal: {other:?}"),
        }
    }
    assert_eq!(joined, text);
}
