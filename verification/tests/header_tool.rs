use crs::config::{Args, Color, RenderMode};
use crs::errors::Error;
use crs::filter::split_patterns;
use crs::headers::{Headers, Parsed, RawHeader};

fn raw(name: &str, value: &str) -> RawHeader {
    RawHeader { name: name.to_string(), value: value.as_bytes().to_vec() }
}

fn three_headers() -> Vec<RawHeader> {
    vec![
        raw("Vary", "Accept-Encoding"),
        raw("Cache-Control", "max-age=0"),
        raw("Content-Type", "text/html"),
    ]
}

fn parse(map: Vec<RawHeader>, filters: Option<&str>) -> Result<Parsed, Error> {
    Headers::new(map, filters.map(|f| f.to_string())).parse()
}

fn names_and_values(p: &Parsed) -> Vec<(String, String)> {
    p.headers.entries.iter().map(|e| (e.name.clone(), e.value.clone())).collect()
}

#[test]
fn collector_filter_and_sort() {
    let p = parse(three_headers(), Some("vary,cache")).unwrap();
    assert_eq!(
        names_and_values(&p),
        vec![
            ("Cache-Control".to_string(), "max-age=0".to_string()),
            ("Vary".to_string(), "Accept-Encoding".to_string()),
        ]
    );
}

#[test]
fn collector_empty_filter_keeps_all_sorted() {
    let p = parse(three_headers(), None).unwrap();
    assert_eq!(
        names_and_values(&p),
        vec![
            ("Cache-Control".to_string(), "max-age=0".to_string()),
            ("Content-Type".to_string(), "text/html".to_string()),
            ("Vary".to_string(), "Accept-Encoding".to_string()),
        ]
    );
}

#[test]
fn collector_filter_matching_nothing() {
    let p = parse(three_headers(), Some("z")).unwrap();
    assert!(p.headers.entries.is_empty());
    let text = p.display(false, 200, false, None);
    assert_eq!(text, "Status Code: 200\n");
    let json = p.display(true, 200, false, None);
    assert_eq!(json, "{}");
}

#[test]
fn collection_is_deterministic_and_stable() {
    let build = || {
        vec![
            raw("Set-Cookie", "first=1"),
            raw("Age", "0"),
            raw("Set-Cookie", "second=2"),
        ]
    };
    let p1 = parse(build(), None).unwrap();
    let p2 = parse(build(), None).unwrap();
    assert_eq!(names_and_values(&p1), names_and_values(&p2));
    assert_eq!(
        names_and_values(&p1),
        vec![
            ("Age".to_string(), "0".to_string()),
            ("Set-Cookie".to_string(), "first=1".to_string()),
            ("Set-Cookie".to_string(), "second=2".to_string()),
        ]
    );
}

#[test]
fn text_render_blocks_then_status() {
    let p = parse(three_headers(), Some("vary,cache")).unwrap();
    let text = p.display(false, 200, false, None);
    assert_eq!(
        text,
        "Cache-Control:\n  max-age=0\n\nVary:\n  Accept-Encoding\n\nStatus Code: 200\n"
    );
}

#[test]
fn text_render_includes_body_when_given() {
    let p = parse(three_headers(), Some("z")).unwrap();
    let body = "hello world".to_string();
    let text = p.display(false, 200, false, Some(&body));
    assert_eq!(text, "Status Code: 200\nhello world\n");
}

#[test]
fn status_code_digits_are_decimal() {
    let p = parse(Vec::new(), None).unwrap();
    assert_eq!(p.display(false, 7, false, None), "Status Code: 7\n");
    assert_eq!(p.display(false, 65535, false, None), "Status Code: 65535\n");
}

#[test]
fn status_styles_follow_success_and_failure() {
    let p = parse(Vec::new(), None).unwrap();
    let ok = p.display(false, 200, true, None);
    let bad = p.display(false, 503, true, None);
    let success_label =
        format!("{}", owo_colors::Style::new().black().on_bright_green().bold().style("Status Code"));
    let failure_label =
        format!("{}", owo_colors::Style::new().black().on_bright_red().bold().style("Status Code"));
    assert!(ok.contains(&success_label));
    assert!(!ok.contains(&failure_label));
    assert!(bad.contains(&failure_label));
    assert!(!bad.contains(&success_label));
}

#[test]
fn color_never_emits_no_escape_sequences() {
    let p = parse(three_headers(), None).unwrap();
    let colorize = Color::Never.init(true);
    assert!(!colorize);
    let text = p.display(false, 200, colorize, None);
    assert!(!text.contains('\u{1b}'));
}

#[test]
fn color_always_emits_escape_sequences() {
    let p = parse(three_headers(), None).unwrap();
    let colorize = Color::Always.init(false);
    assert!(colorize);
    let text = p.display(false, 200, colorize, None);
    assert!(text.contains('\u{1b}'));
    let styled_heading =
        format!("{}", owo_colors::Style::new().black().on_bright_yellow().bold().style("Vary"));
    assert!(text.contains(&styled_heading));
}

#[test]
fn body_is_styled_when_colorizing() {
    let p = parse(Vec::new(), None).unwrap();
    let body = "payload".to_string();
    let text = p.display(false, 200, true, Some(&body));
    let styled_body =
        format!("{}", owo_colors::Style::new().black().on_bright_blue().bold().style("payload"));
    assert!(text.contains(&styled_body));
    assert!(!text.contains("\u{1b}payload"));
}

#[test]
fn color_auto_follows_stream_capability() {
    assert!(!Color::Auto.init(false));
    assert!(Color::Auto.init(true));
    let p = parse(three_headers(), None).unwrap();
    let text = p.display(false, 200, Color::Auto.init(false), None);
    assert!(!text.contains('\u{1b}'));
}

#[test]
fn conflicting_output_modes_fail_validation() {
    let args = Args {
        color: Color::Always,
        filter: None,
        json: true,
        body: false,
        url: "http://example.test".to_string(),
    };
    assert_eq!(args.validate(), Err(Error::ConflictingOutputMode));
    let with_body = Args { color: Color::Auto, json: true, body: true, ..args };
    assert_eq!(with_body.validate(), Err(Error::ConflictingOutputMode));
}

#[test]
fn default_color_with_json_passes_validation() {
    let args = Args {
        color: Color::Auto,
        filter: None,
        json: true,
        body: false,
        url: "http://example.test".to_string(),
    };
    assert_eq!(args.validate(), Ok(()));
    assert_eq!(args.mode(), RenderMode::Json);
    let text_args = Args { json: false, ..args };
    assert_eq!(text_args.validate(), Ok(()));
    assert_eq!(text_args.mode(), RenderMode::Text);
}

#[test]
fn invalid_pattern_names_the_pattern() {
    let r = parse(three_headers(), Some("vary,("));
    match r {
        Err(Error::InvalidPattern(p)) => assert_eq!(p, "("),
        Err(other) => panic!("expected InvalidPattern, got {:?}", other),
        Ok(_) => panic!("expected InvalidPattern, got a parse"),
    }
}

#[test]
fn header_decode_error_names_the_header() {
    let mut map = three_headers();
    map.push(RawHeader { name: "X-Bad".to_string(), value: vec![0xff, 0x00] });
    let r = parse(map, None);
    match r {
        Err(Error::HeaderDecodeError(n)) => assert_eq!(n, "X-Bad"),
        Err(other) => panic!("expected HeaderDecodeError, got {:?}", other),
        Ok(_) => panic!("expected HeaderDecodeError, got a parse"),
    }
}

#[test]
fn filtered_out_headers_are_not_decoded() {
    let mut map = three_headers();
    map.push(RawHeader { name: "X-Bad".to_string(), value: vec![0xff] });
    let p = parse(map, Some("vary")).unwrap();
    assert_eq!(names_and_values(&p), vec![("Vary".to_string(), "Accept-Encoding".to_string())]);
}

#[test]
fn request_failed_carries_url_and_cause() {
    let e = Error::RequestFailed("http://example.test".to_string(), "connection refused".to_string());
    match e {
        Error::RequestFailed(url, cause) => {
            assert_eq!(url, "http://example.test");
            assert_eq!(cause, "connection refused");
        },
        other => panic!("unexpected {:?}", other),
    }
}

#[test]
fn split_is_on_literal_commas_without_trimming() {
    let pieces = split_patterns("a, b,,c");
    assert_eq!(pieces, vec!["a".to_string(), " b".to_string(), "".to_string(), "c".to_string()]);
    assert_eq!(split_patterns(""), vec!["".to_string()]);
}

#[test]
fn filter_matches_case_insensitively() {
    let p = parse(three_headers(), Some("VARY")).unwrap();
    assert_eq!(names_and_values(&p), vec![("Vary".to_string(), "Accept-Encoding".to_string())]);
}

// Filtering is case-insensitive regular-expression matching over header
// names, not exact string equality: alternation and anchors work, and a
// pattern matches anywhere in the name.
#[test]
fn filter_patterns_are_regular_expressions() {
    let p = parse(three_headers(), Some("content|vary")).unwrap();
    assert_eq!(
        names_and_values(&p),
        vec![
            ("Content-Type".to_string(), "text/html".to_string()),
            ("Vary".to_string(), "Accept-Encoding".to_string()),
        ]
    );
    let anchored = parse(three_headers(), Some("^type")).unwrap();
    assert!(anchored.headers.entries.is_empty());
    let substring = parse(three_headers(), Some("type")).unwrap();
    assert_eq!(
        names_and_values(&substring),
        vec![("Content-Type".to_string(), "text/html".to_string())]
    );
}

#[test]
fn json_repeated_names_become_arrays() {
    let map = vec![
        raw("Set-Cookie", "first=1"),
        raw("Age", "0"),
        raw("Set-Cookie", "second=2"),
    ];
    let p = parse(map, None).unwrap();
    let json = p.display(true, 200, false, None);
    assert_eq!(json, "{\"Age\":\"0\",\"Set-Cookie\":[\"first=1\",\"second=2\"]}");
}

#[test]
fn json_escapes_quotes_backslashes_and_controls() {
    let map = vec![RawHeader {
        name: "X-Odd".to_string(),
        value: b"say \"hi\"\tback\\slash".to_vec(),
    }];
    let p = parse(map, None).unwrap();
    let json = p.display(true, 200, false, None);
    assert_eq!(json, "{\"X-Odd\":\"say \\\"hi\\\"\\u0009back\\\\slash\"}");
}

/// Reads one JSON string literal at `pos`, escapes included.
fn read_string(cs: &[char], pos: &mut usize) -> String {
    assert_eq!(cs[*pos], '"');
    *pos += 1;
    let mut out = String::new();
    loop {
        let c = cs[*pos];
        if c == '"' {
            *pos += 1;
            return out;
        } else if c == '\\' {
            let e = cs[*pos + 1];
            if e == '"' || e == '\\' {
                out.push(e);
                *pos += 2;
            } else {
                assert_eq!(e, 'u');
                let hex: String = cs[*pos + 2..*pos + 6].iter().collect();
                let code = u32::from_str_radix(&hex, 16).unwrap();
                out.push(char::from_u32(code).unwrap());
                *pos += 6;
            }
        } else {
            out.push(c);
            *pos += 1;
        }
    }
}

/// A small JSON reader for the object shape the renderer emits: string keys,
/// values that are strings or arrays of strings.
fn read_json_object(s: &str) -> Vec<(String, Vec<String>)> {
    let cs: Vec<char> = s.chars().collect();
    let mut pos = 0usize;
    assert_eq!(cs[pos], '{');
    pos += 1;
    let mut groups = Vec::new();
    if cs[pos] == '}' {
        assert_eq!(pos + 1, cs.len());
        return groups;
    }
    loop {
        let name = read_string(&cs, &mut pos);
        assert_eq!(cs[pos], ':');
        pos += 1;
        let mut vals = Vec::new();
        if cs[pos] == '[' {
            pos += 1;
            loop {
                vals.push(read_string(&cs, &mut pos));
                if cs[pos] == ',' {
                    pos += 1;
                } else {
                    assert_eq!(cs[pos], ']');
                    pos += 1;
                    break;
                }
            }
        } else {
            vals.push(read_string(&cs, &mut pos));
        }
        groups.push((name, vals));
        if cs[pos] == ',' {
            pos += 1;
        } else {
            assert_eq!(cs[pos], '}');
            assert_eq!(pos + 1, cs.len());
            return groups;
        }
    }
}

#[test]
fn json_escapes_even_raw_escape_characters() {
    let map = vec![RawHeader { name: "X-\u{1b}odd".to_string(), value: b"ok".to_vec() }];
    let p = parse(map, None).unwrap();
    let json = p.display(true, 200, false, None);
    assert!(!json.contains('\u{1b}'));
    assert_eq!(json, "{\"X-\\u001bodd\":\"ok\"}");
}

#[test]
fn json_output_round_trips() {
    let map = vec![
        raw("Set-Cookie", "a=\"1\""),
        raw("Vary", "Accept-Encoding"),
        raw("Set-Cookie", "b\t2"),
        raw("Age", "0"),
    ];
    let p = parse(map, None).unwrap();
    let json = p.display(true, 200, false, None);
    let groups = read_json_object(&json);
    assert_eq!(
        groups,
        vec![
            ("Age".to_string(), vec!["0".to_string()]),
            ("Set-Cookie".to_string(), vec!["a=\"1\"".to_string(), "b\t2".to_string()]),
            ("Vary".to_string(), vec!["Accept-Encoding".to_string()]),
        ]
    );
}
