use lp::{TemplateError, extract, format_field, parse_expr, parse_str};

fn run(template: &str, line: &str) -> Option<String> {
    match parse_expr(template) {
        Ok(segs) => parse_str(line, &segs),
        Err(e) => panic!("template refused: {:?}", e),
    }
}

fn pairs(template: &str, line: &str) -> Vec<(String, String)> {
    match parse_expr(template) {
        Ok(segs) => extract(line, &segs),
        Err(e) => panic!("template refused: {:?}", e),
    }
}

fn p(n: &str, v: &str) -> (String, String) {
    (n.to_string(), v.to_string())
}

#[test]
fn segments_in_order() {
    assert_eq!(pairs("a={a}|b={b}", "a=1|b=2"), vec![p("a", "1"), p("b", "2")]);
    assert_eq!(run("a={a}|b={b}", "a=1|b=2"), Some("{\"a\":\"1\",\"b\":\"2\"}".to_string()));
}

#[test]
fn empty_capture_suppressed() {
    assert_eq!(pairs("x={v}y", "xy"), vec![]);
    assert_eq!(run("x={v}y", "xy"), None);
    assert_eq!(pairs("x{v}y", "xy"), vec![]);
    assert_eq!(run("x{v}y", "xy"), None);
}

#[test]
fn leading_capture() {
    assert_eq!(pairs("{head} end", "hello end"), vec![p("head", "hello")]);
    assert_eq!(run("{head} end", "hello end"), Some("{\"head\":\"hello\"}".to_string()));
}

#[test]
fn trailing_capture_takes_rest_of_line() {
    assert_eq!(pairs("start {tail}", "start world"), vec![p("tail", "world")]);
    assert_eq!(run("start {tail}", "start world"), Some("{\"tail\":\"world\"}".to_string()));
}

#[test]
fn unmatched_tail_contributes_nothing() {
    assert_eq!(pairs("a{x}b{y}c", "a1b2"), vec![p("x", "1")]);
    assert_eq!(run("a{x}b{y}c", "a1b2"), Some("{\"x\":\"1\"}".to_string()));
}

#[test]
fn consecutive_captures_rejected() {
    assert_eq!(parse_expr("{a}{b}").err(), Some(TemplateError::ConsecutiveCaptures));
    assert_eq!(parse_expr("x{a}{b}y").err(), Some(TemplateError::ConsecutiveCaptures));
}

#[test]
fn unterminated_name_rejected() {
    assert_eq!(parse_expr("a{b").err(), Some(TemplateError::UnterminatedName));
    assert_eq!(parse_expr("{").err(), Some(TemplateError::UnterminatedName));
}

#[test]
fn segments_of_a_template() {
    let segs = parse_expr("[{ts}] level={level}").ok().unwrap();
    let views: Vec<(String, String)> =
        segs.iter().map(|e| (e.name_str().to_string(), e._flag())).collect();
    assert_eq!(views, vec![p("", "["), p("ts", "] level="), p("level", "")]);

    let segs = parse_expr("{head} end").ok().unwrap();
    let views: Vec<(String, String)> =
        segs.iter().map(|e| (e.name_str().to_string(), e._flag())).collect();
    assert_eq!(views, vec![p("", ""), p("head", " end")]);

    assert_eq!(parse_expr("").ok().unwrap().len(), 1);
}

#[test]
fn log_line_fields() {
    let t = "[{ts}] level={level} msg={msg}";
    assert_eq!(
        pairs(t, "[12:00] level=warn msg=disk full"),
        vec![p("ts", "12:00"), p("level", "warn"), p("msg", "disk full")]
    );
    assert_eq!(
        run(t, "[12:00] level=warn msg=disk full"),
        Some("{\"ts\":\"12:00\",\"level\":\"warn\",\"msg\":\"disk full\"}".to_string())
    );
    assert_eq!(run(t, "header line"), None);
}

#[test]
fn first_occurrence_ends_a_capture() {
    assert_eq!(pairs("{a}aab{b}", "xaaabaab!"), vec![p("a", "xa"), p("b", "aab!")]);
}

#[test]
fn unnamed_capture_discarded() {
    assert_eq!(pairs("<{}>{v}", "<junk>val"), vec![p("v", "val")]);
}

#[test]
fn template_without_captures() {
    assert_eq!(run("plain", "plain text"), None);
    assert_eq!(run("", "anything"), None);
}

#[test]
fn whole_line_capture() {
    assert_eq!(pairs("{all}", "every char"), vec![p("all", "every char")]);
    assert_eq!(pairs("{all}", ""), vec![]);
}

#[test]
fn no_escaping_in_records() {
    assert_eq!(format_field("k\"", "a\\b"), "\"k\"\":\"a\\b\"");
    assert_eq!(run("k={v}", "k=\"q\""), Some("{\"v\":\"\"q\"\"}".to_string()));
}
