use lp::text::chars_of;
use lp::{Expr, Matcher};

fn literal(s: &str) -> Expr {
    let mut e = Expr::new();
    for c in s.chars() {
        e.append_flag(c);
    }
    e
}

fn feed_all(m: &mut Matcher, input: &str) -> Vec<Option<String>> {
    input.chars().map(|c| m.feed(c)).collect()
}

#[test]
fn literal_found_after_partial_overlap() {
    let e = literal("aab");
    let mut m = e.get_matcher();
    let out = feed_all(&mut m, "aaab");
    assert_eq!(out, vec![None, None, None, Some("a".to_string())]);
    assert!(m.is_matched());
}

#[test]
fn literal_matches_itself() {
    for lit in ["a", "aab", "abab", "aaaa", "abcabd", "xyxxyxy", "é中é"] {
        let e = literal(lit);
        let mut m = Matcher::new(&e);
        let n = lit.chars().count();
        let out = feed_all(&mut m, lit);
        for (i, r) in out.iter().enumerate() {
            if i + 1 < n {
                assert_eq!(*r, None, "literal {lit} at {i}");
            } else {
                assert_eq!(*r, Some(String::new()), "literal {lit}");
            }
        }
    }
}

#[test]
fn fallback_keeps_overlapping_prefix() {
    let e = literal("abab");
    let mut m = e.get_matcher();
    let out = feed_all(&mut m, "xabaabab");
    assert_eq!(out.last().unwrap(), &Some("xaba".to_string()));
    assert!(out[..7].iter().all(|r| r.is_none()));

    let e = literal("aabaaab");
    let mut m = e.get_matcher();
    let out = feed_all(&mut m, "aabaabaaab");
    assert_eq!(out.last().unwrap(), &Some("aab".to_string()));
    assert!(out[..9].iter().all(|r| r.is_none()));
}

#[test]
fn reset_replays_identically() {
    let e = literal("aab");
    let mut m = e.get_matcher();
    let first = feed_all(&mut m, "xaaabyy");
    m.reset();
    assert!(!m.is_matched());
    let second = feed_all(&mut m, "xaaabyy");
    assert_eq!(first, second);
    assert_eq!(first[4], Some("xa".to_string()));
}

#[test]
fn matched_matcher_does_not_consume() {
    let e = literal("b");
    let mut m = e.get_matcher();
    assert_eq!(m.feed('a'), None);
    assert_eq!(m.feed('b'), Some("a".to_string()));
    assert_eq!(m.feed('c'), Some("a".to_string()));
    assert_eq!(m.value(), "a");
}

#[test]
fn empty_literal_never_matches() {
    let e = Expr::new();
    let mut m = e.get_matcher();
    assert!(!m.is_matched());
    assert_eq!(feed_all(&mut m, "abc"), vec![None, None, None]);
    assert_eq!(m.value(), "abc");
}

#[test]
fn flag_and_name_of_a_segment() {
    let mut e = literal("=>");
    e.append_name('k');
    e.append_name('1');
    assert_eq!(e._flag(), "=>");
    assert_eq!(e.name_str(), "k1");
    assert_eq!(e.literal_len(), 2);
    assert_eq!(e.format("v".to_string()), "\"k1\":\"v\"");
}

#[test]
fn chars_of_a_string() {
    let v = chars_of("aé中");
    assert_eq!(v, vec!['a', 'é', '中']);
    assert_eq!(chars_of(""), Vec::<char>::new());
}
