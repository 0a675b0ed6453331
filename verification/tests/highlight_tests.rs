use sshp::ui::highlight::{highlight_segments, highlight_starts};

/// Draws `text` with each highlighted part in brackets.
fn render_to_string(text: &str, query: &str) -> String {
    let mut out = String::new();
    for seg in highlight_segments(text, query) {
        if seg.highlighted {
            out.push('[');
            out.push_str(&text[seg.start..seg.end]);
            out.push(']');
        } else {
            out.push_str(&text[seg.start..seg.end]);
        }
    }
    out
}

/// The text with the highlight brackets left out.
fn plain(s: &str) -> String {
    s.chars().filter(|c| *c != '[' && *c != ']').collect()
}

#[test]
fn test_empty_query_returns_plain_text() {
    let result = render_to_string("production-server", "");
    assert_eq!(result, "production-server");
}

#[test]
fn test_no_match_returns_plain_text() {
    let result = render_to_string("production-server", "xyz");
    assert_eq!(result, "production-server");
}

#[test]
fn test_match_contains_query_text() {
    let result = render_to_string("production-server", "prod");
    assert!(result.contains("prod"));
}

#[test]
fn test_case_insensitive_match() {
    let result = render_to_string("Production-Server", "prod");
    assert!(result.contains("Prod"));
}

#[test]
fn test_multiple_matches() {
    let result = render_to_string("server-server", "server");
    let count = result.matches("server").count();
    assert_eq!(count, 2);
}

#[test]
fn highlight_positions_are_exact() {
    assert_eq!(highlight_starts("server-server", "server"), vec![0, 7]);
    assert_eq!(highlight_starts("Production-Server", "PROD"), vec![0]);
    assert_eq!(highlight_starts("aaaa", "aa"), vec![0, 2]);
    assert_eq!(highlight_starts("aaa", "aa"), vec![0]);
    assert_eq!(highlight_starts("abc", ""), Vec::<usize>::new());
    assert_eq!(highlight_starts("abc", "abcd"), Vec::<usize>::new());
    assert_eq!(render_to_string("My-Prod-prod", "PROD"), "My-[Prod]-[prod]");
}

#[test]
fn highlighting_never_cuts_a_character() {
    // lower-casing 'İ' takes more bytes, so the match found in the
    // lower-cased text lies elsewhere in the name: it is passed over
    let result = render_to_string("İx", "x");
    assert_eq!(plain(&result), "İx");
    assert_eq!(highlight_starts("İx", "x"), vec![3]);
    let segs = highlight_segments("İx", "x");
    assert_eq!(segs.len(), 1);
    assert_eq!((segs[0].start, segs[0].end, segs[0].highlighted), (0, 3, false));
}

#[test]
fn segments_cover_the_name_in_order() {
    let segs = highlight_segments("web-web", "WEB");
    let parts: Vec<(usize, usize, bool)> = segs.iter().map(|s| (s.start, s.end, s.highlighted)).collect();
    assert_eq!(parts, vec![(0, 0, false), (0, 3, true), (3, 4, false), (4, 7, true), (7, 7, false)]);
    assert_eq!(render_to_string("web-web", "WEB"), "[web]-[web]");
}
