use brace_indent::indent::{
    balance, fix_indent, get_indent_level, leading_tab_count, try_fix_indent, IndentError,
};
use brace_indent::spans::{find_macro, Span};
use brace_indent::text::{has_char, indented, text_contains, text_starts_with, trim_leading};

fn lines(v: &[&str]) -> Vec<String> {
    v.iter().map(|s| s.to_string()).collect()
}

#[test]
fn test_find_span() {
    let buf = vec![
        "hello world".to_string(),
        "html! {".to_string(),
        "nonsense".to_string(),
        "}".to_string(),
    ];
    let spans = find_macro(&buf);
    assert_eq!(spans, vec![Span::new(1, 3)]);
}

#[test]
fn test_fix_indent() {
    let mut buf = vec![
        "hello world".to_string(),
        "html! {".to_string(),
        "nonsense".to_string(),
        "}".to_string(),
    ];

    let expected = vec![
        "hello world".to_string(),
        "html! {".to_string(),
        "    nonsense".to_string(),
        "}".to_string(),
    ];
    let res = fix_indent(&mut buf);
    println!("{:?}", res);
    assert_eq!(buf, expected);
}

#[test]
fn fix_indent_complex() {
    let mut buf = vec![
        "async fn handler() -> impl IntoResponse {".to_string(),
        "    html::fullpage(html! {".to_string(),
        "        h1 { \"Hello from rs\" }".to_string(),
        "            })".to_string(),
        "           }".to_string(),
    ];

    let expected = vec![
        "async fn handler() -> impl IntoResponse {".to_string(),
        "    html::fullpage(html! {".to_string(),
        "        h1 { \"Hello from rs\" }".to_string(),
        "    })".to_string(),
        "}".to_string(),
    ];

    fix_indent(&mut buf);
    assert_eq!(buf, expected);
}

#[test]
fn single_line_block_gives_no_span() {
    let mut buf = lines(&["a", "  html! { x }", "b"]);
    assert_eq!(find_macro(&buf), Vec::<Span>::new());
    let before = buf.clone();
    fix_indent(&mut buf);
    assert_eq!(buf, before);
}

#[test]
fn unterminated_block_is_left_alone() {
    let mut buf = lines(&["a", "html! {", "      b", "  c {", "d"]);
    assert_eq!(find_macro(&buf), Vec::<Span>::new());
    let before = buf.clone();
    fix_indent(&mut buf);
    assert_eq!(buf, before);
}

#[test]
fn no_token_no_span() {
    let buf = lines(&["fn main() {", "  x", "}"]);
    assert!(find_macro(&buf).is_empty());
    assert!(find_macro(&[]).is_empty());
}

#[test]
fn comment_line_does_not_start_a_block() {
    let buf = lines(&["// html! {", "x", "}"]);
    assert!(find_macro(&buf).is_empty());
}

#[test]
fn comment_line_does_not_count_braces() {
    let buf = lines(&["html! {", "// }", "  y", "}", "z"]);
    assert_eq!(find_macro(&buf), vec![Span::new(0, 3)]);
}

#[test]
fn spans_are_ordered_and_disjoint() {
    let buf = lines(&["html! {", "a", "}", "b", "html! {", "c {", "d", "}", "}"]);
    let spans = find_macro(&buf);
    assert_eq!(spans, vec![Span::new(0, 2), Span::new(4, 8)]);
    for w in spans.windows(2) {
        assert!(w[0].end < w[1].start);
    }
    for s in &spans {
        assert!(s.start < s.end && s.end < buf.len());
    }
}

#[test]
fn repeated_token_moves_the_start() {
    let buf = lines(&["html! {", "html!", "}"]);
    assert_eq!(find_macro(&buf), vec![Span::new(1, 2)]);
}

#[test]
fn several_braces_on_a_line_count_once() {
    let buf = lines(&["html! {", "a { b {", "}", "}", "x"]);
    assert_eq!(find_macro(&buf), vec![Span::new(0, 3)]);
}

#[test]
fn close_at_depth_zero_stays_at_zero() {
    let mut buf = lines(&["html! {}", "      }"]);
    assert_eq!(find_macro(&buf), vec![Span::new(0, 1)]);
    fix_indent(&mut buf);
    assert_eq!(buf, lines(&["html! {}", "}"]));
}

#[test]
fn block_keeps_the_indent_of_its_first_line() {
    let mut buf = lines(&["    html! {", "a {", "b", "}", "}"]);
    fix_indent(&mut buf);
    assert_eq!(
        buf,
        lines(&["    html! {", "        a {", "            b", "        }", "    }"])
    );
}

#[test]
fn leading_tab_is_dropped_from_the_first_line() {
    let mut buf = lines(&["\t  html! {", "x", "}"]);
    fix_indent(&mut buf);
    assert_eq!(buf, lines(&["  html! {", "      x", "  }"]));
}

#[test]
fn fixing_twice_changes_nothing_more() {
    let mut buf = lines(&[
        "async fn handler() -> impl IntoResponse {",
        "    html::fullpage(html! {",
        "  div {",
        "p { \"a } b\" }",
        "        }",
        "            })",
        "           }",
    ]);
    fix_indent(&mut buf);
    let once = buf.clone();
    fix_indent(&mut buf);
    assert_eq!(buf, once);
}

#[test]
fn balance_classifies_lines() {
    assert_eq!(balance("a {"), 1);
    assert_eq!(balance("}"), -1);
    assert_eq!(balance("{}"), 0);
    assert_eq!(balance(""), 0);
    assert_eq!(balance("x \"{\""), 0);
    assert_eq!(balance("p { \"}\""), 1);
    assert_eq!(balance("} } {"), -1);
}

#[test]
fn indent_level_counts_spaces() {
    assert_eq!(get_indent_level("    y"), 4);
    assert_eq!(get_indent_level("\t  x"), 2);
    assert_eq!(get_indent_level(" \t x"), 2);
    assert_eq!(get_indent_level(""), 0);
    assert_eq!(get_indent_level("x   "), 0);
}

#[test]
fn text_helpers() {
    assert_eq!(trim_leading("\u{3000} \tab c"), "ab c");
    assert_eq!(trim_leading("abc"), "abc");
    assert_eq!(indented(3, "x"), "   x");
    assert!(text_contains("a html! b", "html!"));
    assert!(!text_contains("a html b", "html!"));
    assert!(text_starts_with("// c", "//"));
    assert!(!text_starts_with(" // c", "//"));
    assert!(has_char("a}", '}'));
    assert!(!has_char("a", '}'));
}

#[test]
fn tab_count_stops_at_text() {
    assert_eq!(leading_tab_count("\t \tx\t"), 2);
    assert_eq!(leading_tab_count("  x"), 0);
    assert_eq!(leading_tab_count(""), 0);
}

#[test]
fn checked_fix_reindents() {
    let mut buf = lines(&["hello world", "html! {", "nonsense", "}"]);
    assert_eq!(try_fix_indent(&mut buf), Ok(()));
    assert_eq!(buf, lines(&["hello world", "html! {", "    nonsense", "}"]));
}

#[test]
fn checked_fix_rejects_two_tabs() {
    let mut buf = lines(&["x", "\t\thtml! {", "a", "}"]);
    let before = buf.clone();
    assert_eq!(
        try_fix_indent(&mut buf),
        Err(IndentError::TabbedBlockStart { line: 1 })
    );
    assert_eq!(buf, before);
}

#[test]
fn two_tabs_outside_blocks_are_fine() {
    let mut buf = lines(&["\t\tx", "html! {", "a", "}"]);
    assert_eq!(try_fix_indent(&mut buf), Ok(()));
    assert_eq!(buf, lines(&["\t\tx", "html! {", "    a", "}"]));
}
