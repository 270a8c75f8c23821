use syn_serde::{extract_comments, CommentKind};

#[test]
fn extraction_is_deterministic() {
    let source = "fn f() { /* a */ } // b\nlet s = \"/* no */\"; /* c */\n";
    let first = extract_comments(source);
    let second = extract_comments(source);
    assert_eq!(first, second);
    assert_eq!(first.len(), 3);
}

#[test]
fn two_block_comments_on_one_line() {
    let comments = extract_comments("/* a */ /* b */ code");
    assert_eq!(comments.len(), 2);
    assert_eq!(comments[0].text, "a");
    assert_eq!(comments[0].kind, CommentKind::Block);
    assert_eq!(comments[0].span.start_column, 0);
    assert_eq!(comments[0].span.end_column, 7);
    assert_eq!(comments[1].text, "b");
    assert_eq!(comments[1].kind, CommentKind::Block);
    assert_eq!(comments[1].span.start_column, 8);
    assert_eq!(comments[1].span.end_column, 15);
}

#[test]
fn comments_on_a_line_come_by_column() {
    let comments = extract_comments("/* a */ x // b /* c */");
    assert_eq!(comments.len(), 3);
    assert_eq!(comments[0].text, "a");
    assert_eq!(comments[0].span.start_column, 0);
    assert_eq!(comments[1].text, "b /* c */");
    assert_eq!(comments[1].kind, CommentKind::Line);
    assert_eq!(comments[1].span.start_column, 10);
    assert_eq!(comments[1].span.end_column, 22);
    assert_eq!(comments[2].text, "c");
    assert_eq!(comments[2].kind, CommentKind::Block);
    assert_eq!(comments[2].span.start_column, 15);
}

#[test]
fn marker_inside_char_literal_is_not_a_comment() {
    let comments = extract_comments("let c = '/'; let d = \"//\";");
    assert_eq!(comments.len(), 0);
}

#[test]
fn escaped_quote_keeps_the_string_open() {
    let comments = extract_comments("let s = \"a\\\" /* x */\"; /* y */");
    assert_eq!(comments.len(), 1);
    assert_eq!(comments[0].text, "y");
    assert_eq!(comments[0].span.start_column, 23);
}

#[test]
fn first_marker_in_string_hides_later_line_comment() {
    let comments = extract_comments("let s = \"//\"; // later");
    assert_eq!(comments.len(), 0);
}

#[test]
fn unclosed_block_comment_is_skipped() {
    let comments = extract_comments("/* opens here\n   closes here */\n/* ok */ /* open");
    assert_eq!(comments.len(), 1);
    assert_eq!(comments[0].text, "ok");
    assert_eq!(comments[0].span.start_line, 3);
}

#[test]
fn close_marker_must_follow_open_marker() {
    let comments = extract_comments("/*/ x */");
    assert_eq!(comments.len(), 1);
    assert_eq!(comments[0].text, "/ x");
    assert_eq!(comments[0].span.end_column, 8);
}

#[test]
fn crlf_line_endings_are_dropped() {
    let comments = extract_comments("// one\r\nfn f() {}\r\n// two\r\n");
    assert_eq!(comments.len(), 2);
    assert_eq!(comments[0].text, "one");
    assert_eq!(comments[0].span.end_column, 6);
    assert_eq!(comments[1].text, "two");
    assert_eq!(comments[1].span.start_line, 3);
}

#[test]
fn empty_source_has_no_comments() {
    assert_eq!(extract_comments("").len(), 0);
    assert_eq!(extract_comments("\n\n").len(), 0);
}

#[test]
fn columns_count_characters() {
    let comments = extract_comments("let é = 1; // après");
    assert_eq!(comments.len(), 1);
    assert_eq!(comments[0].text, "après");
    assert_eq!(comments[0].span.start_column, 11);
    assert_eq!(comments[0].span.end_column, 19);
}

#[test]
fn comment_text_is_trimmed_of_unicode_space() {
    let comments = extract_comments("//\u{3000}wide\t \u{a0}");
    assert_eq!(comments.len(), 1);
    assert_eq!(comments[0].text, "wide");
}
