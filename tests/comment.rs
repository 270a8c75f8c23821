use syn_serde::{extract_comments, CommentKind};

#[test]
fn test_extract_line_comments() {
    let source = r#"// white space
fn foo() // Line 2

         { // Line 4, Column 10





         } // Line 10, Column 10"#;

    let comments = extract_comments(source);
    assert_eq!(comments.len(), 4);

    // Check first comment
    assert_eq!(comments[0].text, "white space");
    assert_eq!(comments[0].span.start_line, 1);
    assert_eq!(comments[0].span.start_column, 0);
    assert_eq!(comments[0].kind, CommentKind::Line);

    // Check second comment
    assert_eq!(comments[1].text, "Line 2");
    assert_eq!(comments[1].span.start_line, 2);
    assert_eq!(comments[1].span.start_column, 9);
    assert_eq!(comments[1].kind, CommentKind::Line);

    // Check third comment
    assert_eq!(comments[2].text, "Line 4, Column 10");
    assert_eq!(comments[2].span.start_line, 4);
    assert_eq!(comments[2].span.start_column, 11);
    assert_eq!(comments[2].kind, CommentKind::Line);

    // Check fourth comment
    assert_eq!(comments[3].text, "Line 10, Column 10");
    assert_eq!(comments[3].span.start_line, 10);
    assert_eq!(comments[3].span.start_column, 11);
    assert_eq!(comments[3].kind, CommentKind::Line);
}

#[test]
fn test_extract_block_comments() {
    let source = "/* block comment */ fn test() {}";

    let comments = extract_comments(source);
    assert_eq!(comments.len(), 1);

    assert_eq!(comments[0].text, "block comment");
    assert_eq!(comments[0].span.start_line, 1);
    assert_eq!(comments[0].span.start_column, 0);
    assert_eq!(comments[0].span.end_column, 19);
    assert_eq!(comments[0].kind, CommentKind::Block);
}

#[test]
fn test_ignore_comments_in_strings() {
    let source = r#"let s = "// not a comment";"#;

    let comments = extract_comments(source);
    assert_eq!(comments.len(), 0);
}

#[test]
fn test_comment_extraction_integration() {
    let source = r#"// white space
fn foo() // Line 2

         { // Line 4, Column 10





         } // Line 10, Column 10"#;

    let comments = extract_comments(source);
    assert_eq!(comments.len(), 4);

    let expected_comments = vec![
        ("white space", 1, 0),
        ("Line 2", 2, 9),
        ("Line 4, Column 10", 4, 11),
        ("Line 10, Column 10", 10, 11),
    ];

    for (i, (expected_text, expected_line, expected_column)) in expected_comments.iter().enumerate() {
        assert_eq!(comments[i].text, *expected_text);
        assert_eq!(comments[i].span.start_line, *expected_line);
        assert_eq!(comments[i].span.start_column, *expected_column);
        assert_eq!(comments[i].kind, CommentKind::Line);
    }
}
