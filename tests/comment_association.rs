use syn_serde::{associate_comments_with_nodes, Comment, CommentKind, SpanInfo};

#[test]
fn test_comment_on_same_line_as_node() {
    let comment = Comment {
        text: "Line 2".to_string(),
        span: SpanInfo {
            start_offset: 0,
            end_offset: 0,
            start_line: 2,
            start_column: 9,
            end_line: 2,
            end_column: 18,
        },
        kind: CommentKind::Line,
    };

    let node_spans = vec![
        ("item_0".to_string(), SpanInfo {
            start_offset: 0,
            end_offset: 0,
            start_line: 2,
            start_column: 3,
            end_line: 2,
            end_column: 6,
        }),
        ("item_0_block".to_string(), SpanInfo {
            start_offset: 0,
            end_offset: 0,
            start_line: 4,
            start_column: 9,
            end_line: 8,
            end_column: 10,
        }),
    ];

    let associations = associate_comments_with_nodes(&[comment], &node_spans);
    // The comment trails the declaration on its line.
    assert_eq!(associations.len(), 1);
    assert!(associations.contains_key("item_0"));
    assert_eq!(associations.get("item_0").unwrap().len(), 1);
    assert_eq!(associations.get("item_0").unwrap()[0].text, "Line 2");
}

#[test]
fn test_comment_before_node() {
    let comment = Comment {
        text: "white space".to_string(),
        span: SpanInfo {
            start_offset: 0,
            end_offset: 0,
            start_line: 1,
            start_column: 0,
            end_line: 1,
            end_column: 14,
        },
        kind: CommentKind::Line,
    };

    let node_spans = vec![
        ("item_0".to_string(), SpanInfo {
            start_offset: 0,
            end_offset: 0,
            start_line: 2,
            start_column: 3,
            end_line: 2,
            end_column: 6,
        }),
    ];

    let associations = associate_comments_with_nodes(&[comment], &node_spans);
    // A comment before the declaration is not the declaration's.
    assert_eq!(associations.len(), 0);
}

#[test]
fn test_comment_inside_block() {
    let comment = Comment {
        text: "Line 4, Column 10".to_string(),
        span: SpanInfo {
            start_offset: 0,
            end_offset: 0,
            start_line: 4,
            start_column: 11,
            end_line: 4,
            end_column: 31,
        },
        kind: CommentKind::Line,
    };

    let node_spans = vec![
        ("item_0_block".to_string(), SpanInfo {
            start_offset: 0,
            end_offset: 0,
            start_line: 4,
            start_column: 9,
            end_line: 10,
            end_column: 10,
        }),
    ];

    let associations = associate_comments_with_nodes(&[comment], &node_spans);
    assert_eq!(associations.len(), 1);
    assert!(associations.contains_key("item_0_block"));
    assert_eq!(associations.get("item_0_block").unwrap().len(), 1);
    assert_eq!(associations.get("item_0_block").unwrap()[0].text, "Line 4, Column 10");
}

#[test]
fn test_comment_outside_node_scope_not_associated() {
    let comment = Comment {
        text: "Line 10, Column 10 - after function".to_string(),
        span: SpanInfo {
            start_offset: 0,
            end_offset: 0,
            start_line: 10,
            start_column: 11, // after the closing brace
            end_line: 10,
            end_column: 50,
        },
        kind: CommentKind::Line,
    };

    let node_spans = vec![
        ("fn_foo".to_string(), SpanInfo {
            start_offset: 0,
            end_offset: 0,
            start_line: 2,
            start_column: 3,
            end_line: 2,
            end_column: 6,
        }),
        ("block_body".to_string(), SpanInfo {
            start_offset: 0,
            end_offset: 0,
            start_line: 4,
            start_column: 9,
            end_line: 10,
            end_column: 10, // the block ends at column 10
        }),
    ];

    let associations = associate_comments_with_nodes(&[comment], &node_spans);
    assert_eq!(associations.len(), 0);
}

#[test]
fn test_comment_between_function_and_brace() {
    let comment = Comment {
        text: "Between function and brace".to_string(),
        span: SpanInfo {
            start_offset: 0,
            end_offset: 0,
            start_line: 3,
            start_column: 0,
            end_line: 3,
            end_column: 29,
        },
        kind: CommentKind::Line,
    };

    let node_spans = vec![
        ("item_0".to_string(), SpanInfo {
            start_offset: 0,
            end_offset: 0,
            start_line: 2, // declaration on line 2
            start_column: 3,
            end_line: 2,
            end_column: 6,
        }),
        ("item_0_block".to_string(), SpanInfo {
            start_offset: 0,
            end_offset: 0,
            start_line: 4, // block opens on line 4
            start_column: 0,
            end_line: 6,
            end_column: 1,
        }),
    ];

    let associations = associate_comments_with_nodes(&[comment], &node_spans);
    assert_eq!(associations.len(), 1);
    assert!(associations.contains_key("item_0"));
    assert_eq!(associations.get("item_0").unwrap().len(), 1);
    assert_eq!(associations.get("item_0").unwrap()[0].text, "Between function and brace");
}
