use syn_serde::{
    associate_comments_with_file_nodes, associate_comments_with_nodes, associate_with_policy,
    collect_file_spans, extract_comments, AssociationPolicy, Comment, CommentKind, File, Item,
    ItemKind, SpanInfo,
};

fn span(start_line: usize, start_column: usize, end_line: usize, end_column: usize) -> SpanInfo {
    SpanInfo { start_offset: 0, end_offset: 0, start_line, start_column, end_line, end_column }
}

fn one_fn(decl: SpanInfo, body: SpanInfo) -> File {
    File { items: vec![Item::new(ItemKind::Fn, Some(decl), Some(body))], comments: Vec::new() }
}

#[test]
fn comment_before_declaration_stays_at_root() {
    let source = "// top\nfn f() {}";
    let file = File::from_syn_with_comments(one_fn(span(2, 3, 2, 4), span(2, 7, 2, 9)), source);
    assert_eq!(file.comments.len(), 1);
    assert_eq!(file.comments[0].text, "top");
    assert_eq!(file.items[0].comments.len(), 0);
    assert_eq!(file.items[0].block.as_ref().unwrap().comments.len(), 0);
}

#[test]
fn trailing_comment_goes_to_declaration() {
    let source = "fn f() // note\n{\n}";
    let file = File::from_syn_with_comments(one_fn(span(1, 3, 1, 4), span(2, 0, 3, 1)), source);
    assert_eq!(file.items[0].comments.len(), 1);
    assert_eq!(file.items[0].comments[0].text, "note");
    assert_eq!(file.items[0].block.as_ref().unwrap().comments.len(), 0);
    assert_eq!(file.comments.len(), 0);
}

#[test]
fn inner_comment_goes_to_block() {
    let source = "fn f() {\n  // inside\n}";
    let file = File::from_syn_with_comments(one_fn(span(1, 3, 1, 4), span(1, 7, 3, 1)), source);
    let block = file.items[0].block.as_ref().unwrap();
    assert_eq!(block.comments.len(), 1);
    assert_eq!(block.comments[0].text, "inside");
    assert_eq!(file.items[0].comments.len(), 0);
    assert_eq!(file.comments.len(), 0);
}

#[test]
fn comment_between_signature_and_brace_goes_to_declaration() {
    let source = "fn f()\n// between\n{\n}";
    let file = File::from_syn_with_comments(one_fn(span(1, 3, 1, 4), span(3, 0, 4, 1)), source);
    assert_eq!(file.items[0].comments.len(), 1);
    assert_eq!(file.items[0].comments[0].text, "between");
}

fn mixed_tree() -> File {
    File {
        items: vec![
            Item::new(ItemKind::Use, Some(span(1, 0, 1, 3)), None),
            Item::new(ItemKind::Struct, Some(span(2, 7, 2, 8)), None),
            Item::new(ItemKind::Fn, Some(span(3, 3, 3, 4)), Some(span(3, 7, 5, 1))),
            Item::new(ItemKind::Enum, Some(span(6, 5, 6, 6)), None),
        ],
        comments: Vec::new(),
    }
}

const MIXED: &str = "use a; // on use\nstruct S; // on struct\nfn f() { // opens\n    // body\n} // after\nenum E {} // on enum\n";

#[test]
fn kinds_without_span_or_list_leave_comments_at_root() {
    let file = File::from_syn_with_comments(mixed_tree(), MIXED);
    assert_eq!(file.items[0].comments.len(), 1);
    assert_eq!(file.items[0].comments[0].text, "on use");
    assert_eq!(file.items[1].comments.len(), 0);
    assert!(file.items[1].span.is_none());
    assert_eq!(file.items[2].comments.len(), 0);
    let block = file.items[2].block.as_ref().unwrap();
    assert_eq!(block.comments.len(), 2);
    assert_eq!(block.comments[0].text, "opens");
    assert_eq!(block.comments[1].text, "body");
    assert_eq!(file.items[3].comments.len(), 1);
    assert_eq!(file.items[3].comments[0].text, "on enum");
    assert_eq!(file.comments.len(), 2);
    assert_eq!(file.comments[0].text, "on struct");
    assert_eq!(file.comments[1].text, "after");
}

#[test]
fn every_comment_is_placed_once() {
    let comments = extract_comments(MIXED);
    let tree = mixed_tree();
    let map = associate_comments_with_file_nodes(&comments, &tree, AssociationPolicy::Conservative);
    let mut placed = map.unassociated().len();
    for key in ["item_0", "item_1", "item_2", "item_2_block", "item_3"] {
        if let Some(list) = map.get(key) {
            placed += list.len();
        }
    }
    assert_eq!(map.len(), 3);
    assert_eq!(placed, comments.len());
    assert_eq!(comments.len(), 6);
}

#[test]
fn node_spans_survive_annotation() {
    let before = collect_file_spans(&mixed_tree());
    let annotated = File::from_syn_with_comments(mixed_tree(), MIXED);
    let after = collect_file_spans(&annotated);
    assert_eq!(before, after);
    let comments = extract_comments(MIXED);
    let first = associate_comments_with_nodes(&comments, &before);
    let second = associate_comments_with_nodes(&comments, &after);
    assert_eq!(first.len(), second.len());
    assert_eq!(first.unassociated(), second.unassociated());
    for key in ["item_0", "item_2_block", "item_3"] {
        assert_eq!(first.get(key), second.get(key));
    }
}

#[test]
fn node_spans_use_positional_identifiers() {
    let mut items = Vec::new();
    for i in 0..12 {
        items.push(Item::new(ItemKind::Const, Some(span(i + 1, 6, i + 1, 7)), None));
    }
    items.push(Item::new(ItemKind::Fn, Some(span(13, 3, 13, 4)), Some(span(13, 7, 14, 1))));
    let spans = collect_file_spans(&File { items, comments: Vec::new() });
    assert_eq!(spans.len(), 14);
    assert_eq!(spans[0].0, "item_0");
    assert_eq!(spans[10].0, "item_10");
    assert_eq!(spans[12].0, "item_12");
    assert_eq!(spans[13].0, "item_12_block");
    assert_eq!(spans[13].1, span(13, 7, 14, 1));
}

#[test]
fn single_line_block_claims_comment_after_its_brace() {
    let source = "fn f() {} // after";
    let file = File::from_syn_with_comments(one_fn(span(1, 3, 1, 4), span(1, 7, 1, 9)), source);
    let block = file.items[0].block.as_ref().unwrap();
    assert_eq!(block.comments.len(), 1);
    assert_eq!(block.comments[0].text, "after");
}

#[test]
fn item_kinds_have_their_capabilities() {
    assert!(ItemKind::Fn.has_span() && ItemKind::Fn.holds_comments() && ItemKind::Fn.has_block());
    assert!(!ItemKind::Struct.has_span() && !ItemKind::Struct.holds_comments());
    assert!(!ItemKind::Union.has_span() && ItemKind::Union.holds_comments());
    assert!(!ItemKind::Mod.has_span() && !ItemKind::Mod.holds_comments());
    assert!(ItemKind::Impl.has_span() && !ItemKind::Impl.has_block());
}

#[test]
fn default_policy_is_conservative() {
    assert_eq!(AssociationPolicy::default(), AssociationPolicy::Conservative);
}

#[test]
fn nearest_rule_takes_comment_above_as_leading() {
    let source = "// top\nfn f() {}";
    let tree = one_fn(span(2, 3, 2, 4), span(2, 7, 2, 9));
    let file = File::with_comments(tree, source, AssociationPolicy::Nearest);
    assert_eq!(file.items[0].comments.len(), 1);
    assert_eq!(file.items[0].comments[0].text, "top");
    assert_eq!(file.comments.len(), 0);
}

#[test]
fn nearest_rule_prefers_same_line_node() {
    let source = "fn f() { // opens\n}";
    let tree = one_fn(span(1, 3, 1, 4), span(1, 7, 2, 1));
    let file = File::with_comments(tree, source, AssociationPolicy::Nearest);
    let block = file.items[0].block.as_ref().unwrap();
    assert_eq!(block.comments.len(), 1);
    assert_eq!(block.comments[0].text, "opens");
    assert_eq!(file.items[0].comments.len(), 0);
}

#[test]
fn nearest_rule_gives_comment_to_smallest_enclosing_node() {
    let comment = Comment {
        text: "deep".to_string(),
        span: span(6, 4, 6, 11),
        kind: CommentKind::Line,
    };
    let node_spans = vec![
        ("outer".to_string(), span(1, 0, 20, 0)),
        ("inner".to_string(), span(5, 0, 8, 0)),
        ("elsewhere".to_string(), span(10, 0, 12, 0)),
    ];
    let nearest = associate_with_policy(&[comment.clone()], &node_spans, AssociationPolicy::Nearest);
    assert_eq!(nearest.len(), 1);
    assert_eq!(nearest.get("inner").unwrap()[0].text, "deep");
    let conservative = associate_comments_with_nodes(&[comment], &node_spans);
    assert_eq!(conservative.len(), 0);
    assert_eq!(conservative.unassociated().len(), 1);
}

#[test]
fn nearest_rule_leaves_far_comment_unclaimed() {
    let comment = Comment {
        text: "far".to_string(),
        span: span(30, 0, 30, 6),
        kind: CommentKind::Line,
    };
    let node_spans = vec![("item_0".to_string(), span(1, 3, 1, 4))];
    let map = associate_with_policy(&[comment], &node_spans, AssociationPolicy::Nearest);
    assert_eq!(map.len(), 0);
    assert_eq!(map.unassociated()[0].text, "far");
}

#[test]
fn annotated_tree_holds_every_comment() {
    for policy in [AssociationPolicy::Conservative, AssociationPolicy::Nearest] {
        let file = File::with_comments(mixed_tree(), MIXED, policy);
        let mut held = file.comments.len();
        for item in &file.items {
            held += item.comments.len();
            if let Some(block) = &item.block {
                held += block.comments.len();
            }
        }
        assert_eq!(held, extract_comments(MIXED).len());
    }
}

#[test]
fn lists_without_an_entry_are_kept() {
    let mut tree = one_fn(span(1, 3, 1, 4), span(1, 7, 3, 1));
    tree.items[0].comments.push(Comment { text: "kept".to_string(), span: span(9, 0, 9, 7), kind: CommentKind::Line });
    tree.items[0].block.as_mut().unwrap().comments.push(Comment {
        text: "inner".to_string(),
        span: span(9, 0, 9, 8),
        kind: CommentKind::Line,
    });
    let file = File::from_syn_with_comments(tree, "fn f() {
    x
}");
    assert_eq!(file.items[0].comments.len(), 1);
    assert_eq!(file.items[0].comments[0].text, "kept");
    assert_eq!(file.items[0].block.as_ref().unwrap().comments[0].text, "inner");
    assert_eq!(file.comments.len(), 0);
}

#[test]
fn trailing_comment_is_compared_with_the_declaration_end_line() {
    let node_spans = vec![
        ("item_0".to_string(), span(2, 3, 3, 1)),
        ("item_0_block".to_string(), span(5, 0, 7, 1)),
    ];
    let on_first_line = Comment { text: "first".to_string(), span: span(2, 9, 2, 16), kind: CommentKind::Line };
    let on_last_line = Comment { text: "last".to_string(), span: span(3, 5, 3, 11), kind: CommentKind::Line };
    let map = associate_comments_with_nodes(&[on_first_line], &node_spans);
    assert_eq!(map.len(), 0);
    let map = associate_comments_with_nodes(&[on_last_line], &node_spans);
    assert_eq!(map.get("item_0").unwrap()[0].text, "last");
}
