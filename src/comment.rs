//! Recovers the comments of a source text, line by line, without a tokenizer.
use crate::span::SpanInfo;
use vstd::prelude::*;

verus! {

/// A comment of the source text.
#[derive(Debug, PartialEq, Eq)]
pub struct Comment {
    /// The text between the delimiters, trimmed of white space.
    pub text: String,
    /// Where the comment stands, delimiters included.
    pub span: SpanInfo,
    /// Whether the comment is a line comment or a block comment.
    pub kind: CommentKind,
}

/// The two kinds of comment.
#[derive(Debug, Clone, Copy, PartialEq, Eq)]
pub enum CommentKind {
    /// A comment from `//` to the end of the line.
    Line,
    /// A comment between `/*` and `*/` on one line.
    Block,
}

/// What a [`Comment`] holds, with its text as a sequence of characters.
pub struct CommentView {
    /// The text between the delimiters, trimmed of white space.
    pub text: Seq<char>,
    /// Where the comment stands, delimiters included.
    pub span: SpanInfo,
    /// Whether the comment is a line comment or a block comment.
    pub kind: CommentKind,
}

impl View for Comment {
    type V = CommentView;

    open spec fn view(&self) -> CommentView {
        CommentView { text: self.text@, span: self.span, kind: self.kind }
    }
}

impl Clone for Comment {
    /// A comment equal to this one.
    fn clone(&self) -> (r: Comment)
        ensures
            r == *self,
    {
        Comment { text: self.text.clone(), span: self.span, kind: self.kind }
    }
}

/// The views of a sequence of comments.
pub open spec fn comment_views(cs: Seq<Comment>) -> Seq<CommentView> {
    cs.map_values(|c: Comment| c@)
}

/// A copy of each comment of `cs`, in order.
pub fn copy_comments(cs: &Vec<Comment>) -> (r: Vec<Comment>)
    ensures
        comment_views(r@) == comment_views(cs@),
{
    let mut r: Vec<Comment> = Vec::new();
    let mut i: usize = 0;
    while i < cs.len()
        invariant
            i <= cs.len(),
            comment_views(r@) == comment_views(cs@.take(i as int)),
        decreases cs.len() - i,
    {
        let ghost before = r@;
        r.push(cs[i].clone());
        proof {
            assert(r@ =~= before.push(cs@[i as int]));
            assert(cs@.take(i + 1) =~= cs@.take(i as int).push(cs@[i as int]));
            assert(comment_views(r@) =~= comment_views(before).push(cs@[i as int]@));
            assert(comment_views(cs@.take(i + 1)) =~= comment_views(cs@.take(i as int)).push(cs@[i as int]@));
        }
        i = i + 1;
    }
    proof {
        assert(cs@.take(cs.len() as int) =~= cs@);
    }
    r
}

/// The view of a comment that may be absent.
pub open spec fn pending_view(c: Option<Comment>) -> Option<CommentView> {
    match c {
        Some(c) => Some(c@),
        None => None,
    }
}

/// Characters with Unicode's White_Space property.
pub open spec fn is_white_space(c: char) -> bool {
    let u = c as u32;
    ||| 0x9 <= u <= 0xd
    ||| u == 0x20
    ||| u == 0x85
    ||| u == 0xa0
    ||| u == 0x1680
    ||| 0x2000 <= u <= 0x200a
    ||| u == 0x2028
    ||| u == 0x2029
    ||| u == 0x202f
    ||| u == 0x205f
    ||| u == 0x3000
}

/// `s` without its leading and trailing white space.
pub open spec fn trimmed(s: Seq<char>) -> Seq<char>
    decreases s.len(),
{
    if s.len() > 0 && is_white_space(s[0]) {
        trimmed(s.drop_first())
    } else if s.len() > 0 && is_white_space(s.last()) {
        trimmed(s.drop_last())
    } else {
        s
    }
}

/// The index of the first `'\n'` at or after `from`, or the length of `s`.
pub open spec fn newline_from(s: Seq<char>, from: int) -> int
    decreases s.len() - from,
{
    if from < 0 || from >= s.len() {
        s.len() as int
    } else if s[from] == '\n' {
        from
    } else {
        newline_from(s, from + 1)
    }
}

/// The newline search stops at the first `'\n'` at or after `from`.
pub proof fn lemma_newline_from(s: Seq<char>, from: int)
    requires
        0 <= from <= s.len(),
    ensures
        from <= newline_from(s, from) <= s.len(),
        newline_from(s, from) < s.len() ==> s[newline_from(s, from)] == '\n',
        forall|k: int| from <= k < newline_from(s, from) ==> s[k] != '\n',
    decreases s.len() - from,
{
    if from < s.len() && s[from] != '\n' {
        lemma_newline_from(s, from + 1);
    }
}

/// The lines of `s` from index `from` on: each ends before a `'\n'`, or a
/// `"\r\n"`, or at the end of `s`; no line follows a final `'\n'`.
pub open spec fn lines_from(s: Seq<char>, from: int) -> Seq<Seq<char>>
    decreases s.len() + 1 - from,
    via lines_from_decreases
{
    if from < 0 || from >= s.len() {
        seq![]
    } else {
        let e = newline_from(s, from);
        let line = if e < s.len() && e > from && s[e - 1] == '\r' {
            s.subrange(from, e - 1)
        } else {
            s.subrange(from, e)
        };
        seq![line] + lines_from(s, e + 1)
    }
}

#[via_fn]
proof fn lines_from_decreases(s: Seq<char>, from: int) {
    if 0 <= from < s.len() {
        lemma_newline_from(s, from);
    }
}

/// The lines of `s`.
pub open spec fn lines_of(s: Seq<char>) -> Seq<Seq<char>> {
    lines_from(s, 0)
}

/// Relies on str::lines: the text split at each `"\n"`, a `'\r'` right before
/// it dropped, with no empty line after a final `"\n"`.
#[verifier::external_body]
fn split_lines<'a>(s: &'a str) -> (r: Vec<&'a str>)
    ensures
        r@.len() == lines_of(s@).len(),
        forall|i: int| 0 <= i < r@.len() ==> (#[trigger] r@[i])@ == lines_of(s@)[i],
{
    s.lines().collect()
}

/// Relies on str::trim: the text without the leading and trailing characters
/// for which char::is_whitespace holds, those with the White_Space property.
#[verifier::external_body]
fn trim_text<'a>(s: &'a str) -> (r: &'a str)
    ensures
        r@ == trimmed(s@),
{
    s.trim()
}

/// Whether the two-character marker `a` `b` begins at index `i` of `line`.
pub open spec fn marker_at(line: Seq<char>, i: int, a: char, b: char) -> bool {
    0 <= i && i + 1 < line.len() && line[i] == a && line[i + 1] == b
}

/// The first index at or after `from` where the marker `a` `b` begins.
pub open spec fn find_marker(line: Seq<char>, from: int, a: char, b: char) -> Option<int>
    decreases line.len() - from,
{
    if from < 0 || from + 1 >= line.len() {
        None
    } else if marker_at(line, from, a, b) {
        Some(from)
    } else {
        find_marker(line, from + 1, a, b)
    }
}

/// The marker search stops at the first place at or after `from` where the
/// marker begins, or finds none where there is none.
pub proof fn lemma_find_marker(line: Seq<char>, from: int, a: char, b: char)
    requires
        0 <= from,
    ensures
        match find_marker(line, from, a, b) {
            Some(p) => from <= p && marker_at(line, p, a, b) && forall|k: int|
                from <= k < p ==> !marker_at(line, k, a, b),
            None => forall|k: int| from <= k ==> !marker_at(line, k, a, b),
        },
    decreases line.len() - from,
{
    if from + 1 < line.len() && !marker_at(line, from, a, b) {
        lemma_find_marker(line, from + 1, a, b);
    }
}

/// One step of the quote tracker over the character `c`. Its state is the
/// quote character of the open literal, if any, and whether the character
/// before escapes the next; a backslash escapes only inside a literal.
pub open spec fn quote_step(st: (Option<char>, bool), c: char) -> (Option<char>, bool) {
    if (c == '"' || c == '\'') && !st.1 {
        match st.0 {
            Some(q) => if c == q {
                (None, false)
            } else {
                (Some(q), false)
            },
            None => (Some(c), false),
        }
    } else if c == '\\' && st.0 is Some {
        (st.0, !st.1)
    } else {
        (st.0, false)
    }
}

/// The quote tracker's state after the first `n` characters of `line`.
pub open spec fn quote_state(line: Seq<char>, n: int) -> (Option<char>, bool)
    decreases n,
{
    if n <= 0 {
        (None, false)
    } else {
        quote_step(quote_state(line, n - 1), line[n - 1])
    }
}

/// Whether index `pos` of `line` lies inside a quoted string or character
/// literal opened earlier on the line.
pub open spec fn inside_string_literal(line: Seq<char>, pos: int) -> bool {
    quote_state(line, pos).0 is Some
}

/// The comment of `kind` on line `ln` that spans columns `start` to `end`,
/// with the text between columns `from` and `to`.
pub open spec fn comment_on_line(
    line: Seq<char>,
    ln: int,
    start: int,
    from: int,
    to: int,
    end: int,
    kind: CommentKind,
) -> CommentView {
    CommentView {
        text: trimmed(line.subrange(from, to)),
        span: SpanInfo {
            start_offset: 0,
            end_offset: 0,
            start_line: ln as usize,
            start_column: start as usize,
            end_line: ln as usize,
            end_column: end as usize,
        },
        kind,
    }
}

/// The line comment of `line`: it starts at the first `//` of the line,
/// unless that lies inside a literal, and runs to the end of the line.
pub open spec fn line_comment(line: Seq<char>, ln: int) -> Option<CommentView> {
    match find_marker(line, 0, '/', '/') {
        Some(p) => if inside_string_literal(line, p) {
            None
        } else {
            Some(comment_on_line(line, ln, p, p + 2, line.len() as int, line.len() as int, CommentKind::Line))
        },
        None => None,
    }
}

/// The block comments of `line` from column `from` on: each `/*` outside a
/// literal opens one, which the next `*/` closes; scanning goes on after the
/// `*/`, and stops at a `/*` that no `*/` closes.
pub open spec fn block_comments(line: Seq<char>, ln: int, from: int) -> Seq<CommentView>
    decreases line.len() + 2 - from,
    via block_comments_decreases
{
    if from < 0 {
        seq![]
    } else {
        match find_marker(line, from, '/', '*') {
            None => seq![],
            Some(a) => if inside_string_literal(line, a) {
                block_comments(line, ln, a + 1)
            } else {
                match find_marker(line, a + 2, '*', '/') {
                    None => seq![],
                    Some(e) => seq![comment_on_line(line, ln, a, a + 2, e, e + 2, CommentKind::Block)]
                        + block_comments(line, ln, e + 2),
                }
            },
        }
    }
}

#[via_fn]
proof fn block_comments_decreases(line: Seq<char>, ln: int, from: int) {
    if from >= 0 {
        lemma_find_marker(line, from, '/', '*');
        if let Some(a) = find_marker(line, from, '/', '*') {
            lemma_find_marker(line, a + 2, '*', '/');
        }
    }
}

/// `blocks` with the line comment `lc` put in place by its start column.
pub open spec fn merge_line(blocks: Seq<CommentView>, lc: Option<CommentView>) -> Seq<CommentView>
    decreases blocks.len(),
{
    match lc {
        None => blocks,
        Some(c) => if blocks.len() == 0 {
            seq![c]
        } else if blocks[0].span.start_column < c.span.start_column {
            seq![blocks[0]] + merge_line(blocks.drop_first(), lc)
        } else {
            seq![c] + blocks
        },
    }
}

/// The comments of `line`, which is line `ln` of the text, by column.
pub open spec fn line_comments(line: Seq<char>, ln: int) -> Seq<CommentView> {
    merge_line(block_comments(line, ln, 0), line_comment(line, ln))
}

/// The comments of the first `n` lines of `lines`, the first of them line 1.
pub open spec fn comments_of_lines(lines: Seq<Seq<char>>, n: int) -> Seq<CommentView>
    decreases n,
{
    if n <= 0 {
        seq![]
    } else {
        comments_of_lines(lines, n - 1) + line_comments(lines[n - 1], n)
    }
}

/// The comments of the source text `s`, line by line.
pub open spec fn extracted(s: Seq<char>) -> Seq<CommentView> {
    comments_of_lines(lines_of(s), lines_of(s).len() as int)
}

/// The characters of `s`, in order.
pub(crate) fn chars_of(s: &str) -> (r: Vec<char>)
    ensures
        r@ == s@,
{
    let mut v: Vec<char> = Vec::new();
    for c in it: s.chars()
        invariant
            v@ == it.seq().take(it.index() as int),
            it.seq() == s@,
    {
        v.push(c);
    }
    v
}


/// The first index at or after `from` where the marker `a` `b` begins.
fn find_marker_from(line: &Vec<char>, from: usize, a: char, b: char) -> (r: Option<usize>)
    ensures
        match r {
            Some(p) => find_marker(line@, from as int, a, b) == Some(p as int),
            None => find_marker(line@, from as int, a, b) is None,
        },
{
    let mut i = from;
    while i < line.len() && i + 1 < line.len()
        invariant
            from <= i,
            find_marker(line@, from as int, a, b) == find_marker(line@, i as int, a, b),
        decreases line.len() - i,
    {
        if line[i] == a && line[i + 1] == b {
            return Some(i);
        }
        i = i + 1;
    }
    None
}

/// Whether index `pos` of `line` lies inside a quoted string or character
/// literal: the quote tracker runs over the characters before `pos`.
fn is_inside_string_literal(line: &Vec<char>, pos: usize) -> (r: bool)
    requires
        pos <= line.len(),
    ensures
        r == inside_string_literal(line@, pos as int),
{
    let mut quote: Option<char> = None;
    let mut escaped = false;
    let mut i: usize = 0;
    while i < pos
        invariant
            i <= pos <= line.len(),
            (quote, escaped) == quote_state(line@, i as int),
        decreases pos - i,
    {
        let c = line[i];
        if (c == '"' || c == '\'') && !escaped {
            match quote {
                Some(q) => {
                    if c == q {
                        quote = None;
                    }
                },
                None => {
                    quote = Some(c);
                },
            }
            escaped = false;
        } else if c == '\\' && quote.is_some() {
            escaped = !escaped;
        } else {
            escaped = false;
        }
        i = i + 1;
    }
    quote.is_some()
}

/// The comment of `kind` on line `ln` of the text, spanning columns `start`
/// to `end`, whose text lies between columns `from` and `to` of `line`.
fn make_comment(
    line: &str,
    ln: usize,
    start: usize,
    from: usize,
    to: usize,
    end: usize,
    kind: CommentKind,
) -> (r: Comment)
    requires
        from <= to <= line@.len(),
    ensures
        r@ == comment_on_line(line@, ln as int, start as int, from as int, to as int, end as int, kind),
{
    let text = trim_text(line.substring_char(from, to)).to_owned();
    Comment {
        text,
        span: SpanInfo {
            start_offset: 0,
            end_offset: 0,
            start_line: ln,
            start_column: start,
            end_line: ln,
            end_column: end,
        },
        kind,
    }
}

/// The block comments of `line`, which is line `ln` of the text, in order.
fn scan_block_comments(line: &str, chars: &Vec<char>, ln: usize) -> (r: Vec<Comment>)
    requires
        chars@ == line@,
    ensures
        comment_views(r@) == block_comments(line@, ln as int, 0),
{
    let mut blocks: Vec<Comment> = Vec::new();
    let mut search_start: usize = 0;
    loop
        invariant
            chars@ == line@,
            search_start <= chars.len() + 2,
            comment_views(blocks@) + block_comments(line@, ln as int, search_start as int)
                == block_comments(line@, ln as int, 0),
        ensures
            comment_views(blocks@) == block_comments(line@, ln as int, 0),
        decreases chars.len() + 2 - search_start,
    {
        proof {
            lemma_find_marker(line@, search_start as int, '/', '*');
        }
        match find_marker_from(chars, search_start, '/', '*') {
            None => {
                assert(block_comments(line@, ln as int, search_start as int) == Seq::<CommentView>::empty());
                assert(comment_views(blocks@) + Seq::<CommentView>::empty() =~= comment_views(blocks@));
                break ;
            },
            Some(actual_start) => {
                if is_inside_string_literal(chars, actual_start) {
                    search_start = actual_start + 1;
                } else {
                    proof {
                        lemma_find_marker(line@, actual_start + 2, '*', '/');
                    }
                    match find_marker_from(chars, actual_start + 2, '*', '/') {
                        None => {
                            assert(block_comments(line@, ln as int, search_start as int) == Seq::<CommentView>::empty());
                            assert(comment_views(blocks@) + Seq::<CommentView>::empty() =~= comment_views(blocks@));
                            break ;
                        },
                        Some(actual_end) => {
                            let c = make_comment(
                                line,
                                ln,
                                actual_start,
                                actual_start + 2,
                                actual_end,
                                actual_end + 2,
                                CommentKind::Block,
                            );
                            proof {
                                let rest = block_comments(line@, ln as int, actual_end + 2);
                                assert(comment_views(blocks@.push(c)) == comment_views(blocks@).push(c@));
                                assert(seq![c@] + rest == block_comments(line@, ln as int, search_start as int));
                                assert(comment_views(blocks@).push(c@) + rest == comment_views(blocks@) + (seq![c@] + rest));
                            }
                            blocks.push(c);
                            search_start = actual_end + 2;
                        },
                    }
                }
            },
        }
    }
    blocks
}

/// Appends the comments of `line`, which is line `ln` of the text, to `out`
/// in order of their start column.
fn scan_line(line: &str, ln: usize, out: &mut Vec<Comment>)
    ensures
        comment_views(final(out)@) == comment_views(old(out)@) + line_comments(line@, ln as int),
{
    let chars = chars_of(line);
    let mut pending: Option<Comment> = None;
    proof {
        lemma_find_marker(line@, 0, '/', '/');
    }
    if let Some(comment_start) = find_marker_from(&chars, 0, '/', '/') {
        if !is_inside_string_literal(&chars, comment_start) {
            pending = Some(make_comment(
                line,
                ln,
                comment_start,
                comment_start + 2,
                chars.len(),
                chars.len(),
                CommentKind::Line,
            ));
        }
    }
    let blocks = scan_block_comments(line, &chars, ln);
    let ghost start = comment_views(out@);
    let ghost lc = pending_view(pending);
    assert(lc == line_comment(line@, ln as int));
    assert(comment_views(blocks@).skip(0) =~= comment_views(blocks@));
    let mut i: usize = 0;
    while i < blocks.len()
        invariant
            i <= blocks.len(),
            lc == line_comment(line@, ln as int),
            comment_views(blocks@) == block_comments(line@, ln as int, 0),
            comment_views(out@) + merge_line(
                comment_views(blocks@).skip(i as int),
                pending_view(pending),
            ) == start + line_comments(line@, ln as int),
        decreases blocks.len() - i, if pending is Some { 1int } else { 0int },
    {
        let b = blocks[i].clone();
        let ghost rest = comment_views(blocks@).skip(i as int);
        proof {
            assert(rest[0] == b@);
            assert(rest.drop_first() == comment_views(blocks@).skip(i + 1));
        }
        let goes_first = match &pending {
            Some(c) => b.span.start_column < c.span.start_column,
            None => true,
        };
        if goes_first {
            proof {
                assert(comment_views(out@.push(b)) == comment_views(out@).push(b@));
            }
            out.push(b);
            i = i + 1;
        } else {
            let c = pending.take().unwrap();
            proof {
                assert(comment_views(out@.push(c)) == comment_views(out@).push(c@));
            }
            out.push(c);
        }
    }
    if let Some(c) = pending {
        proof {
            assert(comment_views(out@.push(c)) == comment_views(out@).push(c@));
        }
        out.push(c);
    }
}

/// The comments of `source`, line by line, and on each line by start column.
///
/// On each line, the first `//` opens a line comment unless it lies inside a
/// quoted literal; every `/*` outside a literal opens a block comment that the
/// next `*/` on the same line closes. A `/*` without its `*/` on the line ends
/// the scan of that line. Lines count from 1 and columns, counted in
/// characters, from 0.
pub fn extract_comments(source: &str) -> (r: Vec<Comment>)
    ensures
        comment_views(r@) == extracted(source@),
{
    let lines = split_lines(source);
    let mut comments: Vec<Comment> = Vec::new();
    let mut i: usize = 0;
    while i < lines.len()
        invariant
            i <= lines.len(),
            lines@.len() == lines_of(source@).len(),
            forall|k: int| 0 <= k < lines@.len() ==> (#[trigger] lines@[k])@ == lines_of(source@)[k],
            comment_views(comments@) == comments_of_lines(lines_of(source@), i as int),
        decreases lines.len() - i,
    {
        scan_line(lines[i], i + 1, &mut comments);
        i = i + 1;
    }
    comments
}

/// Extraction depends on the text alone: two runs on equal texts give equal
/// sequences of comments.
pub proof fn lemma_extract_deterministic(s1: Seq<char>, s2: Seq<char>)
    requires
        s1 == s2,
    ensures
        extracted(s1) == extracted(s2),
{
}

/// From column `from` on, a line whose every `/*` lies inside a quoted
/// literal holds no block comment.
proof fn lemma_quoted_block_markers(line: Seq<char>, ln: int, from: int)
    requires
        0 <= from,
        forall|i: int| #[trigger] marker_at(line, i, '/', '*') ==> inside_string_literal(line, i),
    ensures
        block_comments(line, ln, from) == Seq::<CommentView>::empty(),
    decreases line.len() + 2 - from,
{
    lemma_find_marker(line, from, '/', '*');
    if let Some(a) = find_marker(line, from, '/', '*') {
        lemma_quoted_block_markers(line, ln, a + 1);
    }
}

/// A line whose every `//` lies inside a quoted string or character literal
/// has no line comment; if its every `/*` lies inside one too, the line
/// yields no comment at all.
pub proof fn lemma_quoted_markers_are_not_comments(line: Seq<char>, ln: int)
    requires
        forall|i: int| #[trigger] marker_at(line, i, '/', '/') ==> inside_string_literal(line, i),
    ensures
        line_comment(line, ln) is None,
        (forall|i: int| #[trigger] marker_at(line, i, '/', '*') ==> inside_string_literal(line, i))
            ==> line_comments(line, ln) == Seq::<CommentView>::empty(),
{
    lemma_find_marker(line, 0, '/', '/');
    if forall|i: int| #[trigger] marker_at(line, i, '/', '*') ==> inside_string_literal(line, i) {
        lemma_quoted_block_markers(line, ln, 0);
    }
}

/// Whether the span `a` starts before the span `b`: on an earlier line, or on
/// the same line at an earlier column.
pub open spec fn starts_before(a: SpanInfo, b: SpanInfo) -> bool {
    a.start_line < b.start_line || (a.start_line == b.start_line && a.start_column < b.start_column)
}

/// Whether each comment of `cs` starts before the next.
pub open spec fn in_position_order(cs: Seq<CommentView>) -> bool {
    forall|i: int, j: int| 0 <= i < j < cs.len() ==> starts_before(cs[i].span, cs[j].span)
}

proof fn lemma_block_comments_shape(line: Seq<char>, ln: int, from: int)
    requires
        0 <= from,
        line.len() <= usize::MAX,
    ensures
        forall|i: int|
            0 <= i < block_comments(line, ln, from).len() ==> {
                let c = #[trigger] block_comments(line, ln, from)[i];
                &&& c.span.start_line == ln as usize
                &&& from <= c.span.start_column
                &&& marker_at(line, c.span.start_column as int, '/', '*')
            },
        forall|i: int, j: int|
            0 <= i < j < block_comments(line, ln, from).len() ==> block_comments(line, ln, from)[i].span.start_column
                < block_comments(line, ln, from)[j].span.start_column,
    decreases line.len() + 2 - from,
{
    lemma_find_marker(line, from, '/', '*');
    if let Some(a) = find_marker(line, from, '/', '*') {
        if inside_string_literal(line, a) {
            lemma_block_comments_shape(line, ln, a + 1);
        } else {
            lemma_find_marker(line, a + 2, '*', '/');
            if let Some(e) = find_marker(line, a + 2, '*', '/') {
                lemma_block_comments_shape(line, ln, e + 2);
                let rest = block_comments(line, ln, e + 2);
                let all = block_comments(line, ln, from);
                assert(all[0].span.start_column == a);
                assert forall|i: int| 0 < i < all.len() implies #[trigger] all[i] == rest[i - 1] by {}
            }
        }
    }
}

proof fn lemma_merge_line_shape(blocks: Seq<CommentView>, lc: Option<CommentView>, ln: usize)
    requires
        forall|i: int| 0 <= i < blocks.len() ==> (#[trigger] blocks[i]).span.start_line == ln,
        forall|i: int, j: int| 0 <= i < j < blocks.len() ==> blocks[i].span.start_column < blocks[j].span.start_column,
        lc is Some ==> lc->0.span.start_line == ln,
        lc is Some ==> forall|i: int| 0 <= i < blocks.len() ==> (#[trigger] blocks[i]).span.start_column
            != lc->0.span.start_column,
    ensures
        forall|i: int| 0 <= i < merge_line(blocks, lc).len() ==> (#[trigger] merge_line(blocks, lc)[i]).span.start_line == ln,
        in_position_order(merge_line(blocks, lc)),
    decreases blocks.len(),
{
    let m = merge_line(blocks, lc);
    match lc {
        None => {},
        Some(c) => {
            if blocks.len() == 0 {
            } else if blocks[0].span.start_column < c.span.start_column {
                let rest = blocks.drop_first();
                lemma_merge_line_shape(rest, lc, ln);
                let mr = merge_line(rest, lc);
                assert forall|i: int| 0 < i < m.len() implies #[trigger] m[i] == mr[i - 1] by {}
                assert forall|i: int| 0 <= i < mr.len() implies blocks[0].span.start_column
                    < (#[trigger] mr[i]).span.start_column by {
                    lemma_merge_line_members(rest, lc, i);
                }
            } else {
                assert forall|i: int| 0 < i < m.len() implies #[trigger] m[i] == blocks[i - 1] by {}
                assert(c.span.start_column < blocks[0].span.start_column);
            }
        },
    }
}

proof fn lemma_merge_line_members(blocks: Seq<CommentView>, lc: Option<CommentView>, i: int)
    requires
        0 <= i < merge_line(blocks, lc).len(),
    ensures
        (exists|j: int| 0 <= j < blocks.len() && merge_line(blocks, lc)[i] == blocks[j])
            || (lc is Some && merge_line(blocks, lc)[i] == lc->0),
    decreases blocks.len(),
{
    match lc {
        None => {
            assert(merge_line(blocks, lc)[i] == blocks[i]);
        },
        Some(c) => {
            if blocks.len() == 0 {
            } else if blocks[0].span.start_column < c.span.start_column {
                if i == 0 {
                    assert(merge_line(blocks, lc)[i] == blocks[0]);
                } else {
                    lemma_merge_line_members(blocks.drop_first(), lc, i - 1);
                    if exists|j: int| 0 <= j < blocks.drop_first().len() && merge_line(blocks.drop_first(), lc)[i - 1] == blocks.drop_first()[j] {
                        let j = choose|j: int| 0 <= j < blocks.drop_first().len() && merge_line(blocks.drop_first(), lc)[i - 1] == blocks.drop_first()[j];
                        assert(merge_line(blocks, lc)[i] == blocks[j + 1]);
                    }
                }
            } else if i > 0 {
                assert(merge_line(blocks, lc)[i] == blocks[i - 1]);
            }
        },
    }
}

proof fn lemma_line_comments_shape(line: Seq<char>, ln: int)
    requires
        0 <= ln <= usize::MAX,
        line.len() <= usize::MAX,
    ensures
        forall|i: int| 0 <= i < line_comments(line, ln).len() ==> (#[trigger] line_comments(line, ln)[i]).span.start_line == ln,
        in_position_order(line_comments(line, ln)),
{
    lemma_block_comments_shape(line, ln, 0);
    lemma_find_marker(line, 0, '/', '/');
    let blocks = block_comments(line, ln, 0);
    let lc = line_comment(line, ln);
    if lc is Some {
        assert forall|i: int| 0 <= i < blocks.len() implies (#[trigger] blocks[i]).span.start_column
            != lc->0.span.start_column by {
            let a = blocks[i].span.start_column as int;
            assert(marker_at(line, a, '/', '*'));
        }
    }
    lemma_merge_line_shape(blocks, lc, ln as usize);
}

proof fn lemma_comments_of_lines_shape(lines: Seq<Seq<char>>, n: int)
    requires
        0 <= n <= lines.len(),
        lines.len() <= usize::MAX,
        forall|k: int| 0 <= k < lines.len() ==> (#[trigger] lines[k]).len() <= usize::MAX,
    ensures
        forall|i: int| 0 <= i < comments_of_lines(lines, n).len() ==> (#[trigger] comments_of_lines(lines, n)[i]).span.start_line <= n,
        in_position_order(comments_of_lines(lines, n)),
    decreases n,
{
    if n > 0 {
        lemma_comments_of_lines_shape(lines, n - 1);
        lemma_line_comments_shape(lines[n - 1], n);
        let prev = comments_of_lines(lines, n - 1);
        let last = line_comments(lines[n - 1], n);
        let all = comments_of_lines(lines, n);
        assert forall|i: int| 0 <= i < all.len() implies (#[trigger] all[i]).span.start_line <= n by {
            if i >= prev.len() {
                assert(all[i] == last[i - prev.len()]);
            }
        }
        assert forall|i: int, j: int| 0 <= i < j < all.len() implies starts_before(all[i].span, all[j].span) by {
            if j < prev.len() {
                assert(all[i] == prev[i] && all[j] == prev[j]);
            } else if i >= prev.len() {
                assert(all[i] == last[i - prev.len()] && all[j] == last[j - prev.len()]);
            } else {
                assert(all[i] == prev[i] && all[j] == last[j - prev.len()]);
            }
        }
    }
}

proof fn lemma_lines_from_bounds(s: Seq<char>, from: int)
    requires
        0 <= from <= s.len() + 1,
    ensures
        lines_from(s, from).len() <= s.len() + 1 - from,
        forall|k: int| 0 <= k < lines_from(s, from).len() ==> (#[trigger] lines_from(s, from)[k]).len() <= s.len(),
    decreases s.len() + 1 - from,
{
    if from < s.len() {
        lemma_newline_from(s, from);
        let e = newline_from(s, from);
        lemma_lines_from_bounds(s, e + 1);
        let all = lines_from(s, from);
        assert forall|k: int| 0 < k < all.len() implies #[trigger] all[k] == lines_from(s, e + 1)[k - 1] by {}
    }
}

/// The comments of a text come in order of position: each starts on a later
/// line than the one before, or on the same line at a later column.
pub proof fn lemma_extracted_in_position_order(s: Seq<char>)
    requires
        s.len() < usize::MAX,
    ensures
        in_position_order(extracted(s)),
{
    lemma_lines_from_bounds(s, 0);
    lemma_comments_of_lines_shape(lines_of(s), lines_of(s).len() as int);
}

proof fn lemma_quoted_line_in_prefix(lines: Seq<Seq<char>>, n: int, k: int)
    requires
        0 <= n <= lines.len(),
        1 <= k <= lines.len(),
        lines.len() <= usize::MAX,
        forall|q: int| 0 <= q < lines.len() ==> (#[trigger] lines[q]).len() <= usize::MAX,
        line_comments(lines[k - 1], k) == Seq::<CommentView>::empty(),
    ensures
        forall|j: int|
            0 <= j < comments_of_lines(lines, n).len() ==> (#[trigger] comments_of_lines(lines, n)[j]).span.start_line
                != k,
    decreases n,
{
    if n > 0 {
        lemma_quoted_line_in_prefix(lines, n - 1, k);
        lemma_line_comments_shape(lines[n - 1], n);
        let prev = comments_of_lines(lines, n - 1);
        let last = line_comments(lines[n - 1], n);
        let all = comments_of_lines(lines, n);
        assert forall|j: int| 0 <= j < all.len() implies (#[trigger] all[j]).span.start_line != k by {
            if j < prev.len() {
                assert(all[j] == prev[j]);
            } else {
                assert(all[j] == last[j - prev.len()]);
            }
        }
    }
}

/// A line of the text whose every `//` and every `/*` lies inside a quoted
/// string or character literal yields no comment: no comment of the text
/// starts on that line.
pub proof fn lemma_quoted_line_yields_no_comment(s: Seq<char>, k: int)
    requires
        s.len() < usize::MAX,
        1 <= k <= lines_of(s).len(),
        forall|i: int| #[trigger] marker_at(lines_of(s)[k - 1], i, '/', '/') ==> inside_string_literal(lines_of(s)[k - 1], i),
        forall|i: int| #[trigger] marker_at(lines_of(s)[k - 1], i, '/', '*') ==> inside_string_literal(lines_of(s)[k - 1], i),
    ensures
        forall|j: int| 0 <= j < extracted(s).len() ==> (#[trigger] extracted(s)[j]).span.start_line != k,
{
    lemma_lines_from_bounds(s, 0);
    lemma_quoted_markers_are_not_comments(lines_of(s)[k - 1], k);
    lemma_quoted_line_in_prefix(lines_of(s), lines_of(s).len() as int, k);
}

} // verus!
