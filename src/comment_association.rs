//! Decides which construct, if any, owns each comment.
//!
//! Two rules are offered, chosen by [`AssociationPolicy`]. The conservative
//! one, the default, gives a comment to a body block that strictly contains
//! its start, and otherwise to a declaration when the comment trails the
//! declaration on its line or sits between the declaration and the opening
//! brace of its block. The nearest one also takes leading comments and gives
//! a comment to the smallest node around it. Under either rule a comment has
//! at most one owner, and the comments without one are kept apart.
use crate::comment::{comment_views, Comment, CommentView};
use crate::span::SpanInfo;
use vstd::multiset::Multiset;
use vstd::prelude::*;

verus! {

/// A node identifier with the span of its node, as a specification value.
pub type NodeView = (Seq<char>, SpanInfo);

/// The views of a sequence of node identifiers with their spans.
pub open spec fn node_views(ns: Seq<(String, SpanInfo)>) -> Seq<NodeView> {
    ns.map_values(|n: (String, SpanInfo)| (n.0@, n.1))
}

/// The suffix that marks the identifier of a body block.
pub open spec fn block_suffix() -> Seq<char> {
    seq!['_', 'b', 'l', 'o', 'c', 'k']
}

/// Whether `id` names a body block: it ends with `_block`.
pub open spec fn is_block_key(id: Seq<char>) -> bool {
    id.len() >= 6 && id.subrange(id.len() - 6, id.len() as int) == block_suffix()
}

/// The identifier of the body block of the declaration `id`.
pub open spec fn block_key(id: Seq<char>) -> Seq<char> {
    id + block_suffix()
}

/// Whether a comment whose span is `c` starts strictly inside the node span
/// `n`: on a line strictly between its first and last line, or on its first
/// line after its start column, or on its last line before its end column.
pub open spec fn strictly_inside(c: SpanInfo, n: SpanInfo) -> bool {
    ||| (c.start_line > n.start_line && c.start_line < n.end_line)
    ||| (c.start_line == n.start_line && c.start_column > n.start_column)
    ||| (c.start_line == n.end_line && c.start_column < n.end_column)
}

/// The first index at or after `i` of a node for which `p` holds.
pub open spec fn first_where(ns: Seq<NodeView>, p: spec_fn(NodeView) -> bool, i: int) -> Option<int>
    decreases ns.len() - i,
{
    if i < 0 || i >= ns.len() {
        None
    } else if p(ns[i]) {
        Some(i)
    } else {
        first_where(ns, p, i + 1)
    }
}

/// The search stops at the first node at or after `i` for which `p` holds,
/// or finds none where there is none.
pub proof fn lemma_first_where(ns: Seq<NodeView>, p: spec_fn(NodeView) -> bool, i: int)
    requires
        0 <= i,
    ensures
        match first_where(ns, p, i) {
            Some(j) => i <= j < ns.len() && p(ns[j]) && forall|k: int| i <= k < j ==> !p(ns[k]),
            None => forall|k: int| i <= k < ns.len() ==> !p(ns[k]),
        },
    decreases ns.len() - i,
{
    if i < ns.len() && !p(ns[i]) {
        lemma_first_where(ns, p, i + 1);
    }
}

/// Whether the block node `n` claims a comment whose span is `c`.
pub open spec fn block_claims(c: SpanInfo, n: NodeView) -> bool {
    is_block_key(n.0) && strictly_inside(c, n.1)
}

/// The test of [`block_claims`] for a comment whose span is `c`.
pub open spec fn block_claim_test(c: SpanInfo) -> spec_fn(NodeView) -> bool {
    |n: NodeView| block_claims(c, n)
}

/// The test for the node whose identifier is the block identifier of `id`.
pub open spec fn block_of_test(id: Seq<char>) -> spec_fn(NodeView) -> bool {
    |n: NodeView| n.0 == block_key(id)
}

/// The start line of the body block of the declaration `id`, if `ns` holds it.
pub open spec fn block_start_line(id: Seq<char>, ns: Seq<NodeView>) -> Option<usize> {
    match first_where(ns, block_of_test(id), 0) {
        Some(j) => Some(ns[j].1.start_line),
        None => None,
    }
}

/// Whether a comment whose span is `c` belongs to the declaration node `n`:
/// on the declaration's line, where the declaration both starts and ends,
/// after its end column; otherwise on a line after the declaration's first
/// line and before the one where the declaration's block opens.
pub open spec fn on_declaration_line(c: SpanInfo, n: NodeView, ns: Seq<NodeView>) -> bool {
    if c.start_line == n.1.start_line && c.start_line == n.1.end_line {
        c.start_column > n.1.end_column
    } else {
        match block_start_line(n.0, ns) {
            Some(bl) => n.1.start_line < c.start_line && c.start_line < bl,
            None => false,
        }
    }
}

/// Whether the declaration node `n` claims a comment whose span is `c`.
pub open spec fn declaration_claims(c: SpanInfo, n: NodeView, ns: Seq<NodeView>) -> bool {
    !is_block_key(n.0) && on_declaration_line(c, n, ns)
}

/// The test of [`declaration_claims`] for a comment whose span is `c`.
pub open spec fn declaration_claim_test(c: SpanInfo, ns: Seq<NodeView>) -> spec_fn(NodeView) -> bool {
    |n: NodeView| declaration_claims(c, n, ns)
}

/// The node that owns a comment whose span is `c`: the first block node that
/// claims it, or else the first declaration node that claims it.
pub open spec fn best_node(c: SpanInfo, ns: Seq<NodeView>) -> Option<Seq<char>> {
    match first_where(ns, block_claim_test(c), 0) {
        Some(j) => Some(ns[j].0),
        None => match first_where(ns, declaration_claim_test(c, ns), 0) {
            Some(j) => Some(ns[j].0),
            None => None,
        },
    }
}

/// The two rules by which comments find their owners.
///
/// `Conservative` is the default. It claims a comment for a block only when
/// the comment starts inside the block, and for a declaration only when the
/// comment trails it on its line or sits between it and its block's brace;
/// more comments near declarations stay unclaimed. `Nearest` also takes a
/// comment on the line just above a node as that node's leading comment, and
/// otherwise gives a comment to the smallest node around it; it leaves fewer
/// comments unclaimed, but may give a comment between two siblings to the
/// wrong one.
#[derive(Debug, Clone, Copy, PartialEq, Eq)]
pub enum AssociationPolicy {
    /// Claims by containment in a block, or by trailing a declaration.
    Conservative,
    /// Claims by a shared line, by leading, or by the smallest enclosure.
    Nearest,
}

impl Default for AssociationPolicy {
    /// The conservative rule.
    fn default() -> (r: AssociationPolicy)
        ensures
            r == AssociationPolicy::Conservative,
    {
        AssociationPolicy::Conservative
    }
}

/// Whether position (`l1`, `c1`) comes no later than position (`l2`, `c2`).
pub open spec fn position_le(l1: usize, c1: usize, l2: usize, c2: usize) -> bool {
    l1 < l2 || (l1 == l2 && c1 <= c2)
}

/// Whether the start of the span `c` lies within the span `n`, both ends
/// included.
pub open spec fn contains_start(n: SpanInfo, c: SpanInfo) -> bool {
    position_le(n.start_line, n.start_column, c.start_line, c.start_column)
        && position_le(c.start_line, c.start_column, n.end_line, n.end_column)
}

/// Whether the node `n` claims a comment whose span is `c` by sharing a line
/// with it: the comment starts on the node's first or last line, within the
/// node.
pub open spec fn same_line_claims(c: SpanInfo, n: NodeView) -> bool {
    (n.1.start_line == c.start_line || n.1.end_line == c.start_line) && contains_start(n.1, c)
}

/// The test of [`same_line_claims`] for a comment whose span is `c`.
pub open spec fn same_line_test(c: SpanInfo) -> spec_fn(NodeView) -> bool {
    |n: NodeView| same_line_claims(c, n)
}

/// Whether the node `n` takes a comment whose span is `c` as its leading
/// comment: the comment starts on the line just above the node.
pub open spec fn leads(c: SpanInfo, n: NodeView) -> bool {
    c.start_line + 1 == n.1.start_line
}

/// The test of [`leads`] for a comment whose span is `c`.
pub open spec fn leading_test(c: SpanInfo) -> spec_fn(NodeView) -> bool {
    |n: NodeView| leads(c, n)
}

/// Whether the span `a` is smaller than the span `b`: over fewer lines, or
/// over as many lines and fewer columns.
pub open spec fn smaller(a: SpanInfo, b: SpanInfo) -> bool {
    let la = a.end_line - a.start_line;
    let lb = b.end_line - b.start_line;
    la < lb || (la == lb && a.end_column - a.start_column < b.end_column - b.start_column)
}

/// The index of the smallest of the first `n` nodes of `ns` that contains the
/// start of `c`; of equally small ones, the first.
pub open spec fn smallest_containing(c: SpanInfo, ns: Seq<NodeView>, n: int) -> Option<int>
    decreases n,
{
    if n <= 0 {
        None
    } else {
        let prev = smallest_containing(c, ns, n - 1);
        if contains_start(ns[n - 1].1, c) && (prev is None || smaller(ns[n - 1].1, ns[prev->0].1)) {
            Some(n - 1)
        } else {
            prev
        }
    }
}

/// The node that owns a comment whose span is `c` under the nearest rule: the
/// first node that shares a line with it and contains it, else the first
/// node that it leads, else the smallest node that contains it.
pub open spec fn nearest_node(c: SpanInfo, ns: Seq<NodeView>) -> Option<Seq<char>> {
    match first_where(ns, same_line_test(c), 0) {
        Some(j) => Some(ns[j].0),
        None => match first_where(ns, leading_test(c), 0) {
            Some(j) => Some(ns[j].0),
            None => match smallest_containing(c, ns, ns.len() as int) {
                Some(j) => Some(ns[j].0),
                None => None,
            },
        },
    }
}

/// The node that owns a comment whose span is `c` under `policy`.
pub open spec fn owner(policy: AssociationPolicy, c: SpanInfo, ns: Seq<NodeView>) -> Option<Seq<char>> {
    match policy {
        AssociationPolicy::Conservative => best_node(c, ns),
        AssociationPolicy::Nearest => nearest_node(c, ns),
    }
}

/// The comments of `cs` that the node `k` owns, in order.
pub open spec fn claimed_by(policy: AssociationPolicy, cs: Seq<CommentView>, ns: Seq<NodeView>, k: Seq<char>) -> Seq<CommentView> {
    cs.filter(|c: CommentView| owner(policy, c.span, ns) == Some(k))
}

/// The comments of `cs` that no node owns, in order.
pub open spec fn unclaimed(policy: AssociationPolicy, cs: Seq<CommentView>, ns: Seq<NodeView>) -> Seq<CommentView> {
    cs.filter(|c: CommentView| owner(policy, c.span, ns) is None)
}

/// The view of an identifier that may be absent.
pub open spec fn key_view(k: Option<String>) -> Option<Seq<char>> {
    match k {
        Some(s) => Some(s@),
        None => None,
    }
}

/// Whether `id` ends with `_block`.
fn is_block_id(id: &String) -> (r: bool)
    ensures
        r == is_block_key(id@),
{
    let chars = crate::comment::chars_of(id.as_str());
    let n = chars.len();
    if n < 6 {
        return false;
    }
    let r = chars[n - 6] == '_' && chars[n - 5] == 'b' && chars[n - 4] == 'l' && chars[n - 3] == 'o'
        && chars[n - 2] == 'c' && chars[n - 1] == 'k';
    proof {
        let tail = id@.subrange(n - 6, n as int);
        if r {
            assert(tail =~= block_suffix());
        } else {
            assert(tail != block_suffix()) by {
                if tail == block_suffix() {
                    assert(tail[0] == '_' && tail[1] == 'b' && tail[2] == 'l');
                    assert(tail[3] == 'o' && tail[4] == 'c' && tail[5] == 'k');
                }
            }
        }
    }
    r
}

/// Whether the comment starts strictly inside the node span.
fn is_comment_strictly_inside_node(comment: &Comment, node_span: &SpanInfo) -> (r: bool)
    ensures
        r == strictly_inside(comment.span, *node_span),
{
    let comment_line = comment.span.start_line;
    let comment_column = comment.span.start_column;
    if comment_line > node_span.start_line && comment_line < node_span.end_line {
        return true;
    }
    if comment_line == node_span.start_line && comment_column > node_span.start_column {
        return true;
    }
    if comment_line == node_span.end_line && comment_column < node_span.end_column {
        return true;
    }
    false
}

/// The identifier of the body block of the declaration `id`.
pub(crate) fn block_id_of(id: &String) -> (r: String)
    ensures
        r@ == block_key(id@),
{
    let mut r = id.clone();
    r.append("_block");
    proof {
        reveal_strlit("_block");
        assert("_block"@ =~= block_suffix());
    }
    r
}

/// The start line of the body block of the declaration `fn_id` among
/// `all_spans`, if that block is there.
fn find_block_start_line(fn_id: &String, all_spans: &[(String, SpanInfo)]) -> (r: Option<usize>)
    ensures
        r == block_start_line(fn_id@, node_views(all_spans@)),
{
    let ghost ns = node_views(all_spans@);
    let ghost p = block_of_test(fn_id@);
    let block_id = block_id_of(fn_id);
    let mut i: usize = 0;
    while i < all_spans.len()
        invariant
            ns == node_views(all_spans@),
            p == block_of_test(fn_id@),
            ns.len() == all_spans@.len(),
            i <= all_spans.len(),
            first_where(ns, p, 0) == first_where(ns, p, i as int),
            block_id@ == block_key(fn_id@),
        decreases all_spans.len() - i,
    {
        assert(ns[i as int] == (all_spans@[i as int].0@, all_spans@[i as int].1));
        if all_spans[i].0 == block_id {
            return Some(all_spans[i].1.start_line);
        }
        i = i + 1;
    }
    None
}

/// Whether the comment belongs to the declaration `fn_id` whose span is
/// `fn_span`: it trails the declaration on the one line that the declaration
/// spans, or sits between the declaration and the line where the
/// declaration's block opens.
fn is_comment_on_function_declaration_line(
    comment: &Comment,
    fn_id: &String,
    fn_span: &SpanInfo,
    all_spans: &[(String, SpanInfo)],
) -> (r: bool)
    ensures
        r == on_declaration_line(comment.span, (fn_id@, *fn_span), node_views(all_spans@)),
{
    let comment_line = comment.span.start_line;
    let comment_column = comment.span.start_column;
    if comment_line == fn_span.start_line && comment_line == fn_span.end_line {
        return comment_column > fn_span.end_column;
    }
    match find_block_start_line(fn_id, all_spans) {
        Some(block_line) => fn_span.start_line < comment_line && comment_line < block_line,
        None => false,
    }
}

/// The identifier of the node that owns the comment: the first block node
/// that strictly contains its start, or else the first declaration node that
/// claims it; `None` where no node does.
fn find_best_node_for_comment(comment: &Comment, node_spans: &[(String, SpanInfo)]) -> (r: Option<String>)
    ensures
        key_view(r) == best_node(comment.span, node_views(node_spans@)),
{
    let ghost ns = node_views(node_spans@);
    let ghost pb = block_claim_test(comment.span);
    let ghost pd = declaration_claim_test(comment.span, ns);
    let mut i: usize = 0;
    while i < node_spans.len()
        invariant
            ns == node_views(node_spans@),
            pb == block_claim_test(comment.span),
            pd == declaration_claim_test(comment.span, ns),
            ns.len() == node_spans@.len(),
            i <= node_spans.len(),
            first_where(ns, pb, 0) == first_where(ns, pb, i as int),
        decreases node_spans.len() - i,
    {
        let (node_id, node_span) = (&node_spans[i].0, &node_spans[i].1);
        assert(ns[i as int] == (node_id@, *node_span));
        if is_block_id(node_id) && is_comment_strictly_inside_node(comment, node_span) {
            return Some(node_id.clone());
        }
        i = i + 1;
    }
    let mut j: usize = 0;
    while j < node_spans.len()
        invariant
            ns == node_views(node_spans@),
            pb == block_claim_test(comment.span),
            pd == declaration_claim_test(comment.span, ns),
            ns.len() == node_spans@.len(),
            j <= node_spans.len(),
            first_where(ns, pb, 0) is None,
            first_where(ns, pd, 0) == first_where(ns, pd, j as int),
        decreases node_spans.len() - j,
    {
        let (node_id, node_span) = (&node_spans[j].0, &node_spans[j].1);
        assert(ns[j as int] == (node_id@, *node_span));
        if !is_block_id(node_id) && is_comment_on_function_declaration_line(comment, node_id, node_span, node_spans) {
            return Some(node_id.clone());
        }
        j = j + 1;
    }
    None
}

/// Whether the span `a` is smaller than the span `b`.
fn is_smaller(a: &SpanInfo, b: &SpanInfo) -> (r: bool)
    ensures
        r == smaller(*a, *b),
{
    let la = a.end_line as i128 - a.start_line as i128;
    let lb = b.end_line as i128 - b.start_line as i128;
    let ca = a.end_column as i128 - a.start_column as i128;
    let cb = b.end_column as i128 - b.start_column as i128;
    la < lb || (la == lb && ca < cb)
}

/// Whether the start of the comment lies within the node span.
fn contains_comment_start(node_span: &SpanInfo, comment: &Comment) -> (r: bool)
    ensures
        r == contains_start(*node_span, comment.span),
{
    let (l, c) = (comment.span.start_line, comment.span.start_column);
    let after_start = node_span.start_line < l || (node_span.start_line == l && node_span.start_column <= c);
    let before_end = l < node_span.end_line || (l == node_span.end_line && c <= node_span.end_column);
    after_start && before_end
}

/// The identifier of the node that owns the comment under the nearest rule:
/// the first node that shares a line with it and contains it, else the first
/// node that it leads, else the smallest node that contains it.
fn find_nearest_node_for_comment(comment: &Comment, node_spans: &[(String, SpanInfo)]) -> (r: Option<String>)
    ensures
        key_view(r) == nearest_node(comment.span, node_views(node_spans@)),
{
    let ghost ns = node_views(node_spans@);
    let ghost ps = same_line_test(comment.span);
    let ghost pl = leading_test(comment.span);
    let line = comment.span.start_line;
    let mut i: usize = 0;
    while i < node_spans.len()
        invariant
            ns == node_views(node_spans@),
            ns.len() == node_spans@.len(),
            ps == same_line_test(comment.span),
            line == comment.span.start_line,
            i <= node_spans.len(),
            first_where(ns, ps, 0) == first_where(ns, ps, i as int),
        decreases node_spans.len() - i,
    {
        let (node_id, node_span) = (&node_spans[i].0, &node_spans[i].1);
        assert(ns[i as int] == (node_id@, *node_span));
        if (node_span.start_line == line || node_span.end_line == line) && contains_comment_start(node_span, comment) {
            return Some(node_id.clone());
        }
        i = i + 1;
    }
    let mut j: usize = 0;
    while j < node_spans.len()
        invariant
            ns == node_views(node_spans@),
            ns.len() == node_spans@.len(),
            ps == same_line_test(comment.span),
            pl == leading_test(comment.span),
            line == comment.span.start_line,
            j <= node_spans.len(),
            first_where(ns, ps, 0) is None,
            first_where(ns, pl, 0) == first_where(ns, pl, j as int),
        decreases node_spans.len() - j,
    {
        let (node_id, node_span) = (&node_spans[j].0, &node_spans[j].1);
        assert(ns[j as int] == (node_id@, *node_span));
        if node_span.start_line > 0 && line == node_span.start_line - 1 {
            return Some(node_id.clone());
        }
        j = j + 1;
    }
    let mut best: Option<usize> = None;
    let mut k: usize = 0;
    while k < node_spans.len()
        invariant
            ns == node_views(node_spans@),
            ns.len() == node_spans@.len(),
            k <= node_spans.len(),
            ps == same_line_test(comment.span),
            pl == leading_test(comment.span),
            first_where(ns, ps, 0) is None,
            first_where(ns, pl, 0) is None,
            match best {
                Some(b) => smallest_containing(comment.span, ns, k as int) == Some(b as int) && b < k,
                None => smallest_containing(comment.span, ns, k as int) is None,
            },
        decreases node_spans.len() - k,
    {
        let node_span = &node_spans[k].1;
        assert(ns[k as int].1 == *node_span);
        if contains_comment_start(node_span, comment) {
            match best {
                None => {
                    best = Some(k);
                },
                Some(b) => {
                    assert(ns[b as int].1 == node_spans@[b as int].1);
                    if is_smaller(node_span, &node_spans[b].1) {
                        best = Some(k);
                    }
                },
            }
        }
        k = k + 1;
    }
    match best {
        Some(b) => {
            assert(ns[b as int].0 == node_spans@[b as int].0@);
            Some(node_spans[b].0.clone())
        },
        None => None,
    }
}

/// Comments grouped by the identifier of the node that owns them, with the
/// comments that no node owns kept apart.
///
/// Each identifier appears once, and with at least one comment.
pub struct CommentMap {
    keys: Vec<String>,
    lists: Vec<Vec<Comment>>,
    unowned: Vec<Comment>,
}

/// The number of comments over all entries of `es`.
pub open spec fn total_comments(es: Seq<(Seq<char>, Seq<CommentView>)>) -> int
    decreases es.len(),
{
    if es.len() == 0 {
        0
    } else {
        total_comments(es.drop_last()) + es.last().1.len()
    }
}

/// One more comment in one entry makes one more in all.
proof fn lemma_total_comments_grow(
    es: Seq<(Seq<char>, Seq<CommentView>)>,
    fs: Seq<(Seq<char>, Seq<CommentView>)>,
    j: int,
)
    requires
        es.len() == fs.len(),
        0 <= j < es.len(),
        fs[j].1.len() == es[j].1.len() + 1,
        forall|q: int| 0 <= q < es.len() && q != j ==> es[q].1.len() == fs[q].1.len(),
    ensures
        total_comments(fs) == total_comments(es) + 1,
    decreases es.len(),
{
    if j < es.len() - 1 {
        lemma_total_comments_grow(es.drop_last(), fs.drop_last(), j);
    } else {
        assert forall|q: int| 0 <= q < es.len() - 1 implies es.drop_last()[q].1.len() == fs.drop_last()[q].1.len() by {}
        lemma_total_comments_same(es.drop_last(), fs.drop_last());
    }
}

proof fn lemma_total_comments_same(es: Seq<(Seq<char>, Seq<CommentView>)>, fs: Seq<(Seq<char>, Seq<CommentView>)>)
    requires
        es.len() == fs.len(),
        forall|q: int| 0 <= q < es.len() ==> es[q].1.len() == fs[q].1.len(),
    ensures
        total_comments(fs) == total_comments(es),
    decreases es.len(),
{
    if es.len() > 0 {
        lemma_total_comments_same(es.drop_last(), fs.drop_last());
    }
}

impl View for CommentMap {
    type V = Seq<(Seq<char>, Seq<CommentView>)>;

    closed spec fn view(&self) -> Seq<(Seq<char>, Seq<CommentView>)> {
        Seq::new(self.keys.len() as nat, |i: int| (self.keys@[i]@, comment_views(self.lists@[i]@)))
    }
}

impl CommentMap {
    /// The map's own invariant: one list per identifier.
    pub closed spec fn inv(&self) -> bool {
        self.keys.len() == self.lists.len()
    }

    /// The comments that no node owns.
    pub closed spec fn residual(&self) -> Seq<CommentView> {
        comment_views(self.unowned@)
    }

    /// The comments that no node owns, in order.
    pub fn unassociated(&self) -> (r: &Vec<Comment>)
        ensures
            comment_views(r@) == self.residual(),
    {
        &self.unowned
    }

    /// Well-formed: no identifier twice, no empty list.
    pub open spec fn wf(&self) -> bool {
        &&& self.inv()
        &&& forall|i: int, j: int|
            0 <= i < j < self@.len() ==> (#[trigger] self@[i]).0 != (#[trigger] self@[j]).0
        &&& forall|i: int| 0 <= i < self@.len() ==> (#[trigger] self@[i]).1.len() > 0
    }

    /// Whether this map groups the comments `cs` by their owners among the
    /// nodes `ns`: each entry holds exactly the comments that its node owns,
    /// in their order; each owner has an entry; the unclaimed comments are kept
    /// apart, and all comments are counted once.
    pub open spec fn is_association_of(&self, policy: AssociationPolicy, cs: Seq<CommentView>, ns: Seq<NodeView>) -> bool {
        &&& self.wf()
        &&& forall|j: int| 0 <= j < self@.len() ==> (#[trigger] self@[j]).1 == claimed_by(policy, cs, ns, self@[j].0)
        &&& forall|k: Seq<char>| #[trigger] self.comments_for(k) == claimed_by(policy, cs, ns, k)
        &&& forall|k: Seq<char>| #[trigger] self.has_key(k) <==> claimed_by(policy, cs, ns, k).len() > 0
        &&& self.residual() == unclaimed(policy, cs, ns)
        &&& total_comments(self@) + self.residual().len() == cs.len()
    }

    /// Whether some entry has the identifier `k`.
    pub open spec fn has_key(&self, k: Seq<char>) -> bool {
        exists|j: int| 0 <= j < self@.len() && (#[trigger] self@[j]).0 == k
    }

    /// The comments of the entry with identifier `k`; none where there is no
    /// such entry.
    pub open spec fn comments_for(&self, k: Seq<char>) -> Seq<CommentView> {
        if self.has_key(k) {
            self@[choose|j: int| 0 <= j < self@.len() && (#[trigger] self@[j]).0 == k].1
        } else {
            seq![]
        }
    }

    /// The number of identifiers in the map.
    pub fn len(&self) -> (r: usize)
        requires
            self.inv(),
        ensures
            r == self@.len(),
    {
        self.keys.len()
    }

    /// The index of the entry with identifier `key`, if there is one.
    fn position(&self, wanted: &str) -> (r: Option<usize>)
        requires
            self.inv(),
        ensures
            match r {
                Some(j) => j < self@.len() && self@[j as int].0 == wanted@,
                None => !self.has_key(wanted@),
            },
    {
        let key = String::from_str(wanted);
        let mut j: usize = 0;
        while j < self.keys.len()
            invariant
                self.inv(),
                key@ == wanted@,
                j <= self.keys.len(),
                forall|i: int| 0 <= i < j ==> (#[trigger] self@[i]).0 != key@,
            decreases self.keys.len() - j,
        {
            assert(self@[j as int].0 == self.keys@[j as int]@);
            if self.keys[j] == key {
                return Some(j);
            }
            j = j + 1;
        }
        None
    }

    /// Whether some entry has the identifier `key`.
    pub fn contains_key(&self, key: &str) -> (r: bool)
        requires
            self.inv(),
        ensures
            r == self.has_key(key@),
    {
        self.position(key).is_some()
    }

    /// The comments of the entry with identifier `key`, if there is one.
    pub fn get(&self, key: &str) -> (r: Option<&Vec<Comment>>)
        requires
            self.wf(),
        ensures
            match r {
                Some(l) => self.has_key(key@) && comment_views(l@) == self.comments_for(key@)
                    && self.comments_for(key@).len() > 0,
                None => !self.has_key(key@) && self.comments_for(key@) == Seq::<CommentView>::empty(),
            },
    {
        match self.position(key) {
            Some(j) => {
                proof {
                    let c = choose|i: int| 0 <= i < self@.len() && (#[trigger] self@[i]).0 == key@;
                    assert(c == j);
                }
                Some(&self.lists[j])
            },
            None => None,
        }
    }
}

/// Adding the comment at index `i` to the first `i` adds it to the comments
/// of its owner, and to no other node's.
pub proof fn lemma_claimed_by_step(policy: AssociationPolicy, cs: Seq<CommentView>, ns: Seq<NodeView>, i: int, k: Seq<char>)
    requires
        0 <= i < cs.len(),
    ensures
        claimed_by(policy, cs.take(i + 1), ns, k) == claimed_by(policy, cs.take(i), ns, k) + (if owner(
            policy,
            cs[i].span,
            ns,
        ) == Some(k) {
            seq![cs[i]]
        } else {
            seq![]
        }),
{
    reveal(Seq::filter);
    let t = cs.take(i + 1);
    assert(t.drop_last() =~= cs.take(i));
    assert(t.last() == cs[i]);
    let prev = claimed_by(policy, cs.take(i), ns, k);
    assert(prev.push(cs[i]) =~= prev + seq![cs[i]]);
    assert(prev + Seq::<CommentView>::empty() =~= prev);
}

/// Adding the comment at index `i` to the first `i` adds it to the unclaimed
/// comments exactly when no node owns it.
pub proof fn lemma_unclaimed_step(policy: AssociationPolicy, cs: Seq<CommentView>, ns: Seq<NodeView>, i: int)
    requires
        0 <= i < cs.len(),
    ensures
        unclaimed(policy, cs.take(i + 1), ns) == unclaimed(policy, cs.take(i), ns) + (if owner(policy, cs[i].span, ns) is None {
            seq![cs[i]]
        } else {
            seq![]
        }),
{
    reveal(Seq::filter);
    let t = cs.take(i + 1);
    assert(t.drop_last() =~= cs.take(i));
    assert(t.last() == cs[i]);
    let prev = unclaimed(policy, cs.take(i), ns);
    assert(prev.push(cs[i]) =~= prev + seq![cs[i]]);
    assert(prev + Seq::<CommentView>::empty() =~= prev);
}

/// The identifier of the node that owns the comment under `policy`.
fn find_owner(policy: AssociationPolicy, comment: &Comment, node_spans: &[(String, SpanInfo)]) -> (r: Option<String>)
    ensures
        key_view(r) == owner(policy, comment.span, node_views(node_spans@)),
{
    match policy {
        AssociationPolicy::Conservative => find_best_node_for_comment(comment, node_spans),
        AssociationPolicy::Nearest => find_nearest_node_for_comment(comment, node_spans),
    }
}

/// Groups `comments` by the node of `node_spans` that owns each of them under
/// the conservative rule, in the order of `comments`. A comment that no node
/// owns is in no entry, and among the unassociated comments.
pub fn associate_comments_with_nodes(comments: &[Comment], node_spans: &[(String, SpanInfo)]) -> (r: CommentMap)
    ensures
        r.is_association_of(AssociationPolicy::Conservative, comment_views(comments@), node_views(node_spans@)),
{
    associate_with_policy(comments, node_spans, AssociationPolicy::Conservative)
}

/// Groups `comments` by the node of `node_spans` that owns each of them under
/// `policy`, in the order of `comments`. A comment that no node owns is in no
/// entry, and among the unassociated comments.
pub fn associate_with_policy(
    comments: &[Comment],
    node_spans: &[(String, SpanInfo)],
    policy: AssociationPolicy,
) -> (r: CommentMap)
    ensures
        r.is_association_of(policy, comment_views(comments@), node_views(node_spans@)),
{
    let ghost cs = comment_views(comments@);
    let ghost ns = node_views(node_spans@);
    let mut map = CommentMap { keys: Vec::new(), lists: Vec::new(), unowned: Vec::new() };
    proof {
        assert(cs.take(0) =~= Seq::<CommentView>::empty());
        reveal(Seq::filter);
        assert(total_comments(map@) == 0);
    }
    let mut i: usize = 0;
    while i < comments.len()
        invariant
            i <= comments.len(),
            cs == comment_views(comments@),
            ns == node_views(node_spans@),
            map.wf(),
            map.residual() == unclaimed(policy, cs.take(i as int), ns),
            total_comments(map@) + map.residual().len() == i,
            forall|j: int|
                0 <= j < map@.len() ==> (#[trigger] map@[j]).1 == claimed_by(policy, cs.take(i as int), ns, map@[j].0),
            forall|k: Seq<char>|
                #![trigger claimed_by(policy, cs.take(i as int), ns, k)]
                claimed_by(policy, cs.take(i as int), ns, k).len() > 0 ==> map.has_key(k),
        decreases comments.len() - i,
    {
        let comment = &comments[i];
        assert(cs[i as int] == comment@);
        let best = find_owner(policy, comment, node_spans);
        proof {
            assert forall|k: Seq<char>| #[trigger] claimed_by(policy, cs.take(i + 1), ns, k) == claimed_by(policy, cs.take(i as int), ns, k) + (
                if owner(policy, comment.span, ns) == Some(k) { seq![comment@] } else { seq![] }) by {
                lemma_claimed_by_step(policy, cs, ns, i as int, k);
            }
            lemma_unclaimed_step(policy, cs, ns, i as int);
        }
        if let Some(node_id) = best {
            match map.position(node_id.as_str()) {
                Some(j) => {
                    let ghost before = map@;
                    map.lists[j].push(comment.clone());
                    proof {
                        assert(unclaimed(policy, cs.take(i as int), ns) + Seq::<CommentView>::empty() =~= unclaimed(policy, cs.take(i as int), ns));
                        assert(comment_views(map.lists@[j as int]@) =~= before[j as int].1.push(comment@));
                        assert forall|q: int| 0 <= q < map@.len() implies (#[trigger] map@[q]) == if q == j {
                            (before[q].0, before[q].1 + seq![comment@])
                        } else {
                            before[q]
                        } by {
                            if q == j {
                                assert(before[q].1.push(comment@) =~= before[q].1 + seq![comment@]);
                            }
                        }
                        lemma_total_comments_grow(before, map@, j as int);
                        assert forall|k: Seq<char>|
                            #![trigger claimed_by(policy, cs.take(i + 1), ns, k)]
                            claimed_by(policy, cs.take(i + 1), ns, k).len() > 0 implies map.has_key(k) by {
                            if claimed_by(policy, cs.take(i as int), ns, k).len() > 0 {
                                let w = choose|w: int| 0 <= w < before.len() && (#[trigger] before[w]).0 == k;
                                assert(map@[w].0 == k);
                            } else {
                                assert(map@[j as int].0 == k);
                            }
                        }
                    }
                },
                None => {
                    let ghost before = map@;
                    let mut list: Vec<Comment> = Vec::new();
                    list.push(comment.clone());
                    map.keys.push(node_id);
                    map.lists.push(list);
                    proof {
                        let n = before.len() as int;
                        assert(comment_views(map.lists@[n]@) =~= seq![comment@]);
                        assert(map@.len() == n + 1);
                        assert forall|q: int| 0 <= q < n implies (#[trigger] map@[q]) == before[q] by {}
                        assert(map@[n].0 == key_view(best)->0);
                        assert(unclaimed(policy, cs.take(i as int), ns) + Seq::<CommentView>::empty() =~= unclaimed(policy, cs.take(i as int), ns));
                        assert(map@.drop_last() =~= before);
                        assert(claimed_by(policy, cs.take(i as int), ns, map@[n].0).len() == 0);
                        assert(Seq::<CommentView>::empty() + seq![comment@] =~= seq![comment@]);
                        assert forall|k: Seq<char>|
                            #![trigger claimed_by(policy, cs.take(i + 1), ns, k)]
                            claimed_by(policy, cs.take(i + 1), ns, k).len() > 0 implies map.has_key(k) by {
                            if claimed_by(policy, cs.take(i as int), ns, k).len() > 0 {
                                let w = choose|w: int| 0 <= w < before.len() && (#[trigger] before[w]).0 == k;
                                assert(map@[w].0 == k);
                            } else {
                                assert(map@[n].0 == k);
                            }
                        }
                    }
                },
            }
        } else {
            let ghost before = map.unowned@;
            map.unowned.push(comment.clone());
            proof {
                assert forall|k: Seq<char>| #[trigger] claimed_by(policy, cs.take(i + 1), ns, k) == claimed_by(policy, cs.take(i as int), ns, k) by {
                    assert(claimed_by(policy, cs.take(i as int), ns, k) + Seq::<CommentView>::empty() =~= claimed_by(policy, cs.take(i as int), ns, k));
                }
                assert(comment_views(map.unowned@) =~= comment_views(before) + seq![comment@]);
            }
        }
        i = i + 1;
    }
    proof {
        assert(cs.take(comments.len() as int) =~= cs);
        assert forall|k: Seq<char>| #[trigger] map.comments_for(k) == claimed_by(policy, cs, ns, k) by {
            if map.has_key(k) {
                let w = choose|w: int| 0 <= w < map@.len() && (#[trigger] map@[w]).0 == k;
                assert(map@[w].1 == claimed_by(policy, cs, ns, k));
            } else {
                assert(claimed_by(policy, cs, ns, k) =~= Seq::<CommentView>::empty());
            }
        }
        assert forall|k: Seq<char>| #[trigger] map.has_key(k) implies claimed_by(policy, cs, ns, k).len() > 0 by {
            let w = choose|w: int| 0 <= w < map@.len() && (#[trigger] map@[w]).0 == k;
            assert(map@[w].1 == claimed_by(policy, cs, ns, k));
        }
    }
    map
}

/// A comment in a filtered sequence passed the filter's test.
proof fn lemma_filtered_passes(cs: Seq<CommentView>, p: spec_fn(CommentView) -> bool, c: CommentView)
    requires
        cs.filter(p).contains(c),
    ensures
        p(c),
{
    let i = choose|i: int| 0 <= i < cs.filter(p).len() && cs.filter(p)[i] == c;
    cs.lemma_filter_pred(p, i);
}

/// Under the conservative rule, a comment that a block node owns lies inside
/// that block: on a line from
/// the block's first to its last, after the block's start column when on its
/// first line, and before the block's end column when on its last line.
///
/// This holds of blocks that span more than one line. On a block that opens
/// and closes on one line, the rule of containment takes a comment anywhere
/// after the opening column, also one after the closing brace.
pub proof fn lemma_block_claims_are_contained(
    cs: Seq<CommentView>,
    ns: Seq<NodeView>,
    k: Seq<char>,
    c: CommentView,
)
    requires
        is_block_key(k),
        claimed_by(AssociationPolicy::Conservative, cs, ns, k).contains(c),
        forall|j: int|
            0 <= j < ns.len() && is_block_key(#[trigger] ns[j].0) ==> ns[j].1.start_line
                < ns[j].1.end_line,
    ensures
        exists|j: int|
            0 <= j < ns.len() && (#[trigger] ns[j]).0 == k && ns[j].1.start_line <= c.span.start_line
                <= ns[j].1.end_line && (c.span.start_line == ns[j].1.start_line ==> c.span.start_column
                > ns[j].1.start_column) && (c.span.start_line == ns[j].1.end_line
                ==> c.span.start_column < ns[j].1.end_column),
{
    lemma_filtered_passes(
        cs,
        |x: CommentView| owner(AssociationPolicy::Conservative, x.span, ns) == Some(k),
        c,
    );
    lemma_first_where(ns, block_claim_test(c.span), 0);
    lemma_first_where(ns, declaration_claim_test(c.span, ns), 0);
    match first_where(ns, block_claim_test(c.span), 0) {
        Some(j) => {
            assert(block_claims(c.span, ns[j]));
        },
        None => {
            let j = first_where(ns, declaration_claim_test(c.span, ns), 0)->0;
            assert(declaration_claims(c.span, ns[j], ns));
        },
    }
}

/// No comment is owned by two nodes: a comment that is among the comments of
/// `k1` and of `k2` makes the two the same identifier.
pub proof fn lemma_no_double_claim(
    policy: AssociationPolicy,
    cs: Seq<CommentView>,
    ns: Seq<NodeView>,
    k1: Seq<char>,
    k2: Seq<char>,
    c: CommentView,
)
    requires
        claimed_by(policy, cs, ns, k1).contains(c),
        claimed_by(policy, cs, ns, k2).contains(c),
    ensures
        k1 == k2,
{
    lemma_filtered_passes(cs, |x: CommentView| owner(policy, x.span, ns) == Some(k1), c);
    lemma_filtered_passes(cs, |x: CommentView| owner(policy, x.span, ns) == Some(k2), c);
}

/// No comment is lost: each comment of `cs` is among the comments of the node
/// that owns it, or among the unclaimed comments, and not both.
pub proof fn lemma_no_silent_loss(policy: AssociationPolicy, cs: Seq<CommentView>, ns: Seq<NodeView>, c: CommentView)
    requires
        cs.contains(c),
    ensures
        match owner(policy, c.span, ns) {
            Some(k) => claimed_by(policy, cs, ns, k).contains(c) && !unclaimed(policy, cs, ns).contains(c),
            None => unclaimed(policy, cs, ns).contains(c) && forall|k: Seq<char>|
                !(#[trigger] claimed_by(policy, cs, ns, k)).contains(c),
        },
{
    let i = choose|i: int| 0 <= i < cs.len() && cs[i] == c;
    match owner(policy, c.span, ns) {
        Some(k) => {
            cs.lemma_filter_contains(|x: CommentView| owner(policy, x.span, ns) == Some(k), i);
            if unclaimed(policy, cs, ns).contains(c) {
                lemma_filtered_passes(cs, |x: CommentView| owner(policy, x.span, ns) is None, c);
            }
        },
        None => {
            cs.lemma_filter_contains(|x: CommentView| owner(policy, x.span, ns) is None, i);
            assert forall|k: Seq<char>| !(#[trigger] claimed_by(policy, cs, ns, k)).contains(c) by {
                if claimed_by(policy, cs, ns, k).contains(c) {
                    lemma_filtered_passes(cs, |x: CommentView| owner(policy, x.span, ns) == Some(k), c);
                }
            }
        },
    }
}

proof fn lemma_smallest_containing_bound(c: SpanInfo, ns: Seq<NodeView>, n: int)
    ensures
        smallest_containing(c, ns, n) is Some ==> 0 <= smallest_containing(c, ns, n)->0 < n,
    decreases n,
{
    if n > 0 {
        lemma_smallest_containing_bound(c, ns, n - 1);
    }
}

/// An owner is always one of the nodes.
pub proof fn lemma_owner_is_a_node(policy: AssociationPolicy, c: SpanInfo, ns: Seq<NodeView>)
    ensures
        owner(policy, c, ns) is Some ==> exists|j: int| 0 <= j < ns.len() && (#[trigger] ns[j]).0 == owner(policy, c, ns)->0,
{
    lemma_first_where(ns, block_claim_test(c), 0);
    lemma_first_where(ns, declaration_claim_test(c, ns), 0);
    lemma_first_where(ns, same_line_test(c), 0);
    lemma_first_where(ns, leading_test(c), 0);
    lemma_smallest_containing_bound(c, ns, ns.len() as int);
    if owner(policy, c, ns) is Some {
        let j = match policy {
            AssociationPolicy::Conservative => match first_where(ns, block_claim_test(c), 0) {
                Some(j) => j,
                None => first_where(ns, declaration_claim_test(c, ns), 0)->0,
            },
            AssociationPolicy::Nearest => match first_where(ns, same_line_test(c), 0) {
                Some(j) => j,
                None => match first_where(ns, leading_test(c), 0) {
                    Some(j) => j,
                    None => smallest_containing(c, ns, ns.len() as int)->0,
                },
            },
        };
        assert(ns[j].0 == owner(policy, c, ns)->0);
    }
}

/// The comments of `cs` that the nodes `keys` own, over all of them, as a
/// multiset.
pub open spec fn claimed_bag(
    policy: AssociationPolicy,
    cs: Seq<CommentView>,
    ns: Seq<NodeView>,
    keys: Seq<Seq<char>>,
) -> Multiset<CommentView>
    decreases keys.len(),
{
    if keys.len() == 0 {
        Multiset::empty()
    } else {
        claimed_bag(policy, cs, ns, keys.drop_last()).add(claimed_by(policy, cs, ns, keys.last()).to_multiset())
    }
}

proof fn lemma_claimed_bag_step(
    policy: AssociationPolicy,
    cs: Seq<CommentView>,
    ns: Seq<NodeView>,
    keys: Seq<Seq<char>>,
    i: int,
)
    requires
        0 <= i < cs.len(),
        keys.no_duplicates(),
    ensures
        claimed_bag(policy, cs.take(i + 1), ns, keys) == if owner(policy, cs[i].span, ns) is Some
            && keys.contains(owner(policy, cs[i].span, ns)->0) {
            claimed_bag(policy, cs.take(i), ns, keys).insert(cs[i])
        } else {
            claimed_bag(policy, cs.take(i), ns, keys)
        },
    decreases keys.len(),
{
    broadcast use vstd::seq_lib::group_to_multiset_ensures;

    if keys.len() > 0 {
        let rest = keys.drop_last();
        assert(rest.no_duplicates());
        lemma_claimed_bag_step(policy, cs, ns, rest, i);
        lemma_claimed_by_step(policy, cs, ns, i, keys.last());
        let o = owner(policy, cs[i].span, ns);
        let before = claimed_by(policy, cs.take(i), ns, keys.last());
        assert(before + seq![cs[i]] =~= before.push(cs[i]));
        assert(before + Seq::<CommentView>::empty() =~= before);
        if o is Some && keys.contains(o->0) {
            if o->0 == keys.last() {
                assert(!rest.contains(o->0));
            } else {
                let w = choose|w: int| 0 <= w < keys.len() && keys[w] == o->0;
                assert(rest[w] == o->0);
            }
        } else if o is Some && rest.contains(o->0) {
            let w = choose|w: int| 0 <= w < rest.len() && rest[w] == o->0;
            assert(keys[w] == o->0);
        }
        assert(claimed_bag(policy, cs.take(i + 1), ns, keys) =~= if o is Some && keys.contains(o->0) {
            claimed_bag(policy, cs.take(i), ns, keys).insert(cs[i])
        } else {
            claimed_bag(policy, cs.take(i), ns, keys)
        });
    }
}

proof fn lemma_claimed_bag_empty(
    policy: AssociationPolicy,
    cs: Seq<CommentView>,
    ns: Seq<NodeView>,
    keys: Seq<Seq<char>>,
)
    requires
        cs.len() == 0,
    ensures
        claimed_bag(policy, cs, ns, keys) == Multiset::<CommentView>::empty(),
    decreases keys.len(),
{
    broadcast use vstd::seq_lib::group_to_multiset_ensures;

    reveal(Seq::filter);
    if keys.len() > 0 {
        lemma_claimed_bag_empty(policy, cs, ns, keys.drop_last());
        assert(claimed_by(policy, cs, ns, keys.last()).len() == 0);
        assert(claimed_bag(policy, cs, ns, keys) =~= Multiset::<CommentView>::empty());
    }
}

proof fn lemma_claimed_bag_prefix(
    policy: AssociationPolicy,
    cs: Seq<CommentView>,
    ns: Seq<NodeView>,
    keys: Seq<Seq<char>>,
    n: int,
)
    requires
        0 <= n <= cs.len(),
        keys.no_duplicates(),
        forall|j: int| 0 <= j < ns.len() ==> keys.contains(#[trigger] ns[j].0),
    ensures
        claimed_bag(policy, cs.take(n), ns, keys).add(unclaimed(policy, cs.take(n), ns).to_multiset())
            == cs.take(n).to_multiset(),
    decreases n,
{
    broadcast use vstd::seq_lib::group_to_multiset_ensures;

    if n == 0 {
        assert(cs.take(0) =~= Seq::<CommentView>::empty());
        lemma_claimed_bag_empty(policy, cs.take(0), ns, keys);
        reveal(Seq::filter);
        assert(unclaimed(policy, cs.take(0), ns).len() == 0);
        assert(claimed_bag(policy, cs.take(0), ns, keys).add(unclaimed(policy, cs.take(0), ns).to_multiset())
            =~= cs.take(0).to_multiset());
    } else {
        lemma_claimed_bag_prefix(policy, cs, ns, keys, n - 1);
        lemma_claimed_bag_step(policy, cs, ns, keys, n - 1);
        lemma_unclaimed_step(policy, cs, ns, n - 1);
        lemma_owner_is_a_node(policy, cs[n - 1].span, ns);
        let c = cs[n - 1];
        let u = unclaimed(policy, cs.take(n - 1), ns);
        assert(u + seq![c] =~= u.push(c));
        assert(u + Seq::<CommentView>::empty() =~= u);
        assert(cs.take(n) =~= cs.take(n - 1).push(c));
        assert(claimed_bag(policy, cs.take(n), ns, keys).add(unclaimed(policy, cs.take(n), ns).to_multiset())
            =~= cs.take(n).to_multiset());
    }
}

/// Where `keys` names each node once, the comments that those nodes own and
/// the unclaimed ones make up `cs` exactly, as a multiset.
pub proof fn lemma_claimed_bag_total(
    policy: AssociationPolicy,
    cs: Seq<CommentView>,
    ns: Seq<NodeView>,
    keys: Seq<Seq<char>>,
)
    requires
        keys.no_duplicates(),
        forall|j: int| 0 <= j < ns.len() ==> keys.contains(#[trigger] ns[j].0),
    ensures
        claimed_bag(policy, cs, ns, keys).add(unclaimed(policy, cs, ns).to_multiset()) == cs.to_multiset(),
{
    lemma_claimed_bag_prefix(policy, cs, ns, keys, cs.len() as int);
    assert(cs.take(cs.len() as int) =~= cs);
}

} // verus!
