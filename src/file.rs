//! The syntax tree as the comment engine sees it, the collection of node
//! spans over it, and the attachment of comments to it.
use crate::comment::{
    comment_views, copy_comments, extract_comments, extracted, Comment, CommentView,
};
use crate::comment_association::{
    associate_with_policy, block_key, claimed_bag, claimed_by, lemma_claimed_bag_total, node_views,
    unclaimed, AssociationPolicy, CommentMap, NodeView,
};
use vstd::multiset::Multiset;
use crate::span::SpanInfo;
use vstd::prelude::*;

verus! {

/// The kinds of top-level construct.
#[derive(Debug, Clone, Copy, PartialEq, Eq)]
pub enum ItemKind {
    /// A function, whose braces make its block.
    Fn,
    /// An enum.
    Enum,
    /// A struct.
    Struct,
    /// A trait.
    Trait,
    /// An impl block.
    Impl,
    /// A use declaration.
    Use,
    /// A constant.
    Const,
    /// A static.
    Static,
    /// A type alias.
    Type,
    /// A union.
    Union,
    /// A module.
    Mod,
    /// A block of foreign items.
    ForeignMod,
    /// A trait alias.
    TraitAlias,
    /// A macro invocation or definition at item level.
    Macro,
    /// A declaration that links another crate.
    ExternCrate,
    /// Tokens the parser did not interpret.
    Verbatim,
}

/// Kinds whose position the parser records.
pub open spec fn kind_has_span(k: ItemKind) -> bool {
    match k {
        ItemKind::Fn | ItemKind::Enum | ItemKind::Trait | ItemKind::Impl | ItemKind::Use
        | ItemKind::Const | ItemKind::Static | ItemKind::Type => true,
        _ => false,
    }
}

/// Kinds that carry a list of comments.
pub open spec fn kind_holds_comments(k: ItemKind) -> bool {
    match k {
        ItemKind::Fn | ItemKind::Enum | ItemKind::Trait | ItemKind::Impl | ItemKind::Use
        | ItemKind::Const | ItemKind::Static | ItemKind::Type | ItemKind::Union
        | ItemKind::ForeignMod => true,
        _ => false,
    }
}

/// Kinds with a delimited body block of their own.
pub open spec fn kind_has_block(k: ItemKind) -> bool {
    k == ItemKind::Fn
}

impl ItemKind {
    /// Whether the parser records the position of constructs of this kind.
    pub fn has_span(&self) -> (r: bool)
        ensures
            r == kind_has_span(*self),
    {
        match self {
            ItemKind::Fn => true,
            ItemKind::Enum => true,
            ItemKind::Struct => false,
            ItemKind::Trait => true,
            ItemKind::Impl => true,
            ItemKind::Use => true,
            ItemKind::Const => true,
            ItemKind::Static => true,
            ItemKind::Type => true,
            ItemKind::Union => false,
            ItemKind::Mod => false,
            ItemKind::ForeignMod => false,
            ItemKind::TraitAlias => false,
            ItemKind::Macro => false,
            ItemKind::ExternCrate => false,
            ItemKind::Verbatim => false,
        }
    }

    /// Whether constructs of this kind carry a list of comments.
    pub fn holds_comments(&self) -> (r: bool)
        ensures
            r == kind_holds_comments(*self),
    {
        match self {
            ItemKind::Fn => true,
            ItemKind::Enum => true,
            ItemKind::Struct => false,
            ItemKind::Trait => true,
            ItemKind::Impl => true,
            ItemKind::Use => true,
            ItemKind::Const => true,
            ItemKind::Static => true,
            ItemKind::Type => true,
            ItemKind::Union => true,
            ItemKind::Mod => false,
            ItemKind::ForeignMod => true,
            ItemKind::TraitAlias => false,
            ItemKind::Macro => false,
            ItemKind::ExternCrate => false,
            ItemKind::Verbatim => false,
        }
    }

    /// Whether constructs of this kind have a body block of their own.
    pub fn has_block(&self) -> (r: bool)
        ensures
            r == kind_has_block(*self),
    {
        match self {
            ItemKind::Fn => true,
            _ => false,
        }
    }
}

/// A body block: its span, from the opening to the closing brace, and its
/// comments.
#[derive(Debug)]
pub struct Block {
    pub span: Option<SpanInfo>,
    pub comments: Vec<Comment>,
}

/// A top-level construct: its kind, its span, its body block, and its
/// comments.
#[derive(Debug)]
pub struct Item {
    pub kind: ItemKind,
    pub span: Option<SpanInfo>,
    pub block: Option<Block>,
    pub comments: Vec<Comment>,
}

/// A parsed source file: its top-level constructs, and the comments that no
/// construct owns.
#[derive(Debug)]
pub struct File {
    pub items: Vec<Item>,
    pub comments: Vec<Comment>,
}

impl Item {
    /// A construct of `kind` without comments. The span is kept where the
    /// kind records one, and the block span where the kind has a block.
    pub fn new(kind: ItemKind, span: Option<SpanInfo>, block_span: Option<SpanInfo>) -> (r: Item)
        ensures
            r.kind == kind,
            r.span == (if kind_has_span(kind) { span } else { None }),
            kind_has_block(kind) ==> r.block is Some && r.block->0.span == block_span
                && r.block->0.comments@.len() == 0,
            !kind_has_block(kind) ==> r.block is None,
            r.comments@.len() == 0,
    {
        Item {
            kind,
            span: if kind.has_span() { span } else { None },
            block: if kind.has_block() {
                Some(Block { span: block_span, comments: Vec::new() })
            } else {
                None
            },
            comments: Vec::new(),
        }
    }
}

/// The decimal digits of `n`.
pub open spec fn decimal(n: nat) -> Seq<char>
    decreases n,
{
    let digit = seq!['0', '1', '2', '3', '4', '5', '6', '7', '8', '9'][(n % 10) as int];
    if n < 10 {
        seq![digit]
    } else {
        decimal(n / 10) + seq![digit]
    }
}

/// The identifier of the top-level construct at index `i`: `item_` and the
/// decimal digits of `i`.
pub open spec fn item_key(i: nat) -> Seq<char> {
    seq!['i', 't', 'e', 'm', '_'] + decimal(i)
}

/// The decimal digit `d`, as a string of one character.
fn digit_text(d: usize) -> (r: &'static str)
    requires
        d < 10,
    ensures
        r@ == seq![seq!['0', '1', '2', '3', '4', '5', '6', '7', '8', '9'][d as int]],
{
    proof {
        reveal_strlit("0");
        reveal_strlit("1");
        reveal_strlit("2");
        reveal_strlit("3");
        reveal_strlit("4");
        reveal_strlit("5");
        reveal_strlit("6");
        reveal_strlit("7");
        reveal_strlit("8");
        reveal_strlit("9");
    }
    let r = match d {
        0 => "0",
        1 => "1",
        2 => "2",
        3 => "3",
        4 => "4",
        5 => "5",
        6 => "6",
        7 => "7",
        8 => "8",
        _ => "9",
    };
    assert(r@ =~= seq![seq!['0', '1', '2', '3', '4', '5', '6', '7', '8', '9'][d as int]]);
    r
}

/// Appends the decimal digits of `n` to `s`.
fn push_decimal(s: &mut String, n: usize)
    ensures
        final(s)@ == old(s)@ + decimal(n as nat),
    decreases n,
{
    if n >= 10 {
        push_decimal(s, n / 10);
    }
    s.append(digit_text(n % 10));
    assert(s@ =~= old(s)@ + decimal(n as nat));
}

/// The identifier of the top-level construct at index `i`.
fn item_id(i: usize) -> (r: String)
    ensures
        r@ == item_key(i as nat),
{
    proof {
        reveal_strlit("item_");
    }
    let mut r = String::from_str("item_");
    assert(r@ =~= seq!['i', 't', 'e', 'm', '_']);
    push_decimal(&mut r, i);
    r
}

/// The node spans of `item`, whose identifier is `id`: its own span where its
/// kind records one and the parser gave it, then its block's span, under the
/// block identifier, where its kind has a block and the block has a span.
pub open spec fn item_node_spans(item: Item, id: Seq<char>) -> Seq<NodeView> {
    (if kind_has_span(item.kind) && item.span is Some {
        seq![(id, item.span->0)]
    } else {
        seq![]
    }) + (if kind_has_block(item.kind) && item.block is Some && item.block->0.span is Some {
        seq![(block_key(id), item.block->0.span->0)]
    } else {
        seq![]
    })
}

/// The node spans of the first `n` constructs of `items`, in document order.
pub open spec fn items_node_spans(items: Seq<Item>, n: int) -> Seq<NodeView>
    decreases n,
{
    if n <= 0 {
        seq![]
    } else {
        items_node_spans(items, n - 1) + item_node_spans(items[n - 1], item_key((n - 1) as nat))
    }
}

/// The node spans of all constructs of `items`.
pub open spec fn node_spans_of(items: Seq<Item>) -> Seq<NodeView> {
    items_node_spans(items, items.len() as int)
}

/// Appends the node spans of `item`, whose identifier is `item_id`, to `spans`.
pub fn collect_item_spans(item: &Item, item_id: &str, spans: &mut Vec<(String, SpanInfo)>)
    ensures
        node_views(final(spans)@) == node_views(old(spans)@) + item_node_spans(*item, item_id@),
{
    let ghost start = node_views(spans@);
    let id = String::from_str(item_id);
    let ghost mut own: Seq<NodeView> = seq![];
    if item.kind.has_span() {
        if let Some(span) = &item.span {
            spans.push((id.clone(), *span));
            proof {
                own = seq![(id@, *span)];
            }
        }
    }
    proof {
        assert(node_views(spans@) =~= start + own);
    }
    let ghost mid = spans@;
    let ghost mut inner: Seq<NodeView> = seq![];
    if item.kind.has_block() {
        if let Some(block) = &item.block {
            if let Some(block_span) = &block.span {
                spans.push((crate::comment_association::block_id_of(&id), *block_span));
                proof {
                    inner = seq![(block_key(id@), *block_span)];
                }
            }
        }
    }
    proof {
        assert(node_views(spans@) =~= node_views(mid) + inner);
        assert(own + inner =~= item_node_spans(*item, item_id@));
    }
}

/// The node spans of all constructs of `file`, in document order; the
/// construct at index `i` has the identifier `item_i`.
pub fn collect_file_spans(file: &File) -> (r: Vec<(String, SpanInfo)>)
    ensures
        node_views(r@) == node_spans_of(file.items@),
{
    let mut node_spans: Vec<(String, SpanInfo)> = Vec::new();
    let mut i: usize = 0;
    proof {
        assert(node_views(node_spans@) =~= Seq::<NodeView>::empty());
    }
    while i < file.items.len()
        invariant
            i <= file.items.len(),
            node_views(node_spans@) == items_node_spans(file.items@, i as int),
        decreases file.items.len() - i,
    {
        let id = item_id(i);
        collect_item_spans(&file.items[i], id.as_str(), &mut node_spans);
        i = i + 1;
    }
    node_spans
}

/// Groups `comments` by the construct of `file` that owns each of them under
/// `policy`.
pub fn associate_comments_with_file_nodes(
    comments: &[Comment],
    file: &File,
    policy: AssociationPolicy,
) -> (r: CommentMap)
    ensures
        r.is_association_of(policy, comment_views(comments@), node_spans_of(file.items@)),
{
    let node_spans = collect_file_spans(file);
    associate_with_policy(comments, node_spans.as_slice(), policy)
}

/// Whether `new` is the construct `old`, whose identifier is `id`, with the
/// comments that `owned` gives: for itself where its kind carries comments,
/// and for its block, under the block identifier, where its kind has a block.
/// A list for which `owned` gives no comment stays as it was, and so does
/// everything else.
pub open spec fn item_annotated(
    old: Item,
    new: Item,
    id: Seq<char>,
    owned: spec_fn(Seq<char>) -> Seq<CommentView>,
) -> bool {
    &&& new.kind == old.kind
    &&& new.span == old.span
    &&& comment_views(new.comments@) == if kind_holds_comments(old.kind) && owned(id).len() > 0 {
        owned(id)
    } else {
        comment_views(old.comments@)
    }
    &&& match old.block {
        None => new.block is None,
        Some(b) => {
            &&& new.block is Some
            &&& new.block->0.span == b.span
            &&& comment_views(new.block->0.comments@) == if kind_has_block(old.kind) && owned(
                block_key(id),
            ).len() > 0 {
                owned(block_key(id))
            } else {
                comment_views(b.comments@)
            }
        },
    }
}

/// Gives `item` the list `comments`, where its kind carries comments; a kind
/// without a list drops them.
fn apply_comments_to_item(item: &mut Item, comments: Vec<Comment>)
    ensures
        final(item).kind == old(item).kind,
        final(item).span == old(item).span,
        final(item).block == old(item).block,
        final(item).comments@ == if kind_holds_comments(old(item).kind) {
            comments@
        } else {
            old(item).comments@
        },
{
    if item.kind.holds_comments() {
        item.comments = comments;
    }
}

/// Gives the block of `item` the list `comments`, where its kind has a block.
fn apply_comments_to_block(item: &mut Item, comments: Vec<Comment>)
    ensures
        final(item).kind == old(item).kind,
        final(item).span == old(item).span,
        final(item).comments == old(item).comments,
        match old(item).block {
            None => final(item).block is None,
            Some(b) => {
                &&& final(item).block is Some
                &&& final(item).block->0.span == b.span
                &&& final(item).block->0.comments@ == if kind_has_block(old(item).kind) {
                    comments@
                } else {
                    b.comments@
                }
            },
        },
{
    if item.kind.has_block() {
        match &mut item.block {
            Some(block) => {
                block.comments = comments;
            },
            None => {},
        }
    }
}

/// Stores on each construct of `file` the comments that `associations` gives
/// for its identifier, and on its block those given for the block
/// identifier; a list whose identifier has no entry is left as it was. The
/// comments that no node owns go, in order, after those already at the root
/// of `file`.
pub fn apply_comment_associations(file: &mut File, associations: CommentMap)
    requires
        associations.wf(),
    ensures
        final(file).items@.len() == old(file).items@.len(),
        forall|i: int|
            0 <= i < old(file).items@.len() ==> item_annotated(
                #[trigger] old(file).items@[i],
                final(file).items@[i],
                item_key(i as nat),
                |k: Seq<char>| associations.comments_for(k),
            ),
        comment_views(final(file).comments@) == comment_views(old(file).comments@)
            + associations.residual(),
{
    let ghost owned = |k: Seq<char>| associations.comments_for(k);
    let ghost start = file.items@;
    let n = file.items.len();
    let mut i: usize = 0;
    while i < n
        invariant
            associations.wf(),
            owned == (|k: Seq<char>| associations.comments_for(k)),
            i <= n,
            n == start.len(),
            file.items@.len() == n,
            file.comments == old(file).comments,
            start == old(file).items@,
            forall|q: int| 0 <= q < i ==> item_annotated(#[trigger] start[q], file.items@[q], item_key(q as nat), owned),
            forall|q: int| i <= q < n ==> #[trigger] file.items@[q] == start[q],
        decreases n - i,
    {
        let id = item_id(i);
        if let Some(own) = associations.get(id.as_str()) {
            apply_comments_to_item(&mut file.items[i], copy_comments(own));
        }
        if file.items[i].kind.has_block() {
            let block_id = crate::comment_association::block_id_of(&id);
            if let Some(inner) = associations.get(block_id.as_str()) {
                apply_comments_to_block(&mut file.items[i], copy_comments(inner));
            }
        }
        assert(item_annotated(start[i as int], file.items@[i as int], item_key(i as nat), owned));
        i = i + 1;
    }
    let residual = associations.unassociated();
    let ghost root = comment_views(file.comments@);
    let mut j: usize = 0;
    while j < residual.len()
        invariant
            j <= residual.len(),
            file.items@.len() == n,
            forall|q: int| 0 <= q < n ==> item_annotated(#[trigger] start[q], file.items@[q], item_key(q as nat), owned),
            comment_views(file.comments@) == root + comment_views(residual@.take(j as int)),
        decreases residual.len() - j,
    {
        let ghost before = file.comments@;
        file.comments.push(residual[j].clone());
        proof {
            assert(comment_views(file.comments@) =~= comment_views(before).push(residual@[j as int]@));
            assert(comment_views(residual@.take(j + 1)) =~= comment_views(residual@.take(j as int)).push(residual@[j as int]@));
        }
        j = j + 1;
    }
    proof {
        assert(residual@.take(residual.len() as int) =~= residual@);
    }
}

impl File {
    /// The file `tree` with the comments of its source text `source` attached
    /// under the conservative rule, as [`File::with_comments`] attaches them.
    pub fn from_syn_with_comments(tree: File, source: &str) -> (r: File)
        ensures
            r.items@.len() == tree.items@.len(),
            forall|i: int|
                0 <= i < tree.items@.len() ==> item_annotated(
                    #[trigger] tree.items@[i],
                    r.items@[i],
                    item_key(i as nat),
                    |k: Seq<char>|
                        claimed_by(
                            AssociationPolicy::Conservative,
                            extracted(source@),
                            node_spans_of(tree.items@),
                            k,
                        ),
                ),
            comment_views(r.comments@) == comment_views(tree.comments@) + unclaimed(
                AssociationPolicy::Conservative,
                extracted(source@),
                node_spans_of(tree.items@),
            ),
    {
        File::with_comments(tree, source, AssociationPolicy::Conservative)
    }

    /// The file `tree` with the comments of its source text `source` attached.
    ///
    /// The comments are those that [`extract_comments`] finds; each goes to the
    /// construct or block that owns it under `policy` among the node spans of
    /// `tree`, and the comments that no construct owns go after those at the
    /// root. A list that no comment goes to keeps what it held, and the
    /// constructs keep their kinds and spans.
    pub fn with_comments(tree: File, source: &str, policy: AssociationPolicy) -> (r: File)
        ensures
            r.items@.len() == tree.items@.len(),
            forall|i: int|
                0 <= i < tree.items@.len() ==> item_annotated(
                    #[trigger] tree.items@[i],
                    r.items@[i],
                    item_key(i as nat),
                    |k: Seq<char>| claimed_by(policy, extracted(source@), node_spans_of(tree.items@), k),
                ),
            comment_views(r.comments@) == comment_views(tree.comments@) + unclaimed(
                policy,
                extracted(source@),
                node_spans_of(tree.items@),
            ),
    {
        let ghost cs = extracted(source@);
        let ghost ns = node_spans_of(tree.items@);
        let mut file = tree;
        let comments = extract_comments(source);
        let associations = associate_comments_with_file_nodes(comments.as_slice(), &file, policy);
        let ghost m = associations;
        apply_comment_associations(&mut file, associations);
        proof {
            assert forall|i: int| 0 <= i < tree.items@.len() implies item_annotated(
                #[trigger] tree.items@[i],
                file.items@[i],
                item_key(i as nat),
                |k: Seq<char>| claimed_by(policy, cs, ns, k),
            ) by {
                assert(item_annotated(tree.items@[i], file.items@[i], item_key(i as nat), |k: Seq<char>| m.comments_for(k)));
                assert(m.comments_for(item_key(i as nat)) == claimed_by(policy, cs, ns, item_key(i as nat)));
                assert(m.comments_for(block_key(item_key(i as nat))) == claimed_by(policy, cs, ns, block_key(item_key(i as nat))));
            }
        }
        file
    }
}

/// Whether `a` and `b` hold constructs of the same kinds, with the same spans
/// and the same block spans, whatever comments they carry.
pub open spec fn same_shape(a: Seq<Item>, b: Seq<Item>) -> bool {
    &&& a.len() == b.len()
    &&& forall|i: int|
        0 <= i < a.len() ==> {
            &&& (#[trigger] a[i]).kind == b[i].kind
            &&& a[i].span == b[i].span
            &&& a[i].block is Some <==> b[i].block is Some
            &&& a[i].block is Some ==> a[i].block->0.span == b[i].block->0.span
        }
}

proof fn lemma_same_shape_node_spans(a: Seq<Item>, b: Seq<Item>, n: int)
    requires
        same_shape(a, b),
        n <= a.len(),
    ensures
        items_node_spans(a, n) == items_node_spans(b, n),
    decreases n,
{
    if n > 0 {
        lemma_same_shape_node_spans(a, b, n - 1);
        assert(item_node_spans(a[n - 1], item_key((n - 1) as nat)) == item_node_spans(
            b[n - 1],
            item_key((n - 1) as nat),
        ));
    }
}

/// Annotation is stable over a round trip: the constructs of an annotated
/// tree keep their shape, so the node spans derived again from it, or from a
/// copy of the same shape such as one read back from its serialized form, are
/// those of the tree it came from, and the same comments go to the same
/// nodes.
pub proof fn lemma_round_trip_stable(
    tree: Seq<Item>,
    annotated: Seq<Item>,
    restored: Seq<Item>,
    owned: spec_fn(Seq<char>) -> Seq<CommentView>,
    policy: AssociationPolicy,
    cs: Seq<CommentView>,
)
    requires
        annotated.len() == tree.len(),
        forall|i: int|
            0 <= i < tree.len() ==> item_annotated(#[trigger] tree[i], annotated[i], item_key(i as nat), owned),
        same_shape(annotated, restored),
    ensures
        node_spans_of(restored) == node_spans_of(tree),
        forall|k: Seq<char>|
            #[trigger] claimed_by(policy, cs, node_spans_of(restored), k) == claimed_by(
                policy,
                cs,
                node_spans_of(tree),
                k,
            ),
        unclaimed(policy, cs, node_spans_of(restored)) == unclaimed(policy, cs, node_spans_of(tree)),
{
    assert(same_shape(tree, annotated)) by {
        assert forall|i: int| 0 <= i < tree.len() implies {
            &&& (#[trigger] tree[i]).kind == annotated[i].kind
            &&& tree[i].span == annotated[i].span
            &&& tree[i].block is Some <==> annotated[i].block is Some
            &&& tree[i].block is Some ==> tree[i].block->0.span == annotated[i].block->0.span
        } by {
            assert(item_annotated(tree[i], annotated[i], item_key(i as nat), owned));
        }
    }
    lemma_same_shape_node_spans(tree, annotated, tree.len() as int);
    lemma_same_shape_node_spans(annotated, restored, tree.len() as int);
}

/// The last character of the decimal digits of `n` is a digit, and distinct
/// numbers have distinct digits.
proof fn lemma_decimal(a: nat, b: nat)
    ensures
        decimal(a).len() >= 1,
        decimal(a).last() != 'k',
        decimal(a) == decimal(b) ==> a == b,
    decreases a + b,
{
    let digits = seq!['0', '1', '2', '3', '4', '5', '6', '7', '8', '9'];
    assert(decimal(a).last() == digits[(a % 10) as int]);
    if decimal(a) == decimal(b) {
        assert(digits[(a % 10) as int] == digits[(b % 10) as int]);
        assert(a % 10 == b % 10);
        if a >= 10 && b >= 10 {
            lemma_decimal(a / 10, b / 10);
            assert(decimal(a).drop_last() =~= decimal(a / 10));
            assert(decimal(b).drop_last() =~= decimal(b / 10));
        } else if a >= 10 {
            lemma_decimal(a / 10, 0);
        } else if b >= 10 {
            lemma_decimal(b / 10, 0);
        }
    }
}

/// Identifiers of constructs and of blocks never coincide but for the same
/// construct and the same kind of slot.
proof fn lemma_keys_distinct(a: nat, b: nat)
    ensures
        item_key(a) != block_key(item_key(b)),
        item_key(a) == item_key(b) ==> a == b,
        block_key(item_key(a)) == block_key(item_key(b)) ==> a == b,
{
    lemma_decimal(a, b);
    lemma_decimal(b, a);
    let prefix = seq!['i', 't', 'e', 'm', '_'];
    assert(item_key(a).last() == decimal(a).last());
    assert(block_key(item_key(b)).last() == 'k');
    if item_key(a) == item_key(b) {
        assert(item_key(a).subrange(5, item_key(a).len() as int) =~= decimal(a));
        assert(item_key(b).subrange(5, item_key(b).len() as int) =~= decimal(b));
    }
    if block_key(item_key(a)) == block_key(item_key(b)) {
        let ka = block_key(item_key(a));
        let kb = block_key(item_key(b));
        assert(ka.subrange(0, ka.len() - 6) =~= item_key(a));
        assert(kb.subrange(0, kb.len() - 6) =~= item_key(b));
        assert(item_key(a).subrange(5, item_key(a).len() as int) =~= decimal(a));
        assert(item_key(b).subrange(5, item_key(b).len() as int) =~= decimal(b));
    }
}

/// Whether `k` is the identifier of the construct at index `i`, or of its
/// block.
pub open spec fn slot_of(k: Seq<char>, i: int) -> bool {
    k == item_key(i as nat) || k == block_key(item_key(i as nat))
}

/// Whether `k` is the identifier of one of the first `n` constructs, or of
/// its block.
pub open spec fn slot_before(k: Seq<char>, n: int) -> bool {
    exists|i: int| 0 <= i < n && #[trigger] slot_of(k, i)
}

/// The identifiers under which `item`, whose identifier is `id`, holds
/// comments: its own where its kind carries a list, its block's where its
/// kind has a block and it has one.
pub open spec fn item_slots(item: Item, id: Seq<char>) -> Seq<Seq<char>> {
    (if kind_holds_comments(item.kind) {
        seq![id]
    } else {
        seq![]
    }) + (if kind_has_block(item.kind) && item.block is Some {
        seq![block_key(id)]
    } else {
        seq![]
    })
}

/// The identifiers under which the first `n` constructs of `items` hold
/// comments.
pub open spec fn items_slots(items: Seq<Item>, n: int) -> Seq<Seq<char>>
    decreases n,
{
    if n <= 0 {
        seq![]
    } else {
        items_slots(items, n - 1) + item_slots(items[n - 1], item_key((n - 1) as nat))
    }
}

proof fn lemma_items_slots(items: Seq<Item>, n: int)
    requires
        0 <= n <= items.len(),
    ensures
        items_slots(items, n).no_duplicates(),
        forall|q: int|
            0 <= q < items_slots(items, n).len() ==> slot_before(#[trigger] items_slots(items, n)[q], n),
        forall|j: int|
            0 <= j < items_node_spans(items, n).len() ==> items_slots(items, n).contains(
                (#[trigger] items_node_spans(items, n)[j]).0,
            ),
    decreases n,
{
    if n > 0 {
        lemma_items_slots(items, n - 1);
        let prev = items_slots(items, n - 1);
        let own = item_slots(items[n - 1], item_key((n - 1) as nat));
        let all = items_slots(items, n);
        let key = item_key((n - 1) as nat);
        assert forall|q: int| 0 <= q < all.len() implies slot_before(#[trigger] all[q], n) by {
            if q < prev.len() {
                assert(all[q] == prev[q]);
                assert(slot_before(prev[q], n - 1));
                let i = choose|i: int| 0 <= i < n - 1 && #[trigger] slot_of(prev[q], i);
                assert(slot_of(all[q], i));
            } else {
                assert(all[q] == own[q - prev.len()]);
                assert(own[q - prev.len()] == key || own[q - prev.len()] == block_key(key));
                assert(slot_of(all[q], n - 1));
            }
        }
        assert forall|q: int, r: int| 0 <= q < all.len() && 0 <= r < all.len() && q != r implies all[q] != all[r] by {
            if q < prev.len() && r < prev.len() {
                assert(all[q] == prev[q] && all[r] == prev[r]);
            } else if q >= prev.len() && r >= prev.len() {
                lemma_keys_distinct((n - 1) as nat, (n - 1) as nat);
                assert(all[q] == own[q - prev.len()] && all[r] == own[r - prev.len()]);
            } else {
                let (x, y) = if q < prev.len() { (q, r) } else { (r, q) };
                assert(all[x] == prev[x]);
                assert(all[y] == own[y - prev.len()]);
                assert(slot_before(prev[x], n - 1));
                let i = choose|i: int| 0 <= i < n - 1 && #[trigger] slot_of(prev[x], i);
                lemma_keys_distinct(i as nat, (n - 1) as nat);
                lemma_keys_distinct((n - 1) as nat, i as nat);
            }
        }
        let spans_prev = items_node_spans(items, n - 1);
        let spans_own = item_node_spans(items[n - 1], key);
        let spans = items_node_spans(items, n);
        assert forall|j: int| 0 <= j < spans.len() implies all.contains((#[trigger] spans[j]).0) by {
            if j < spans_prev.len() {
                assert(spans[j] == spans_prev[j]);
                let w = choose|w: int| 0 <= w < prev.len() && prev[w] == spans_prev[j].0;
                assert(all[w] == prev[w]);
            } else {
                assert(spans[j] == spans_own[j - spans_prev.len()]);
                if kind_has_span(items[n - 1].kind) && items[n - 1].span is Some && j == spans_prev.len() {
                    assert(all[prev.len() as int] == key);
                } else {
                    assert(spans[j].0 == block_key(key));
                    assert(all[all.len() - 1] == block_key(key));
                }
            }
        }
    }
}

/// The comments on the first `n` constructs of `items` and on their blocks,
/// as a multiset.
pub open spec fn comments_bag_on_items(items: Seq<Item>, n: int) -> Multiset<CommentView>
    decreases n,
{
    if n <= 0 {
        Multiset::empty()
    } else {
        comments_bag_on_items(items, n - 1).add(comment_views(items[n - 1].comments@).to_multiset()).add(
            match items[n - 1].block {
                Some(b) => comment_views(b.comments@).to_multiset(),
                None => Multiset::empty(),
            },
        )
    }
}

proof fn lemma_claimed_bag_append(
    policy: AssociationPolicy,
    cs: Seq<CommentView>,
    ns: Seq<NodeView>,
    a: Seq<Seq<char>>,
    b: Seq<Seq<char>>,
)
    ensures
        claimed_bag(policy, cs, ns, a + b) == claimed_bag(policy, cs, ns, a).add(claimed_bag(policy, cs, ns, b)),
    decreases b.len(),
{
    if b.len() == 0 {
        assert(a + b =~= a);
        assert(claimed_bag(policy, cs, ns, a).add(claimed_bag(policy, cs, ns, b)) =~= claimed_bag(policy, cs, ns, a));
    } else {
        lemma_claimed_bag_append(policy, cs, ns, a, b.drop_last());
        assert((a + b).drop_last() =~= a + b.drop_last());
        assert(claimed_bag(policy, cs, ns, a + b) =~= claimed_bag(policy, cs, ns, a).add(claimed_bag(policy, cs, ns, b)));
    }
}

proof fn lemma_claimed_bag_one(policy: AssociationPolicy, cs: Seq<CommentView>, ns: Seq<NodeView>, k: Seq<char>)
    ensures
        claimed_bag(policy, cs, ns, seq![k]) == claimed_by(policy, cs, ns, k).to_multiset(),
{
    assert(seq![k].drop_last() =~= Seq::<Seq<char>>::empty());
    assert(seq![k].last() == k);
    assert(claimed_bag(policy, cs, ns, Seq::<Seq<char>>::empty()) == Multiset::<CommentView>::empty());
    assert(claimed_bag(policy, cs, ns, seq![k]) =~= claimed_by(policy, cs, ns, k).to_multiset());
}

proof fn lemma_comments_bag_on_items(
    tree: Seq<Item>,
    annotated: Seq<Item>,
    owned: spec_fn(Seq<char>) -> Seq<CommentView>,
    policy: AssociationPolicy,
    cs: Seq<CommentView>,
    ns: Seq<NodeView>,
    n: int,
)
    requires
        0 <= n <= tree.len(),
        annotated.len() == tree.len(),
        owned == (|k: Seq<char>| claimed_by(policy, cs, ns, k)),
        forall|i: int|
            0 <= i < tree.len() ==> item_annotated(#[trigger] tree[i], annotated[i], item_key(i as nat), owned),
        forall|i: int|
            0 <= i < tree.len() ==> (#[trigger] tree[i]).comments@.len() == 0 && (tree[i].block is Some
                ==> tree[i].block->0.comments@.len() == 0),
    ensures
        comments_bag_on_items(annotated, n) == claimed_bag(policy, cs, ns, items_slots(tree, n)),
    decreases n,
{
    broadcast use vstd::seq_lib::group_to_multiset_ensures;

    if n > 0 {
        lemma_comments_bag_on_items(tree, annotated, owned, policy, cs, ns, n - 1);
        let t = tree[n - 1];
        let a = annotated[n - 1];
        let key = item_key((n - 1) as nat);
        assert(item_annotated(t, a, key, owned));
        let prev = items_slots(tree, n - 1);
        let own = item_slots(t, key);
        lemma_claimed_bag_append(policy, cs, ns, prev, own);
        let first: Seq<Seq<char>> = if kind_holds_comments(t.kind) { seq![key] } else { seq![] };
        let second: Seq<Seq<char>> = if kind_has_block(t.kind) && t.block is Some {
            seq![block_key(key)]
        } else {
            seq![]
        };
        assert(own == first + second);
        lemma_claimed_bag_append(policy, cs, ns, first, second);
        lemma_claimed_bag_one(policy, cs, ns, key);
        lemma_claimed_bag_one(policy, cs, ns, block_key(key));
        let empty_bag = Multiset::<CommentView>::empty();
        assert(claimed_bag(policy, cs, ns, Seq::<Seq<char>>::empty()) == empty_bag);
        assert(comment_views(t.comments@).len() == 0);
        assert(comment_views(t.comments@) =~= Seq::<CommentView>::empty());
        let own_bag = comment_views(a.comments@).to_multiset();
        let first_bag = claimed_bag(policy, cs, ns, first);
        assert(own_bag =~= first_bag) by {
            if kind_holds_comments(t.kind) && claimed_by(policy, cs, ns, key).len() == 0 {
                assert(claimed_by(policy, cs, ns, key) =~= Seq::<CommentView>::empty());
            }
        }
        let block_bag = match a.block {
            Some(b) => comment_views(b.comments@).to_multiset(),
            None => empty_bag,
        };
        let second_bag = claimed_bag(policy, cs, ns, second);
        assert(block_bag =~= second_bag) by {
            if let Some(b) = t.block {
                assert(comment_views(b.comments@) =~= Seq::<CommentView>::empty());
                if kind_has_block(t.kind) && claimed_by(policy, cs, ns, block_key(key)).len() == 0 {
                    assert(claimed_by(policy, cs, ns, block_key(key)) =~= Seq::<CommentView>::empty());
                }
            }
        }
        assert(comments_bag_on_items(annotated, n) =~= claimed_bag(policy, cs, ns, items_slots(tree, n)));
    }
}

/// No comment is lost or added in annotation: on a tree that held no
/// comments, the comments that annotation puts on the constructs, on their
/// blocks, and at the root are exactly the comments `cs` of the text, each as
/// often as there.
pub proof fn lemma_annotation_keeps_every_comment(
    tree: Seq<Item>,
    annotated: Seq<Item>,
    policy: AssociationPolicy,
    cs: Seq<CommentView>,
    root: Seq<CommentView>,
)
    requires
        annotated.len() == tree.len(),
        forall|i: int|
            0 <= i < tree.len() ==> item_annotated(
                #[trigger] tree[i],
                annotated[i],
                item_key(i as nat),
                |k: Seq<char>| claimed_by(policy, cs, node_spans_of(tree), k),
            ),
        forall|i: int|
            0 <= i < tree.len() ==> (#[trigger] tree[i]).comments@.len() == 0 && (tree[i].block is Some
                ==> tree[i].block->0.comments@.len() == 0),
        root == unclaimed(policy, cs, node_spans_of(tree)),
    ensures
        comments_bag_on_items(annotated, annotated.len() as int).add(root.to_multiset()) == cs.to_multiset(),
{
    let ns = node_spans_of(tree);
    let n = tree.len() as int;
    let owned = |k: Seq<char>| claimed_by(policy, cs, ns, k);
    lemma_items_slots(tree, n);
    lemma_comments_bag_on_items(tree, annotated, owned, policy, cs, ns, n);
    lemma_claimed_bag_total(policy, cs, ns, items_slots(tree, n));
}

} // verus!
