//! Attaches the comments of a Rust source text to the constructs of its
//! syntax tree.
//!
//! The work runs in four stages: a lexical scanner recovers the comments and
//! their positions ([`extract_comments`]), a collector records the span of
//! every construct that can own comments ([`collect_item_spans`]), an
//! associator decides which construct, if any, owns each comment under an
//! [`AssociationPolicy`] ([`associate_with_policy`]), and an applier stores the comments on
//! the tree, keeping the unclaimed ones at the root of the document
//! ([`apply_comment_associations`], [`File::from_syn_with_comments`]).
pub mod comment;
pub mod comment_association;
pub mod file;
pub mod span;

pub use crate::comment::{extract_comments, Comment, CommentKind};
pub use crate::comment_association::{
    associate_comments_with_nodes, associate_with_policy, AssociationPolicy, CommentMap,
};
pub use crate::file::{
    apply_comment_associations, associate_comments_with_file_nodes, collect_file_spans,
    collect_item_spans, Block, File, Item, ItemKind,
};
pub use crate::span::SpanInfo;
