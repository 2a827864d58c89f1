//! The rows of a book file.

use vstd::prelude::*;

use crate::json::{Json, JsonView};

verus! {

/// An inline run of characters of a node's text, with what it is.
pub struct Span {
    pub start: usize,
    pub end: usize,
    pub span_type: String,
    pub href: Option<String>,
}

/// The mathematical view of a [`Span`].
#[verifier::ext_equal]
pub struct SpanView {
    pub start: int,
    pub end: int,
    pub span_type: Seq<char>,
    pub href: Option<Seq<char>>,
}

/// The text of an optional string.
pub open spec fn opt_text(s: Option<String>) -> Option<Seq<char>> {
    match s {
        Some(t) => Some(t@),
        None => None,
    }
}

impl View for Span {
    type V = SpanView;

    open spec fn view(&self) -> SpanView {
        SpanView {
            start: self.start as int,
            end: self.end as int,
            span_type: self.span_type@,
            href: opt_text(self.href),
        }
    }
}

/// The views of a list of spans.
pub open spec fn spans_view(spans: Seq<Span>) -> Seq<SpanView> {
    spans.map_values(|s: Span| s@)
}

/// The text of an optional string.
pub open spec fn opt_str(s: Option<&str>) -> Option<Seq<char>> {
    match s {
        Some(t) => Some(t@),
        None => None,
    }
}

/// A node of a book's tree.
pub struct AstNode {
    pub id: i64,
    pub parent_id: Option<i64>,
    pub ordinal: i64,
    pub node_type: String,
    pub content: Option<String>,
    pub attributes: Option<Json>,
}

/// The mathematical view of an [`AstNode`].
#[verifier::ext_equal]
pub struct AstView {
    pub id: int,
    pub parent_id: Option<i64>,
    pub ordinal: int,
    pub node_type: Seq<char>,
    pub content: Option<Seq<char>>,
    pub attributes: Option<JsonView>,
}

impl View for AstNode {
    type V = AstView;

    open spec fn view(&self) -> AstView {
        AstView {
            id: self.id as int,
            parent_id: self.parent_id,
            ordinal: self.ordinal as int,
            node_type: self.node_type@,
            content: opt_text(self.content),
            attributes: match self.attributes {
                Some(j) => Some(j@),
                None => None,
            },
        }
    }
}

/// The views of nodes.
pub open spec fn ast_view(nodes: Seq<AstNode>) -> Seq<AstView> {
    nodes.map_values(|n: AstNode| n@)
}

/// An asset of a book.
pub struct Asset {
    pub id: i64,
    pub hash: String,
    pub mime_type: String,
    pub data: Vec<u8>,
}

/// The mathematical view of an [`Asset`].
#[verifier::ext_equal]
pub struct AssetView {
    pub id: i64,
    pub hash: Seq<char>,
    pub mime_type: Seq<char>,
    pub data: Seq<u8>,
}

impl View for Asset {
    type V = AssetView;

    open spec fn view(&self) -> AssetView {
        AssetView { id: self.id, hash: self.hash@, mime_type: self.mime_type@, data: self.data@ }
    }
}

/// The views of assets.
pub open spec fn assets_view(assets: Seq<Asset>) -> Seq<AssetView> {
    assets.map_values(|a: Asset| a@)
}

/// An annotation that a reader left on a node.
pub struct UserAnnotation {
    pub id: i64,
    pub node_id: i64,
    pub start_offset: i64,
    pub end_offset: i64,
    pub selected_text: Option<String>,
    pub annotation_type: String,
    pub comment: Option<String>,
    pub asset_id: Option<i64>,
    pub author_name: String,
    pub author_id: Option<String>,
    pub device_id: Option<String>,
    pub created_at: String,
    pub updated_at: String,
}

/// The mathematical view of a [`UserAnnotation`].
#[verifier::ext_equal]
pub struct AnnotationView {
    pub id: i64,
    pub node_id: i64,
    pub start_offset: i64,
    pub end_offset: i64,
    pub selected_text: Option<Seq<char>>,
    pub annotation_type: Seq<char>,
    pub comment: Option<Seq<char>>,
    pub asset_id: Option<i64>,
    pub author_name: Seq<char>,
    pub author_id: Option<Seq<char>>,
    pub device_id: Option<Seq<char>>,
    pub created_at: Seq<char>,
    pub updated_at: Seq<char>,
}

impl View for UserAnnotation {
    type V = AnnotationView;

    open spec fn view(&self) -> AnnotationView {
        AnnotationView {
            id: self.id,
            node_id: self.node_id,
            start_offset: self.start_offset,
            end_offset: self.end_offset,
            selected_text: opt_text(self.selected_text),
            annotation_type: self.annotation_type@,
            comment: opt_text(self.comment),
            asset_id: self.asset_id,
            author_name: self.author_name@,
            author_id: opt_text(self.author_id),
            device_id: opt_text(self.device_id),
            created_at: self.created_at@,
            updated_at: self.updated_at@,
        }
    }
}

/// The views of annotations.
pub open spec fn annotations_view(annotations: Seq<UserAnnotation>) -> Seq<AnnotationView> {
    annotations.map_values(|a: UserAnnotation| a@)
}

impl UserAnnotation {
    /// A copy of the annotation.
    pub fn copy(&self) -> (r: UserAnnotation)
        ensures
            r@ == self@,
    {
        UserAnnotation {
            id: self.id,
            node_id: self.node_id,
            start_offset: self.start_offset,
            end_offset: self.end_offset,
            selected_text: self.selected_text.clone(),
            annotation_type: self.annotation_type.clone(),
            comment: self.comment.clone(),
            asset_id: self.asset_id,
            author_name: self.author_name.clone(),
            author_id: self.author_id.clone(),
            device_id: self.device_id.clone(),
            created_at: self.created_at.clone(),
            updated_at: self.updated_at.clone(),
        }
    }
}

/// An annotation that is to be written into a book.
pub struct NewAnnotation {
    pub node_id: i64,
    pub start_offset: i64,
    pub end_offset: i64,
    pub selected_text: Option<String>,
    pub annotation_type: String,
    pub comment: Option<String>,
    pub asset_id: Option<i64>,
    pub author_name: String,
}

/// A place in a book where a search found something, with the words around it.
pub struct SearchHit {
    pub node_id: i64,
    pub ordinal: i64,
    pub node_type: String,
    pub snippet: String,
}

/// An entry of a book's table of contents.
pub struct TocEntry {
    pub id: i64,
    pub parent_id: Option<i64>,
    pub ordinal: i64,
    pub title: String,
    pub target_node_id: Option<i64>,
    pub href: Option<String>,
}

} // verus!
