//! Nodes, annotations and saved words as JSON.

use vstd::prelude::*;

use crate::annotation_list::{library_view, LibraryAnnotation, LibraryAnnotationView};
use crate::json::{
    copy_json, fields_view, int_json, json_array, jsons_view, object, object1, optional_json,
    optional_to_json, signed_to_json, text_json, text_to_json, with_field, Json, JsonView,
};
use crate::persistence::{vocab_view, VocabEntry, VocabView};
use crate::schema::{annotations_view, ast_view, AnnotationView, AstNode, AstView, UserAnnotation};

verus! {

/// A node as JSON.
pub open spec fn node_json(n: AstView) -> JsonView {
    JsonView::Object(
        seq![
            ("id"@, int_json(n.id)),
            ("parent_id"@, optional_json(n.parent_id)),
            ("ordinal"@, int_json(n.ordinal)),
            ("node_type"@, JsonView::Text(n.node_type)),
            ("content"@, text_json(n.content)),
            (
                "attributes"@,
                match n.attributes {
                    Some(j) => j,
                    None => JsonView::Null,
                },
            ),
        ],
    )
}

fn node_to_json(n: &AstNode) -> (r: Json)
    ensures
        r@ == node_json(n@),
{
    let attributes = match &n.attributes {
        Some(j) => copy_json(j),
        None => Json::Null,
    };
    let fields = object1("id", signed_to_json(n.id));
    let fields = with_field(fields, "parent_id", optional_to_json(n.parent_id));
    let fields = with_field(fields, "ordinal", signed_to_json(n.ordinal));
    let fields = with_field(fields, "node_type", Json::Text(n.node_type.clone()));
    let fields = with_field(fields, "content", text_to_json(&n.content));
    let fields = with_field(fields, "attributes", attributes);
    assert(fields_view(fields@) =~= node_json(n@)->Object_0);
    object(fields)
}

/// The nodes of a book as JSON, in their order.
pub fn export_json(nodes: &Vec<AstNode>) -> (r: Json)
    ensures
        r@ == JsonView::Array(ast_view(nodes@).map_values(|n: AstView| node_json(n))),
{
    let ghost all = ast_view(nodes@).map_values(|n: AstView| node_json(n));
    let mut out: Vec<Json> = Vec::new();
    let mut k: usize = 0;
    while k < nodes.len()
        invariant
            k <= nodes@.len(),
            all == ast_view(nodes@).map_values(|n: AstView| node_json(n)),
            jsons_view(out@) =~= all.take(k as int),
        decreases nodes@.len() - k,
    {
        let j = node_to_json(&nodes[k]);
        assert(all[k as int] == j@);
        let ghost before = out@;
        out.push(j);
        k += 1;
        assert(jsons_view(out@) =~= jsons_view(before).push(j@));
        assert(all.take(k as int) =~= all.take(k - 1).push(all[k - 1]));
    }
    assert(all.take(k as int) =~= all);
    json_array(out)
}

/// The fields of an annotation in JSON.
pub open spec fn annotation_fields(a: AnnotationView) -> Seq<(Seq<char>, JsonView)> {
    seq![
        ("id"@, int_json(a.id as int)),
        ("node_id"@, int_json(a.node_id as int)),
        ("start_offset"@, int_json(a.start_offset as int)),
        ("end_offset"@, int_json(a.end_offset as int)),
        ("selected_text"@, text_json(a.selected_text)),
        ("annotation_type"@, JsonView::Text(a.annotation_type)),
        ("comment"@, text_json(a.comment)),
        ("asset_id"@, optional_json(a.asset_id)),
        ("author_name"@, JsonView::Text(a.author_name)),
        ("author_id"@, text_json(a.author_id)),
        ("device_id"@, text_json(a.device_id)),
        ("created_at"@, JsonView::Text(a.created_at)),
        ("updated_at"@, JsonView::Text(a.updated_at)),
    ]
}

fn push_annotation_fields(
    fields: Vec<(String, Json)>,
    a: &UserAnnotation,
) -> (r: Vec<(String, Json)>)
    ensures
        fields_view(r@) == fields_view(fields@) + annotation_fields(a@),
{
    let ghost before = fields_view(fields@);
    let fields = with_field(fields, "id", signed_to_json(a.id));
    let fields = with_field(fields, "node_id", signed_to_json(a.node_id));
    let fields = with_field(fields, "start_offset", signed_to_json(a.start_offset));
    let fields = with_field(fields, "end_offset", signed_to_json(a.end_offset));
    let fields = with_field(fields, "selected_text", text_to_json(&a.selected_text));
    let fields = with_field(fields, "annotation_type", Json::Text(a.annotation_type.clone()));
    let fields = with_field(fields, "comment", text_to_json(&a.comment));
    let fields = with_field(fields, "asset_id", optional_to_json(a.asset_id));
    let fields = with_field(fields, "author_name", Json::Text(a.author_name.clone()));
    let fields = with_field(fields, "author_id", text_to_json(&a.author_id));
    let fields = with_field(fields, "device_id", text_to_json(&a.device_id));
    let fields = with_field(fields, "created_at", Json::Text(a.created_at.clone()));
    let fields = with_field(fields, "updated_at", Json::Text(a.updated_at.clone()));
    assert(fields_view(fields@) =~= before + annotation_fields(a@));
    fields
}

/// The annotations of a book as JSON, with all of their fields, in their order.
pub fn export_annotations_json(annotations: &Vec<UserAnnotation>) -> (r: Json)
    ensures
        r@ == JsonView::Array(
            annotations_view(annotations@).map_values(|a: AnnotationView| JsonView::Object(annotation_fields(a))),
        ),
{
    let ghost all = annotations_view(annotations@).map_values(
        |a: AnnotationView| JsonView::Object(annotation_fields(a)),
    );
    let mut out: Vec<Json> = Vec::new();
    let mut k: usize = 0;
    while k < annotations.len()
        invariant
            k <= annotations@.len(),
            all == annotations_view(annotations@).map_values(
                |a: AnnotationView| JsonView::Object(annotation_fields(a)),
            ),
            jsons_view(out@) =~= all.take(k as int),
        decreases annotations@.len() - k,
    {
        let none: Vec<(String, Json)> = Vec::new();
        let fields = push_annotation_fields(none, &annotations[k]);
        assert(fields_view(fields@) =~= annotation_fields(annotations@[k as int]@));
        let j = object(fields);
        assert(all[k as int] == j@);
        let ghost before = out@;
        out.push(j);
        k += 1;
        assert(jsons_view(out@) =~= jsons_view(before).push(j@));
        assert(all.take(k as int) =~= all.take(k - 1).push(all[k - 1]));
    }
    assert(all.take(k as int) =~= all);
    json_array(out)
}

/// An annotation of a library in JSON: the title of its book, and its own fields beside it.
pub open spec fn library_annotation_json(e: LibraryAnnotationView) -> JsonView {
    JsonView::Object(seq![("book_title"@, JsonView::Text(e.book_title))] + annotation_fields(e.annotation))
}

/// The annotations of a library as JSON, in their order.
pub fn export_library_annotations_json(entries: &Vec<LibraryAnnotation>) -> (r: Json)
    ensures
        r@ == JsonView::Array(
            library_view(entries@).map_values(|e: LibraryAnnotationView| library_annotation_json(e)),
        ),
{
    let ghost all = library_view(entries@).map_values(|e: LibraryAnnotationView| library_annotation_json(e));
    let mut out: Vec<Json> = Vec::new();
    let mut k: usize = 0;
    while k < entries.len()
        invariant
            k <= entries@.len(),
            all == library_view(entries@).map_values(|e: LibraryAnnotationView| library_annotation_json(e)),
            jsons_view(out@) =~= all.take(k as int),
        decreases entries@.len() - k,
    {
        let title = object1("book_title", Json::Text(entries[k].book_title.clone()));
        let fields = push_annotation_fields(title, &entries[k].annotation);
        let j = object(fields);
        assert(all[k as int] == j@);
        let ghost before = out@;
        out.push(j);
        k += 1;
        assert(jsons_view(out@) =~= jsons_view(before).push(j@));
        assert(all.take(k as int) =~= all.take(k - 1).push(all[k - 1]));
    }
    assert(all.take(k as int) =~= all);
    json_array(out)
}

/// A saved word in JSON.
pub open spec fn word_json(e: VocabView) -> JsonView {
    JsonView::Object(
        seq![
            ("id"@, int_json(e.id)),
            ("word"@, JsonView::Text(e.word)),
            ("definition"@, JsonView::Text(e.definition)),
            ("context_before"@, JsonView::Text(e.context_before)),
            ("context_after"@, JsonView::Text(e.context_after)),
            ("book_title"@, JsonView::Text(e.book_title)),
            ("added_at"@, int_json(e.added_at)),
        ],
    )
}

fn word_to_json(e: &VocabEntry) -> (r: Json)
    ensures
        r@ == word_json(e@),
{
    let fields = object1("id", signed_to_json(e.id));
    let fields = with_field(fields, "word", Json::Text(e.word.clone()));
    let fields = with_field(fields, "definition", Json::Text(e.definition.clone()));
    let fields = with_field(fields, "context_before", Json::Text(e.context_before.clone()));
    let fields = with_field(fields, "context_after", Json::Text(e.context_after.clone()));
    let fields = with_field(fields, "book_title", Json::Text(e.book_title.clone()));
    let fields = with_field(fields, "added_at", signed_to_json(e.added_at));
    assert(fields_view(fields@) =~= word_json(e@)->Object_0);
    object(fields)
}

/// The saved words as JSON, in their order.
pub fn export_vocab_json(entries: &Vec<VocabEntry>) -> (r: Json)
    ensures
        r@ == JsonView::Array(vocab_view(entries@).map_values(|e: VocabView| word_json(e))),
{
    let ghost all = vocab_view(entries@).map_values(|e: VocabView| word_json(e));
    let mut out: Vec<Json> = Vec::new();
    let mut k: usize = 0;
    while k < entries.len()
        invariant
            k <= entries@.len(),
            all == vocab_view(entries@).map_values(|e: VocabView| word_json(e)),
            jsons_view(out@) =~= all.take(k as int),
        decreases entries@.len() - k,
    {
        let j = word_to_json(&entries[k]);
        assert(all[k as int] == j@);
        let ghost before = out@;
        out.push(j);
        k += 1;
        assert(jsons_view(out@) =~= jsons_view(before).push(j@));
        assert(all.take(k as int) =~= all.take(k - 1).push(all[k - 1]));
    }
    assert(all.take(k as int) =~= all);
    json_array(out)
}

} // verus!
