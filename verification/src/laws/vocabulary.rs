//! Saved words are listed and exported whole.

use vstd::prelude::*;

use super::lines::{in_a_row, lemma_in_a_row};
use crate::exports::{annotation_fields, library_annotation_json, node_json, word_json};
use crate::annotation_list::LibraryAnnotationView;
use crate::json::{int_json, optional_json, text_json, JsonView};
use crate::order::{order_of, stable_orders_exist, stable_orders_have_no_duplicates};
use crate::persistence::VocabView;
use crate::schema::AstView;
use crate::text::{ascii_lowercase, contains, lowercase};
use crate::vocab::{is_saved, listed, listed_places, time_keys, words_markdown};

verus! {

/// The word has the text that was asked for in it, in its book's title or in its definition.
pub open spec fn mentions(e: VocabView, filter: Seq<char>) -> bool {
    ||| filter.len() == 0
    ||| contains(lowercase(e.word), filter)
    ||| contains(lowercase(e.book_title), filter)
    ||| contains(lowercase(e.definition), filter)
}

proof fn lemma_places(entries: Seq<VocabView>, filter: Seq<char>, n: int)
    requires
        0 <= n <= entries.len() <= usize::MAX,
    ensures
        forall|k: usize| #[trigger]
            listed_places(entries, filter, n).contains(k) <==> k < n && mentions(entries[k as int], filter),
        listed_places(entries, filter, n).len() <= n,
        forall|i: int, j: int|
            0 <= i < j < listed_places(entries, filter, n).len() ==> listed_places(entries, filter, n)[i]
                < listed_places(entries, filter, n)[j],
    decreases n,
{
    let now = listed_places(entries, filter, n);
    if n > 0 {
        lemma_places(entries, filter, n - 1);
        let before = listed_places(entries, filter, n - 1);
        let last = (n - 1) as usize;
        assert forall|k: usize| #[trigger] now.contains(k) <==> k < n && mentions(entries[k as int], filter) by {
            if now.contains(k) {
                let i = choose|i: int| 0 <= i < now.len() && now[i] == k;
                if i < before.len() {
                    assert(before[i] == k);
                    assert(before.contains(k));
                }
            }
            if before.contains(k) {
                let i = choose|i: int| 0 <= i < before.len() && before[i] == k;
                assert(now[i] == k);
            }
            if k == last && mentions(entries[k as int], filter) {
                assert(now[now.len() - 1] == k);
            }
        }
        assert forall|i: int, j: int| 0 <= i < j < now.len() implies now[i] < now[j] by {
            assert(before.contains(before[i]));
        }
    }
}

/// The words that mention what was asked for are listed, each once, and no others.
pub proof fn the_words_asked_for_are_listed(entries: Seq<VocabView>, filter: Seq<char>, k: usize)
    requires
        entries.len() <= usize::MAX,
    ensures
        listed(entries, filter).contains(k) <==> k < entries.len() && mentions(entries[k as int], filter),
        listed(entries, filter).no_duplicates(),
{
    let n = entries.len() as int;
    let places = listed_places(entries, filter, n);
    lemma_places(entries, filter, n);
    let keys = time_keys(entries, places);
    stable_orders_exist(keys, true);
    let order = order_of(keys, true);
    stable_orders_have_no_duplicates(order, keys, keys.len() as int, true);
    let all = listed(entries, filter);
    if all.contains(k) {
        let i = choose|i: int| 0 <= i < all.len() && all[i] == k;
        assert(order[i] < keys.len());
        assert(places[order[i] as int] == k);
        assert(places.contains(k));
    }
    if places.contains(k) {
        let i = choose|i: int| 0 <= i < places.len() && places[i] == k;
        assert(order.contains(i as usize));
        let j = choose|j: int| 0 <= j < order.len() && order[j] == i as usize;
        assert(all[j] == k);
    }
    assert forall|i: int, j: int| 0 <= i < all.len() && 0 <= j < all.len() && i != j implies all[i] != all[j] by {
        assert(order[i] < keys.len() && order[j] < keys.len());
        assert(order[i] != order[j]);
        let a = order[i] as int;
        let b = order[j] as int;
        if a < b {
            assert(places[a] < places[b]);
        } else {
            assert(places[b] < places[a]);
        }
    }
}

/// A word is saved if one with the same letters is, whatever their case.
pub proof fn words_are_saved_whatever_their_case(entries: Seq<VocabView>, word: Seq<char>, k: int)
    ensures
        0 <= k < entries.len() && (lowercase(entries[k].word) == lowercase(word) || ascii_lowercase(entries[k].word)
            == ascii_lowercase(word)) ==> is_saved(entries, word),
        (forall|j: int|
            0 <= j < entries.len() ==> lowercase((#[trigger] entries[j]).word) != lowercase(word) && ascii_lowercase(
                entries[j].word,
            ) != ascii_lowercase(word)) ==> !is_saved(entries, word),
{
}

/// What is exported of a word: the word, its book, what stood around it if anything did, and its
/// definition.
pub open spec fn section(e: VocabView) -> Seq<char> {
    "## "@ + e.word + "\n\n*From:* "@ + e.book_title + "\n\n"@ + (if e.context_before.len() == 0
        && e.context_after.len() == 0 {
        Seq::empty()
    } else {
        "> \u{2026}"@ + e.context_before + " **"@ + e.word + "** "@ + e.context_after + "\u{2026}\n\n"@
    }) + e.definition + "\n\n---\n\n"@
}

/// Every word is exported, one after the other in this order.
pub proof fn every_word_is_exported(entries: Seq<VocabView>, order: Seq<usize>, n: int)
    requires
        0 <= n <= order.len(),
    ensures
        words_markdown(entries, order, n) == in_a_row(Seq::new(n as nat, |k: int| section(entries[order[k] as int]))),
    decreases n,
{
    let parts = Seq::new(n as nat, |k: int| section(entries[order[k] as int]));
    if n > 0 {
        every_word_is_exported(entries, order, n - 1);
        let before = Seq::new((n - 1) as nat, |k: int| section(entries[order[k] as int]));
        let last = section(entries[order[n - 1] as int]);
        lemma_in_a_row(before, last);
        assert(parts =~= before.push(last));
    } else {
        lemma_in_a_row(Seq::empty(), Seq::empty());
        assert(parts =~= Seq::<Seq<char>>::empty());
    }
}

// ---------------------------------------------------------------------------
// JSON
// ---------------------------------------------------------------------------

/// The object has this field.
pub open spec fn has_field(j: JsonView, name: Seq<char>, value: JsonView) -> bool {
    j matches JsonView::Object(fields) && fields.contains((name, value))
}

/// An exported node has every field of the node.
pub proof fn nodes_are_exported_whole(n: AstView)
    ensures
        has_field(node_json(n), "id"@, int_json(n.id)),
        has_field(node_json(n), "parent_id"@, optional_json(n.parent_id)),
        has_field(node_json(n), "ordinal"@, int_json(n.ordinal)),
        has_field(node_json(n), "node_type"@, JsonView::Text(n.node_type)),
        has_field(node_json(n), "content"@, text_json(n.content)),
        n.attributes matches Some(a) ==> has_field(node_json(n), "attributes"@, a),
        n.attributes is None ==> has_field(node_json(n), "attributes"@, JsonView::Null),
        node_json(n) matches JsonView::Object(fields) && fields.len() == 6,
{
    let fields = node_json(n)->Object_0;
    assert(fields[0] == ("id"@, int_json(n.id)));
    assert(fields[1] == ("parent_id"@, optional_json(n.parent_id)));
    assert(fields[2] == ("ordinal"@, int_json(n.ordinal)));
    assert(fields[3] == ("node_type"@, JsonView::Text(n.node_type)));
    assert(fields[4] == ("content"@, text_json(n.content)));
    assert(fields[5].0 == "attributes"@);
}

/// An exported word has every field of the word.
pub proof fn words_are_exported_whole(e: VocabView)
    ensures
        has_field(word_json(e), "id"@, int_json(e.id)),
        has_field(word_json(e), "word"@, JsonView::Text(e.word)),
        has_field(word_json(e), "definition"@, JsonView::Text(e.definition)),
        has_field(word_json(e), "context_before"@, JsonView::Text(e.context_before)),
        has_field(word_json(e), "context_after"@, JsonView::Text(e.context_after)),
        has_field(word_json(e), "book_title"@, JsonView::Text(e.book_title)),
        has_field(word_json(e), "added_at"@, int_json(e.added_at)),
        word_json(e) matches JsonView::Object(fields) && fields.len() == 7,
{
    let fields = word_json(e)->Object_0;
    assert(fields[0] == ("id"@, int_json(e.id)));
    assert(fields[1] == ("word"@, JsonView::Text(e.word)));
    assert(fields[2] == ("definition"@, JsonView::Text(e.definition)));
    assert(fields[3] == ("context_before"@, JsonView::Text(e.context_before)));
    assert(fields[4] == ("context_after"@, JsonView::Text(e.context_after)));
    assert(fields[5] == ("book_title"@, JsonView::Text(e.book_title)));
    assert(fields[6] == ("added_at"@, int_json(e.added_at)));
}

/// An exported annotation has every field of the annotation, and one of a library the title of its
/// book as well.
pub proof fn annotations_are_exported_whole(e: LibraryAnnotationView)
    ensures
        ({
            let a = e.annotation;
            let j = JsonView::Object(annotation_fields(a));
            let whole = library_annotation_json(e);
            &&& has_field(j, "id"@, int_json(a.id as int)) && has_field(whole, "id"@, int_json(a.id as int))
            &&& has_field(j, "node_id"@, int_json(a.node_id as int))
            &&& has_field(j, "start_offset"@, int_json(a.start_offset as int))
            &&& has_field(j, "end_offset"@, int_json(a.end_offset as int))
            &&& has_field(j, "selected_text"@, text_json(a.selected_text))
            &&& has_field(j, "annotation_type"@, JsonView::Text(a.annotation_type))
            &&& has_field(j, "comment"@, text_json(a.comment))
            &&& has_field(j, "asset_id"@, optional_json(a.asset_id))
            &&& has_field(j, "author_name"@, JsonView::Text(a.author_name))
            &&& has_field(j, "author_id"@, text_json(a.author_id))
            &&& has_field(j, "device_id"@, text_json(a.device_id))
            &&& has_field(j, "created_at"@, JsonView::Text(a.created_at))
            &&& has_field(j, "updated_at"@, JsonView::Text(a.updated_at))
            &&& has_field(whole, "book_title"@, JsonView::Text(e.book_title))
            &&& forall|name: Seq<char>, value: JsonView| #[trigger]
                has_field(j, name, value) ==> has_field(whole, name, value)
            &&& annotation_fields(a).len() == 13
        }),
{
    let a = e.annotation;
    let fields = annotation_fields(a);
    let more = library_annotation_json(e)->Object_0;
    assert(fields[0] == ("id"@, int_json(a.id as int)));
    assert(fields[1] == ("node_id"@, int_json(a.node_id as int)));
    assert(fields[2] == ("start_offset"@, int_json(a.start_offset as int)));
    assert(fields[3] == ("end_offset"@, int_json(a.end_offset as int)));
    assert(fields[4] == ("selected_text"@, text_json(a.selected_text)));
    assert(fields[5] == ("annotation_type"@, JsonView::Text(a.annotation_type)));
    assert(fields[6] == ("comment"@, text_json(a.comment)));
    assert(fields[7] == ("asset_id"@, optional_json(a.asset_id)));
    assert(fields[8] == ("author_name"@, JsonView::Text(a.author_name)));
    assert(fields[9] == ("author_id"@, text_json(a.author_id)));
    assert(fields[10] == ("device_id"@, text_json(a.device_id)));
    assert(fields[11] == ("created_at"@, JsonView::Text(a.created_at)));
    assert(fields[12] == ("updated_at"@, JsonView::Text(a.updated_at)));
    assert(more[0] == ("book_title"@, JsonView::Text(e.book_title)));
    let j = JsonView::Object(fields);
    let whole = library_annotation_json(e);
    assert forall|name: Seq<char>, value: JsonView| #[trigger] has_field(j, name, value) implies has_field(
        whole,
        name,
        value,
    ) by {
        let i = choose|i: int| 0 <= i < fields.len() && fields[i] == (name, value);
        assert(more[i + 1] == fields[i]);
    }
    assert(has_field(j, "id"@, int_json(a.id as int)));
}

} // verus!
