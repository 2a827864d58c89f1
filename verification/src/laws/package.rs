//! A package says what the elements of its document say.

use vstd::prelude::*;

use super::children::{children, given, given_in, lemma_children, lemma_given};
use super::chapters::is_element;
use super::extraction::{
    are_children, lies_below, subtrees_hold_what_lies_below, the_earliest_is_found,
};
use crate::dom::{cell_text, is_named_ignoring_case};
use crate::epub::{
    child_named, cover_id, first_list, first_markup, first_named, first_nav, first_rootfile,
    first_text, guide_cover, is_last_of_id, is_nav, item_by_id, kept_items, leading_text,
    looks_like_cover, manifest_items, markup_text, mime_of, named_in, nav_entries, nav_sublists,
    nav_toc, ncx_entries, ncx_paths_of, ncx_toc, own_text_of, package, package_manifest,
    path_by_property, path_of_likely_cover, path_of_ncx, resolved, spine_items, texts_beside_lists,
    toc_nav, ManifestView, TocView,
};
use crate::text::{
    ascii_lowercase, before_char, contains, ends_with, join, lowercase, starts_with, words,
};
use crate::tree::{attr, is_named, node_end, parent, subtree_end, texts_in, NodeView};

verus! {

// ---------------------------------------------------------------------------
// The manifest and the spine
// ---------------------------------------------------------------------------

/// Node `k` is the first element of this name.
pub open spec fn is_first(d: Seq<NodeView>, tag: Seq<char>, k: int) -> bool {
    0 <= k < d.len() && is_element(d, k, tag) && forall|j: int| 0 <= j < k ==> !#[trigger] is_element(d, j, tag)
}

proof fn lemma_first_named(d: Seq<NodeView>, tag: Seq<char>, k: int, from: int)
    requires
        is_first(d, tag, k),
        0 <= from <= k,
    ensures
        first_named(d, tag, from) == Some(k),
    decreases k - from,
{
    if from < k {
        assert(!is_element(d, from, tag));
        lemma_first_named(d, tag, k, from + 1);
    }
}

proof fn lemma_none_named(d: Seq<NodeView>, tag: Seq<char>, from: int)
    requires
        forall|j: int| 0 <= j < d.len() ==> !#[trigger] is_element(d, j, tag),
        0 <= from,
    ensures
        first_named(d, tag, from) is None,
    decreases d.len() - from,
{
    if from < d.len() {
        assert(!is_element(d, from, tag));
        lemma_none_named(d, tag, from + 1);
    }
}

/// The item that node `k` lists: an `item` with an id, an address and a media type.
pub open spec fn listed(d: Seq<NodeView>, k: int) -> Option<ManifestView> {
    if is_element(d, k, "item"@) && attr(d[k], "id"@) is Some && attr(d[k], "href"@) is Some && attr(
        d[k],
        "media-type"@,
    ) is Some {
        Some(
            ManifestView {
                id: attr(d[k], "id"@)->0,
                href: attr(d[k], "href"@)->0,
                media_type: attr(d[k], "media-type"@)->0,
                properties: attr(d[k], "properties"@),
            },
        )
    } else {
        None
    }
}

/// The manifest of a package lists every item directly in its first `manifest` that is complete,
/// in order.
pub proof fn manifests_list_their_items(d: Seq<NodeView>, m: int)
    requires
        is_first(d, "manifest"@, m),
    ensures
        package_manifest(d) == given(d, m, |k: int| listed(d, k)),
{
    lemma_first_named(d, "manifest"@, m, 0);
    lemma_children(d, m);
    lemma_manifest(d, m, m + 1, subtree_end(d, m));
}

proof fn lemma_manifest(d: Seq<NodeView>, m: int, lo: int, hi: int)
    requires
        0 <= m < d.len(),
        are_children(d, m, lo, hi),
    ensures
        manifest_items(d, lo, hi) == given_in(d, m, lo, hi, |k: int| listed(d, k)),
    decreases hi - lo,
{
    lemma_given(d, m, lo, hi, |k: int| listed(d, k));
    if lo < hi {
        lemma_manifest(d, m, node_end(d, lo, hi), hi);
    }
}

/// An item is found by its id: the last that has it.
pub proof fn items_are_found_by_id(items: Seq<ManifestView>, id: Seq<char>, k: int)
    requires
        0 <= k < items.len(),
        items[k].id == id,
        forall|j: int| k < j < items.len() ==> (#[trigger] items[j]).id != id,
    ensures
        item_by_id(items, id) == Some(items[k]),
    decreases items.len(),
{
    if k < items.len() - 1 {
        assert(items.last() == items[items.len() - 1]);
        items_are_found_by_id(items.drop_last(), id, k);
    }
}

/// No item is found by an id that none has.
pub proof fn other_ids_find_nothing(items: Seq<ManifestView>, id: Seq<char>)
    requires
        forall|j: int| 0 <= j < items.len() ==> (#[trigger] items[j]).id != id,
    ensures
        item_by_id(items, id) is None,
    decreases items.len(),
{
    if items.len() > 0 {
        assert(items.last() == items[items.len() - 1]);
        other_ids_find_nothing(items.drop_last(), id);
    }
}

/// The manifest that is kept has, for every id, the last item of it and no other, in order.
pub proof fn the_last_item_of_an_id_is_kept(items: Seq<ManifestView>, k: int)
    requires
        0 <= k < items.len(),
    ensures
        ({
            let kept = kept_items(items, items.len() as int);
            let at = kept_items(items, k).len() as int;
            let lasts = forall|j: int| k < j < items.len() ==> (#[trigger] items[j]).id != items[k].id;
            &&& lasts ==> at < kept.len() && kept[at] == items[k] && kept_items(items, k + 1).len() == at + 1
            &&& !lasts ==> kept_items(items, k + 1).len() == at
            &&& kept_items(items, 0).len() == 0
        }),
{
    lemma_kept(items, k, items.len() as int);
}

proof fn lemma_kept(items: Seq<ManifestView>, k: int, n: int)
    requires
        0 <= k < n <= items.len(),
    ensures
        kept_items(items, k + 1).len() <= kept_items(items, n).len(),
        is_last_of_id(items, k) ==> kept_items(items, k).len() < kept_items(items, n).len() && kept_items(items, n)[
        kept_items(items, k).len() as int] == items[k],
    decreases n - k,
{
    if k < n - 1 {
        lemma_kept(items, k, n - 1);
    }
}

/// The path that node `k` of a spine leads to: an `itemref` to an item of the manifest.
pub open spec fn spine_step(d: Seq<NodeView>, items: Seq<ManifestView>, dir: Seq<char>, k: int) -> Option<Seq<char>> {
    if is_element(d, k, "itemref"@) && attr(d[k], "idref"@) is Some && item_by_id(items, attr(d[k], "idref"@)->0) is Some {
        Some(resolved(dir, item_by_id(items, attr(d[k], "idref"@)->0)->0.href))
    } else {
        None
    }
}

/// The chapters of a package are those that its spine refers to, in order, each at the address of
/// its item.
pub proof fn spines_lead_through_the_items(d: Seq<NodeView>, dir: Seq<char>, s: int)
    requires
        is_first(d, "spine"@, s),
    ensures
        package(d, dir).spine_paths == given(d, s, |k: int| spine_step(d, package_manifest(d), dir, k)),
{
    lemma_first_named(d, "spine"@, s, 0);
    lemma_children(d, s);
    lemma_spine(d, s, s + 1, subtree_end(d, s), package_manifest(d), dir);
}

proof fn lemma_spine(d: Seq<NodeView>, m: int, lo: int, hi: int, items: Seq<ManifestView>, dir: Seq<char>)
    requires
        0 <= m < d.len(),
        are_children(d, m, lo, hi),
    ensures
        spine_items(d, lo, hi, items, dir) == given_in(d, m, lo, hi, |k: int| spine_step(d, items, dir, k)),
    decreases hi - lo,
{
    lemma_given(d, m, lo, hi, |k: int| spine_step(d, items, dir, k));
    if lo < hi {
        lemma_spine(d, m, node_end(d, lo, hi), hi, items, dir);
    }
}

// ---------------------------------------------------------------------------
// Metadata
// ---------------------------------------------------------------------------

/// What node `k` says in markup, if it is an element of this name.
pub open spec fn said(d: Seq<NodeView>, tag: Seq<char>, k: int) -> Option<Seq<char>> {
    if is_element(d, k, tag) {
        markup_text(d, k, subtree_end(d, k))
    } else {
        None
    }
}

/// What node `k` says in front of all markup, if it is an element of this name.
pub open spec fn opened_with(d: Seq<NodeView>, tag: Seq<char>, k: int) -> Option<Seq<char>> {
    if is_element(d, k, tag) {
        leading_text(d, k, subtree_end(d, k))
    } else {
        None
    }
}

/// The first of some texts, if there is any.
pub open spec fn first_of(s: Seq<Seq<char>>) -> Option<Seq<char>> {
    if s.len() > 0 {
        Some(s[0])
    } else {
        None
    }
}

/// The last of some texts, if there is any.
pub open spec fn last_of(s: Seq<Seq<char>>) -> Option<Seq<char>> {
    if s.len() > 0 {
        Some(s.last())
    } else {
        None
    }
}

/// An optional text, or else another.
pub open spec fn or_else(a: Option<Seq<char>>, b: Seq<char>) -> Seq<char> {
    if a is Some {
        a->0
    } else {
        b
    }
}

/// The first that such elements directly in node `m` say.
pub open spec fn first_said(d: Seq<NodeView>, m: int, tag: Seq<char>) -> Option<Seq<char>> {
    first_of(given(d, m, |k: int| said(d, tag, k)))
}

/// The first that such elements directly in node `m` open with.
pub open spec fn first_opening(d: Seq<NodeView>, m: int, tag: Seq<char>) -> Option<Seq<char>> {
    first_of(given(d, m, |k: int| opened_with(d, tag, k)))
}

/// The metadata of a package are what the elements directly in its first `metadata` say, the first
/// that says something for each; a package without a title, an author or a language gets one.
pub proof fn metadata_is_what_the_elements_say(d: Seq<NodeView>, dir: Seq<char>, m: int)
    requires
        is_first(d, "metadata"@, m),
    ensures
        ({
            let data = package(d, dir).metadata;
            &&& data.title == or_else(first_said(d, m, "title"@), "Unknown Title"@)
            &&& data.author == or_else(first_said(d, m, "creator"@), "Unknown Author"@)
            &&& data.language == or_else(first_opening(d, m, "language"@), "en"@)
            &&& data.description == first_said(d, m, "description"@)
            &&& data.identifier == first_opening(d, m, "identifier"@)
            &&& data.publisher == first_said(d, m, "publisher"@)
            &&& data.date == first_opening(d, m, "date"@)
            &&& data.rights == first_said(d, m, "rights"@)
        }),
{
    lemma_first_named(d, "metadata"@, m, 0);
    lemma_children(d, m);
    let e = subtree_end(d, m);
    lemma_said(d, m, m + 1, e, "title"@);
    lemma_said(d, m, m + 1, e, "creator"@);
    lemma_said(d, m, m + 1, e, "description"@);
    lemma_said(d, m, m + 1, e, "publisher"@);
    lemma_said(d, m, m + 1, e, "rights"@);
    lemma_opened(d, m, m + 1, e, "language"@);
    lemma_opened(d, m, m + 1, e, "identifier"@);
    lemma_opened(d, m, m + 1, e, "date"@);
}

proof fn lemma_said(d: Seq<NodeView>, m: int, lo: int, hi: int, tag: Seq<char>)
    requires
        0 <= m < d.len(),
        are_children(d, m, lo, hi),
    ensures
        first_markup(d, lo, hi, tag) == first_of(given_in(d, m, lo, hi, |k: int| said(d, tag, k))),
    decreases hi - lo,
{
    lemma_given(d, m, lo, hi, |k: int| said(d, tag, k));
    if lo < hi {
        lemma_said(d, m, node_end(d, lo, hi), hi, tag);
    }
}

proof fn lemma_opened(d: Seq<NodeView>, m: int, lo: int, hi: int, tag: Seq<char>)
    requires
        0 <= m < d.len(),
        are_children(d, m, lo, hi),
    ensures
        first_text(d, lo, hi, tag) == first_of(given_in(d, m, lo, hi, |k: int| opened_with(d, tag, k))),
    decreases hi - lo,
{
    lemma_given(d, m, lo, hi, |k: int| opened_with(d, tag, k));
    if lo < hi {
        lemma_opened(d, m, node_end(d, lo, hi), hi, tag);
    }
}

/// A package that has no such elements has the titles of an unknown book, and nothing else.
pub proof fn packages_without_parts_say_nothing(d: Seq<NodeView>, dir: Seq<char>)
    ensures
        ({
            let p = package(d, dir);
            &&& (forall|j: int| 0 <= j < d.len() ==> !#[trigger] is_element(d, j, "metadata"@)) ==> p.metadata.title
                == "Unknown Title"@ && p.metadata.author == "Unknown Author"@ && p.metadata.language == "en"@
                && p.metadata.description is None && p.metadata.identifier is None && p.metadata.publisher is None
                && p.metadata.date is None && p.metadata.rights is None
            &&& (forall|j: int| 0 <= j < d.len() ==> !#[trigger] is_element(d, j, "manifest"@)) ==> package_manifest(d)
                == Seq::<ManifestView>::empty()
            &&& (forall|j: int| 0 <= j < d.len() ==> !#[trigger] is_element(d, j, "spine"@)) ==> p.spine_paths
                == Seq::<Seq<char>>::empty()
        }),
{
    if forall|j: int| 0 <= j < d.len() ==> !#[trigger] is_element(d, j, "metadata"@) {
        lemma_none_named(d, "metadata"@, 0);
    }
    if forall|j: int| 0 <= j < d.len() ==> !#[trigger] is_element(d, j, "manifest"@) {
        lemma_none_named(d, "manifest"@, 0);
    }
    if forall|j: int| 0 <= j < d.len() ==> !#[trigger] is_element(d, j, "spine"@) {
        lemma_none_named(d, "spine"@, 0);
    }
}

// ---------------------------------------------------------------------------
// Cover and table of contents
// ---------------------------------------------------------------------------

/// Item `k` is the first whose properties hold this word.
pub open spec fn is_first_with(items: Seq<ManifestView>, word: Seq<char>, k: int) -> bool {
    &&& 0 <= k < items.len()
    &&& items[k].properties matches Some(p) && contains(p, word)
    &&& forall|j: int| 0 <= j < k ==> ((#[trigger] items[j]).properties matches Some(p) ==> !contains(p, word))
}

/// No item has this word among its properties.
pub open spec fn none_with(items: Seq<ManifestView>, word: Seq<char>) -> bool {
    forall|j: int|
        0 <= j < items.len() ==> ((#[trigger] items[j]).properties matches Some(p) ==> !contains(p, word))
}

proof fn lemma_property(items: Seq<ManifestView>, word: Seq<char>, dir: Seq<char>, k: int, from: int)
    requires
        0 <= from,
    ensures
        is_first_with(items, word, k) && from <= k ==> path_by_property(items, word, dir, from) == Some(
            resolved(dir, items[k].href),
        ),
        none_with(items, word) ==> path_by_property(items, word, dir, from) is None,
    decreases items.len() - from,
{
    if from < items.len() {
        lemma_property(items, word, dir, k, from + 1);
    }
}

/// The cover that node `k` of the metadata names: the content of a `meta` of that name.
pub open spec fn cover_named(d: Seq<NodeView>, k: int) -> Option<Seq<char>> {
    if is_element(d, k, "meta"@) && (attr(d[k], "name"@) matches Some(n) && ascii_lowercase(n) == ascii_lowercase(
        "cover"@,
    )) {
        attr(d[k], "content"@)
    } else {
        None
    }
}

/// The picture that node `k` of the guide refers to as the cover.
pub open spec fn cover_referred(d: Seq<NodeView>, dir: Seq<char>, k: int) -> Option<Seq<char>> {
    if is_element(d, k, "reference"@) && (attr(d[k], "type"@) matches Some(t) && ascii_lowercase(t)
        == ascii_lowercase("cover"@)) && (attr(d[k], "href"@) matches Some(h) && starts_with(
        mime_of(before_char(resolved(dir, h), '#')),
        "image/"@,
    )) {
        Some(before_char(resolved(dir, attr(d[k], "href"@)->0), '#'))
    } else {
        None
    }
}

proof fn lemma_cover_named(d: Seq<NodeView>, m: int, lo: int, hi: int, found: Option<Seq<char>>)
    requires
        0 <= m < d.len(),
        are_children(d, m, lo, hi),
    ensures
        cover_id(d, lo, hi, found) == (if last_of(given_in(d, m, lo, hi, |k: int| cover_named(d, k))) is Some {
            last_of(given_in(d, m, lo, hi, |k: int| cover_named(d, k)))
        } else {
            found
        }),
    decreases hi - lo,
{
    let f = |k: int| cover_named(d, k);
    lemma_given(d, m, lo, hi, f);
    if lo < hi {
        let e = node_end(d, lo, hi);
        let rest = given_in(d, m, e, hi, f);
        lemma_cover_named(d, m, e, hi, if cover_named(d, lo) is Some { cover_named(d, lo) } else { found });
        if cover_named(d, lo) is Some {
            let all = seq![cover_named(d, lo)->0] + rest;
            assert(rest.len() > 0 ==> all.last() == rest.last());
        }
    }
}

proof fn lemma_cover_referred(d: Seq<NodeView>, m: int, lo: int, hi: int, dir: Seq<char>)
    requires
        0 <= m < d.len(),
        are_children(d, m, lo, hi),
    ensures
        guide_cover(d, lo, hi, dir) == first_of(given_in(d, m, lo, hi, |k: int| cover_referred(d, dir, k))),
    decreases hi - lo,
{
    lemma_given(d, m, lo, hi, |k: int| cover_referred(d, dir, k));
    if lo < hi {
        lemma_cover_referred(d, m, node_end(d, lo, hi), hi, dir);
    }
}

/// The item with the property of a cover is the cover, whatever else there is.
pub proof fn the_marked_cover_comes_first(d: Seq<NodeView>, dir: Seq<char>, k: int)
    requires
        is_first_with(package_manifest(d), "cover-image"@, k),
    ensures
        package(d, dir).metadata.cover_href == Some(resolved(dir, package_manifest(d)[k].href)),
{
    lemma_property(package_manifest(d), "cover-image"@, dir, k, 0);
}

/// Where no item has the property of a cover, the item that the metadata names last is the cover.
pub proof fn the_named_cover_comes_next(d: Seq<NodeView>, dir: Seq<char>, m: int, id: Seq<char>)
    requires
        none_with(package_manifest(d), "cover-image"@),
        is_first(d, "metadata"@, m),
        last_of(given(d, m, |k: int| cover_named(d, k))) == Some(id),
        item_by_id(package_manifest(d), id) is Some,
    ensures
        package(d, dir).metadata.cover_href == Some(resolved(dir, item_by_id(package_manifest(d), id)->0.href)),
{
    lemma_property(package_manifest(d), "cover-image"@, dir, 0, 0);
    lemma_first_named(d, "metadata"@, m, 0);
    lemma_children(d, m);
    lemma_cover_named(d, m, m + 1, subtree_end(d, m), None);
}

/// Where neither gives a cover, the first picture that the guide refers to as one is it, and
/// otherwise the first picture with the word in its id or address.
pub proof fn the_guide_and_the_names_come_last(d: Seq<NodeView>, dir: Seq<char>, g: int, k: int)
    requires
        none_with(package_manifest(d), "cover-image"@),
        forall|j: int| 0 <= j < d.len() ==> !#[trigger] is_element(d, j, "metadata"@),
    ensures
        ({
            let items = package_manifest(d);
            let cover = package(d, dir).metadata.cover_href;
            let named = |j: int|
                (starts_with(items[j].media_type, "image/"@) || starts_with(mime_of(items[j].href), "image/"@)) && (
                contains(lowercase(items[j].id), "cover"@) || contains(lowercase(items[j].href), "cover"@));
            &&& is_first(d, "guide"@, g) && given(d, g, |j: int| cover_referred(d, dir, j)).len() > 0 ==> cover
                == Some(given(d, g, |j: int| cover_referred(d, dir, j))[0])
            &&& (forall|j: int| 0 <= j < d.len() ==> !#[trigger] is_element(d, j, "guide"@)) && 0 <= k < items.len()
                && named(k) && (forall|j: int| 0 <= j < k ==> !#[trigger] named(j)) ==> cover == Some(
                resolved(dir, items[k].href),
            )
            &&& (forall|j: int| 0 <= j < d.len() ==> !#[trigger] is_element(d, j, "guide"@)) && (forall|j: int|
                0 <= j < items.len() ==> !#[trigger] named(j)) ==> cover is None
        }),
{
    let items = package_manifest(d);
    lemma_property(items, "cover-image"@, dir, 0, 0);
    lemma_none_named(d, "metadata"@, 0);
    if is_first(d, "guide"@, g) {
        lemma_first_named(d, "guide"@, g, 0);
        lemma_children(d, g);
        lemma_cover_referred(d, g, g + 1, subtree_end(d, g), dir);
    }
    if forall|j: int| 0 <= j < d.len() ==> !#[trigger] is_element(d, j, "guide"@) {
        lemma_none_named(d, "guide"@, 0);
    }
    let named = |j: int|
        (starts_with(items[j].media_type, "image/"@) || starts_with(mime_of(items[j].href), "image/"@)) && (contains(
            lowercase(items[j].id),
            "cover"@,
        ) || contains(lowercase(items[j].href), "cover"@));
    assert forall|j: int| 0 <= j < items.len() implies looks_like_cover(#[trigger] items[j]) == named(j) by {}
    if 0 <= k < items.len() && named(k) && (forall|j: int| 0 <= j < k ==> !#[trigger] named(j)) {
        assert forall|j: int| 0 <= j < k implies !looks_like_cover(#[trigger] items[j]) by {
            assert(!named(j));
        }
        lemma_likely(items, dir, k, 0);
    }
    if forall|j: int| 0 <= j < items.len() ==> !#[trigger] named(j) {
        assert forall|j: int| 0 <= j < items.len() implies !looks_like_cover(#[trigger] items[j]) by {
            assert(!named(j));
        }
        lemma_not_likely(items, dir, 0);
    }
}

proof fn lemma_likely(items: Seq<ManifestView>, dir: Seq<char>, k: int, from: int)
    requires
        0 <= from <= k < items.len(),
        looks_like_cover(items[k]),
        forall|j: int| 0 <= j < k ==> !looks_like_cover(#[trigger] items[j]),
    ensures
        path_of_likely_cover(items, dir, from) == Some(resolved(dir, items[k].href)),
    decreases k - from,
{
    if from < k {
        lemma_likely(items, dir, k, from + 1);
    }
}

proof fn lemma_not_likely(items: Seq<ManifestView>, dir: Seq<char>, from: int)
    requires
        0 <= from,
        forall|j: int| 0 <= j < items.len() ==> !looks_like_cover(#[trigger] items[j]),
    ensures
        path_of_likely_cover(items, dir, from) is None,
    decreases items.len() - from,
{
    if from < items.len() {
        lemma_not_likely(items, dir, from + 1);
    }
}

/// The item is an NCX document, by its media type or its address.
pub open spec fn is_ncx(item: ManifestView) -> bool {
    ascii_lowercase(item.media_type) == ascii_lowercase("application/x-dtbncx+xml"@) || ends_with(item.href, ".ncx"@)
}

/// The table of contents is the navigation document; where there is none, what the spine names;
/// and where it names nothing, the first NCX document.
pub proof fn contents_come_from_the_navigation_first(d: Seq<NodeView>, dir: Seq<char>, k: int, s: int)
    ensures
        ({
            let items = package_manifest(d);
            let toc = package(d, dir).metadata.toc_href;
            &&& is_first_with(items, "nav"@, k) ==> toc == Some(resolved(dir, items[k].href))
            &&& none_with(items, "nav"@) && is_first(d, "spine"@, s) && (attr(d[s], "toc"@) matches Some(id)
                && item_by_id(items, id) is Some) ==> toc == Some(
                resolved(dir, item_by_id(items, attr(d[s], "toc"@)->0)->0.href),
            )
            &&& none_with(items, "nav"@) && is_first(d, "spine"@, s) && attr(d[s], "toc"@) is None && 0 <= k
                < items.len() && is_ncx(items[k]) && (forall|j: int| 0 <= j < k ==> !is_ncx(#[trigger] items[j]))
                ==> toc == Some(resolved(dir, items[k].href))
        }),
{
    let items = package_manifest(d);
    lemma_property(items, "nav"@, dir, k, 0);
    if is_first(d, "spine"@, s) {
        lemma_first_named(d, "spine"@, s, 0);
    }
    if 0 <= k < items.len() && is_ncx(items[k]) && (forall|j: int| 0 <= j < k ==> !is_ncx(#[trigger] items[j])) {
        lemma_ncx(items, dir, k, 0);
    }
}

proof fn lemma_ncx(items: Seq<ManifestView>, dir: Seq<char>, k: int, from: int)
    requires
        0 <= from <= k < items.len(),
        is_ncx(items[k]),
        forall|j: int| 0 <= j < k ==> !is_ncx(#[trigger] items[j]),
    ensures
        path_of_ncx(items, dir, from) == Some(resolved(dir, items[k].href)),
    decreases k - from,
{
    if from < k {
        lemma_ncx(items, dir, k, from + 1);
    }
}

/// The container leads to its first root file that has a path.
pub proof fn containers_lead_to_the_first_root_file(d: Seq<NodeView>, k: int)
    requires
        0 <= k < d.len(),
        is_element(d, k, "rootfile"@) && attr(d[k], "full-path"@) is Some,
        forall|j: int| 0 <= j < k ==> !(#[trigger] is_element(d, j, "rootfile"@) && attr(d[j], "full-path"@) is Some),
    ensures
        first_rootfile(d, 0) == Some(k),
{
    lemma_rootfile(d, k, 0);
}

proof fn lemma_rootfile(d: Seq<NodeView>, k: int, from: int)
    requires
        0 <= from <= k < d.len(),
        is_element(d, k, "rootfile"@) && attr(d[k], "full-path"@) is Some,
        forall|j: int| 0 <= j < k ==> !(#[trigger] is_element(d, j, "rootfile"@) && attr(d[j], "full-path"@) is Some),
    ensures
        first_rootfile(d, from) == Some(k),
    decreases k - from,
{
    if from < k {
        assert(is_element(d, from, "rootfile"@) == is_named(d[from], "rootfile"@));
        lemma_rootfile(d, k, from + 1);
    }
}

// ---------------------------------------------------------------------------
// Entries of tables of contents
// ---------------------------------------------------------------------------

/// Node `k` is a list, whatever the case of its name.
pub open spec fn is_list(d: Seq<NodeView>, k: int) -> bool {
    is_named_ignoring_case(d[k], "ol"@) || is_named_ignoring_case(d[k], "ul"@)
}

/// Node `a` is the first link below node `k`.
pub open spec fn is_link_of(d: Seq<NodeView>, k: int, a: int) -> bool {
    &&& 0 <= a < d.len()
    &&& lies_below(d, k, a)
    &&& is_element(d, a, "a"@)
    &&& forall|j: int| k < j < a ==> !#[trigger] is_element(d, j, "a"@)
}

/// The entry is that of item `k` of a navigation list: it has the words and the address of the
/// first link in it, or its own words beside the lists in it, and below it the entries of those
/// lists.
pub open spec fn is_entry_of(d: Seq<NodeView>, dir: Seq<char>, k: int, entry: TocView) -> bool {
    &&& forall|a: int| #[trigger]
        is_link_of(d, k, a) ==> entry.title == cell_text(d, a) && entry.href == (match attr(d[a], "href"@) {
            Some(h) => resolved(dir, h),
            None => Seq::empty(),
        })
    &&& (forall|a: int| !#[trigger] is_link_of(d, k, a)) ==> entry.href.len() == 0 && entry.title == join(
        words(join(beside_lists(d, k), " "@)),
        " "@,
    )
    &&& entry.children == in_lists(d, dir, k)
}

/// The texts of the children of node `k` that are no lists.
pub open spec fn beside_lists(d: Seq<NodeView>, k: int) -> Seq<Seq<char>> {
    given(
        d,
        k,
        |j: int|
            if is_list(d, j) {
                None
            } else {
                Some(texts_in(d, j, subtree_end(d, j)))
            },
    ).flatten()
}

/// The entries of the lists directly in node `k`, one list after the other.
pub open spec fn in_lists(d: Seq<NodeView>, dir: Seq<char>, k: int) -> Seq<TocView> {
    given(
        d,
        k,
        |j: int|
            if is_list(d, j) {
                Some(nav_entries(d, j + 1, subtree_end(d, j), dir))
            } else {
                None
            },
    ).flatten()
}

proof fn lemma_link(d: Seq<NodeView>, k: int)
    requires
        0 <= k < d.len(),
    ensures
        match named_in(d, "a"@, k + 1, subtree_end(d, k)) {
            Some(a) => is_link_of(d, k, a) && forall|b: int| #[trigger] is_link_of(d, k, b) ==> b == a,
            None => forall|a: int| !#[trigger] is_link_of(d, k, a),
        },
{
    lemma_children(d, k);
    let e = subtree_end(d, k);
    lemma_named_in(d, "a"@, k + 1, e);
    match named_in(d, "a"@, k + 1, e) {
        Some(a) => {
            subtrees_hold_what_lies_below(d, k, a);
            assert forall|b: int| #[trigger] is_link_of(d, k, b) implies b == a by {
                assert(is_element(d, a, "a"@) && is_element(d, b, "a"@));
            }
        },
        None => {
            assert forall|a: int| !#[trigger] is_link_of(d, k, a) by {
                if is_link_of(d, k, a) {
                    subtrees_hold_what_lies_below(d, k, a);
                    assert(is_element(d, a, "a"@));
                }
            }
        },
    }
}

proof fn lemma_named_in(d: Seq<NodeView>, tag: Seq<char>, lo: int, hi: int)
    requires
        0 <= lo <= hi <= d.len(),
    ensures
        match named_in(d, tag, lo, hi) {
            Some(a) => lo <= a < hi && is_element(d, a, tag) && forall|j: int|
                lo <= j < a ==> !#[trigger] is_element(d, j, tag),
            None => forall|j: int| lo <= j < hi ==> !#[trigger] is_element(d, j, tag),
        },
    decreases hi - lo,
{
    if lo < hi {
        lemma_named_in(d, tag, lo + 1, hi);
    }
}

proof fn lemma_beside_lists(d: Seq<NodeView>, m: int, lo: int, hi: int)
    requires
        0 <= m < d.len(),
        are_children(d, m, lo, hi),
    ensures
        texts_beside_lists(d, lo, hi) == given_in(
            d,
            m,
            lo,
            hi,
            |j: int|
                if is_list(d, j) {
                    None
                } else {
                    Some(texts_in(d, j, subtree_end(d, j)))
                },
        ).flatten(),
    decreases hi - lo,
{
    let f = |j: int|
        if is_list(d, j) {
            None
        } else {
            Some(texts_in(d, j, subtree_end(d, j)))
        };
    lemma_given(d, m, lo, hi, f);
    if lo < hi {
        let e = node_end(d, lo, hi);
        lemma_beside_lists(d, m, e, hi);
        lemma_flatten(texts_in(d, lo, e), given_in(d, m, e, hi, f));
    } else {
        assert(Seq::<Seq<Seq<char>>>::empty().flatten() =~= Seq::<Seq<char>>::empty());
    }
}

proof fn lemma_flatten<T>(x: Seq<T>, rest: Seq<Seq<T>>)
    ensures
        (seq![x] + rest).flatten() == x + rest.flatten(),
{
    let all = seq![x] + rest;
    assert(all.first() == x);
    assert(all.drop_first() =~= rest);
}

proof fn lemma_in_lists(d: Seq<NodeView>, dir: Seq<char>, m: int, lo: int, hi: int)
    requires
        0 <= m < d.len(),
        are_children(d, m, lo, hi),
    ensures
        nav_sublists(d, lo, hi, dir) == given_in(
            d,
            m,
            lo,
            hi,
            |j: int|
                if is_list(d, j) {
                    Some(nav_entries(d, j + 1, subtree_end(d, j), dir))
                } else {
                    None
                },
        ).flatten(),
    decreases hi - lo,
{
    let f = |j: int|
        if is_list(d, j) {
            Some(nav_entries(d, j + 1, subtree_end(d, j), dir))
        } else {
            None
        };
    lemma_given(d, m, lo, hi, f);
    if lo < hi {
        let e = node_end(d, lo, hi);
        lemma_in_lists(d, dir, m, e, hi);
        lemma_flatten(nav_entries(d, lo + 1, e, dir), given_in(d, m, e, hi, f));
    } else {
        assert(Seq::<Seq<TocView>>::empty().flatten() =~= Seq::<TocView>::empty());
    }
}

/// The entry that item `k` of a navigation list gives, if it says something or leads somewhere.
pub open spec fn nav_entry(d: Seq<NodeView>, dir: Seq<char>, k: int) -> Option<TocView> {
    if is_named_ignoring_case(d[k], "li"@) {
        let entry = choose|entry: TocView| is_entry_of(d, dir, k, entry);
        if entry.title.len() > 0 || entry.href.len() > 0 {
            Some(entry)
        } else {
            None
        }
    } else {
        None
    }
}

/// A navigation list gives one entry for each item directly in it that says something or leads
/// somewhere, in order, with the entries of the lists directly in that item below it.
pub proof fn navigation_lists_give_their_items(d: Seq<NodeView>, dir: Seq<char>, l: int)
    requires
        0 <= l < d.len(),
    ensures
        nav_entries(d, l + 1, subtree_end(d, l), dir) == given(d, l, |k: int| nav_entry(d, dir, k)),
{
    lemma_children(d, l);
    lemma_nav(d, dir, l, l + 1, subtree_end(d, l));
}

/// An item of a navigation list gives exactly one entry.
pub proof fn navigation_items_give_one_entry(d: Seq<NodeView>, dir: Seq<char>, k: int, a: TocView, b: TocView)
    requires
        is_entry_of(d, dir, k, a),
        is_entry_of(d, dir, k, b),
    ensures
        a == b,
{
    if exists|x: int| #[trigger] is_link_of(d, k, x) {
        let x = choose|x: int| #[trigger] is_link_of(d, k, x);
        assert(a.title == b.title && a.href == b.href);
    } else {
        assert(a.href =~= b.href);
    }
}

proof fn lemma_nav(d: Seq<NodeView>, dir: Seq<char>, m: int, lo: int, hi: int)
    requires
        0 <= m < d.len(),
        are_children(d, m, lo, hi),
    ensures
        nav_entries(d, lo, hi, dir) == given_in(d, m, lo, hi, |k: int| nav_entry(d, dir, k)),
    decreases hi - lo,
{
    let f = |k: int| nav_entry(d, dir, k);
    lemma_given(d, m, lo, hi, f);
    if lo < hi {
        let e = node_end(d, lo, hi);
        lemma_nav(d, dir, m, e, hi);
        if is_named_ignoring_case(d[lo], "li"@) {
            lemma_link(d, lo);
            lemma_children(d, lo);
            lemma_beside_lists(d, lo, lo + 1, e);
            lemma_in_lists(d, dir, lo, lo + 1, e);
            let link = named_in(d, "a"@, lo + 1, e);
            let entry = TocView {
                title: match link {
                    Some(a) => cell_text(d, a),
                    None => own_text_of(d, lo + 1, e),
                },
                href: match link {
                    Some(a) => match attr(d[a], "href"@) {
                        Some(h) => resolved(dir, h),
                        None => Seq::empty(),
                    },
                    None => Seq::empty(),
                },
                children: nav_sublists(d, lo + 1, e, dir),
            };
            assert(is_entry_of(d, dir, lo, entry));
            let picked = choose|entry: TocView| is_entry_of(d, dir, lo, entry);
            navigation_items_give_one_entry(d, dir, lo, entry, picked);
        }
    }
}

/// The table of contents of a navigation document is that of the first list in the `nav` of the
/// type `toc`; without one of that type, of that id; and without either, in any `nav`. First means
/// made first.
pub proof fn navigation_documents_give_the_first_list(d: Seq<NodeView>, dir: Seq<char>, n: int, l: int)
    requires
        toc_nav(d) == Some(n),
        n < l < subtree_end(d, n),
        is_element(d, l, "ol"@) || is_element(d, l, "ul"@),
        forall|j: int| n < j < l ==> !(#[trigger] is_element(d, j, "ol"@)) && !(is_element(d, j, "ul"@)),
    ensures
        0 <= n < d.len(),
        is_element(d, n, "nav"@),
        nav_toc(d, dir) == given(d, l, |k: int| nav_entry(d, dir, k)),
        (exists|k: int| 0 <= k < d.len() && parent(d, k) is Some && #[trigger] is_element(d, k, "nav"@) && attr(
            d[k],
            "epub:type"@,
        ) == Some("toc"@)) ==> attr(d[n], "epub:type"@) == Some("toc"@),
        !(exists|k: int| 0 <= k < d.len() && parent(d, k) is Some && #[trigger] is_element(d, k, "nav"@) && attr(
            d[k],
            "epub:type"@,
        ) == Some("toc"@)) && (exists|k: int|
            0 <= k < d.len() && parent(d, k) is Some && #[trigger] is_element(d, k, "nav"@) && attr(d[k], "id"@)
                == Some("toc"@)) ==> attr(d[n], "id"@) == Some("toc"@),
{
    let by_type = |k: int| is_nav(d, Some("epub:type"@), k);
    let by_id = |k: int| is_nav(d, Some("id"@), k);
    let any = |k: int| is_nav(d, None, k);
    the_earliest_is_found(d, by_type, d.len() as int);
    the_earliest_is_found(d, by_id, d.len() as int);
    the_earliest_is_found(d, any, d.len() as int);
    assert(is_element(d, n, "nav"@));
    lemma_children(d, n);
    assert forall|j: int| n + 1 <= j < l implies !(#[trigger] is_element(d, j, "ol"@)) && !(is_element(
        d,
        j,
        "ul"@,
    )) by {
        assert(n < j < l);
    }
    lemma_first_list(d, n + 1, l, subtree_end(d, n));
    navigation_lists_give_their_items(d, dir, l);
    if exists|k: int| 0 <= k < d.len() && parent(d, k) is Some && #[trigger] is_element(d, k, "nav"@) && attr(
        d[k],
        "epub:type"@,
    ) == Some("toc"@) {
        let k = choose|k: int| 0 <= k < d.len() && parent(d, k) is Some && #[trigger] is_element(d, k, "nav"@) && attr(
            d[k],
            "epub:type"@,
        ) == Some("toc"@);
        assert(by_type(k));
    } else {
        assert forall|k: int| 0 <= k < d.len() implies !#[trigger] by_type(k) by {
            assert(is_element(d, k, "nav"@) == is_named(d[k], "nav"@));
        }
        if first_nav(d, Some("epub:type"@)) is Some {
            assert(by_type(n));
        }
        if exists|k: int| 0 <= k < d.len() && parent(d, k) is Some && #[trigger] is_element(d, k, "nav"@) && attr(
            d[k],
            "id"@,
        ) == Some("toc"@) {
            let k = choose|k: int|
                0 <= k < d.len() && parent(d, k) is Some && #[trigger] is_element(d, k, "nav"@) && attr(d[k], "id"@)
                    == Some("toc"@);
            assert(by_id(k));
        }
    }
}

proof fn lemma_first_list(d: Seq<NodeView>, from: int, l: int, hi: int)
    requires
        from <= l < hi,
        is_element(d, l, "ol"@) || is_element(d, l, "ul"@),
        forall|j: int| from <= j < l ==> !(#[trigger] is_element(d, j, "ol"@)) && !(is_element(d, j, "ul"@)),
    ensures
        first_list(d, from, hi) == Some(l),
    decreases l - from,
{
    if from < l {
        assert(!is_element(d, from, "ol"@));
        lemma_first_list(d, from + 1, l, hi);
    }
}

/// The address of node `k` of a navigation point, if it is its `content`.
pub open spec fn child_of_name(d: Seq<NodeView>, tag: Seq<char>, k: int) -> Option<int> {
    if is_element(d, k, tag) {
        Some(k)
    } else {
        None
    }
}

proof fn lemma_child_named(d: Seq<NodeView>, tag: Seq<char>, m: int, lo: int, hi: int)
    requires
        0 <= m < d.len(),
        are_children(d, m, lo, hi),
    ensures
        ({
            let found = given_in(d, m, lo, hi, |k: int| child_of_name(d, tag, k));
            child_named(d, tag, lo, hi) == (if found.len() > 0 {
                Some(found[0])
            } else {
                None
            })
        }),
        child_named(d, tag, lo, hi) matches Some(c) ==> lo <= c < hi && parent(d, c) == Some(m) && node_end(d, c, hi)
            == subtree_end(d, c),
    decreases hi - lo,
{
    lemma_given(d, m, lo, hi, |k: int| child_of_name(d, tag, k));
    if lo < hi {
        lemma_child_named(d, tag, m, node_end(d, lo, hi), hi);
    }
}

/// The elements of this name directly in node `k`.
pub open spec fn named_children(d: Seq<NodeView>, tag: Seq<char>, k: int) -> Seq<int> {
    given(d, k, |j: int| child_of_name(d, tag, j))
}

/// The title of navigation point `k`: the text of the first `text` in its first `navLabel`.
pub open spec fn point_title(d: Seq<NodeView>, k: int) -> Seq<char> {
    let labels = named_children(d, "navLabel"@, k);
    let texts = named_children(d, "text"@, labels[0]);
    if labels.len() > 0 && texts.len() > 0 {
        or_else(leading_text(d, texts[0], subtree_end(d, texts[0])), Seq::empty())
    } else {
        Seq::empty()
    }
}

/// Where navigation point `k` leads: to the address of its first `content`.
pub open spec fn point_href(d: Seq<NodeView>, dir: Seq<char>, k: int) -> Seq<char> {
    let contents = named_children(d, "content"@, k);
    if contents.len() > 0 && attr(d[contents[0]], "src"@) is Some {
        resolved(dir, attr(d[contents[0]], "src"@)->0)
    } else {
        Seq::empty()
    }
}

/// The entry that node `k` gives, if it is a navigation point that says something or leads
/// somewhere: below it stand the entries of the points directly in it.
pub open spec fn point_entry(d: Seq<NodeView>, dir: Seq<char>, k: int) -> Option<TocView> {
    if is_element(d, k, "navPoint"@) && (point_title(d, k).len() > 0 || point_href(d, dir, k).len() > 0) {
        Some(
            TocView {
                title: point_title(d, k),
                href: point_href(d, dir, k),
                children: ncx_entries(d, k + 1, subtree_end(d, k), dir),
            },
        )
    } else {
        None
    }
}

/// A navigation point, or a navigation map, gives one entry for each of the points directly in it
/// that says something or leads somewhere, in order.
pub proof fn navigation_points_give_their_points(d: Seq<NodeView>, dir: Seq<char>, m: int)
    requires
        0 <= m < d.len(),
    ensures
        ncx_entries(d, m + 1, subtree_end(d, m), dir) == given(d, m, |k: int| point_entry(d, dir, k)),
        is_first(d, "navMap"@, m) ==> ncx_toc(d, dir) == given(d, m, |k: int| point_entry(d, dir, k)),
{
    lemma_children(d, m);
    lemma_points(d, dir, m, m + 1, subtree_end(d, m));
    if is_first(d, "navMap"@, m) {
        lemma_first_named(d, "navMap"@, m, 0);
    }
}

proof fn lemma_points(d: Seq<NodeView>, dir: Seq<char>, m: int, lo: int, hi: int)
    requires
        0 <= m < d.len(),
        are_children(d, m, lo, hi),
    ensures
        ncx_entries(d, lo, hi, dir) == given_in(d, m, lo, hi, |k: int| point_entry(d, dir, k)),
    decreases hi - lo,
{
    lemma_given(d, m, lo, hi, |k: int| point_entry(d, dir, k));
    if lo < hi {
        let e = node_end(d, lo, hi);
        lemma_points(d, dir, m, e, hi);
        lemma_children(d, lo);
        lemma_child_named(d, "content"@, lo, lo + 1, e);
        lemma_child_named(d, "navLabel"@, lo, lo + 1, e);
        match child_named(d, "navLabel"@, lo + 1, e) {
            Some(l) => {
                lemma_children(d, l);
                lemma_child_named(d, "text"@, l, l + 1, subtree_end(d, l));
            },
            None => {},
        }
    }
}

/// Every NCX document among the items is found, by its address or its media type, in order.
pub proof fn all_ncx_documents_are_found(items: Seq<ManifestView>, dir: Seq<char>)
    ensures
        ncx_paths_of(items, dir) == items.filter(
            |i: ManifestView|
                ends_with(resolved(dir, i.href), ".ncx"@) || i.media_type == "application/x-dtbncx+xml"@,
        ).map_values(|i: ManifestView| resolved(dir, i.href)),
    decreases items.len(),
{
    reveal_with_fuel(Seq::filter, 1);
    let p = |i: ManifestView| ends_with(resolved(dir, i.href), ".ncx"@) || i.media_type == "application/x-dtbncx+xml"@;
    let f = |i: ManifestView| resolved(dir, i.href);
    if items.len() > 0 {
        all_ncx_documents_are_found(items.drop_last(), dir);
        let before = items.drop_last().filter(p);
        assert(before.push(items.last()).map_values(f) =~= before.map_values(f).push(f(items.last())));
    }
    assert(items.len() == 0 ==> items.filter(p).map_values(f) =~= Seq::<Seq<char>>::empty());
}

} // verus!
