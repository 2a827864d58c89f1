//! A book holds what its archive holds.

use vstd::prelude::*;

use super::extraction::{
    lemma_blank_letters, lemma_letters_add, lemma_letters_empty, lemma_letters_push,
    lemma_trim_letters, letters, text_in_a_range_is_that_of_its_nodes, the_earliest_is_found,
};
use super::lines::{in_a_row, lemma_in_a_row};
use super::rows::{chapters_add_their_elements, is_row_of, pictures_before};
use crate::archive::{
    archive_toc, entry_bytes, entry_text, first_toc, opened, read_message, zip_entry, zip_names,
};
use crate::book::{
    asset_place, book_of, bytes_held, chapter_compiled, cover_stored, images_stored,
    package_compiled, skipped_chapters, spine_compiled, stored, CompiledView,
};
use crate::compiler::{
    book_toc, elements_added, image_paths, sanitized, type_count, BookView, RowView,
};
use crate::dom::{
    chapter, extracted, footnote, is_known, is_note_target, lines_after, literal_text,
    metadata_lines, node_of_rank, plain_metadata, root_from, tag_of, without_page_markers,
    ElementView, LinesView,
};
use crate::epub::{
    document_toc, entry_for, first_rootfile, mime_of, nav_toc, ncx_paths_of, ncx_text_toc, ncx_toc,
    normalized, package, parent_dir, EpubFailure, PackageView, ReadFailure, TocView,
};
use crate::html::document_nodes;
use crate::schema::AssetView;
use crate::text::{contains, ends_with, is_space, join, lemma_trim_start, trim_start, trimmed};
use crate::tree::{attr, node_end, subtree_end, text_in, NodeView, ValueView};
use crate::xml::xml_nodes;
use vstd::utf8::{decode_utf8, valid_utf8};

verus! {

// ---------------------------------------------------------------------------
// Archives
// ---------------------------------------------------------------------------

/// An entry is read as the bytes of the entry that its path names, and as text if they are UTF-8.
pub proof fn entries_are_read_by_their_paths(
    data: Seq<u8>,
    names: Seq<Option<Seq<char>>>,
    path: Seq<char>,
    bytes: Seq<u8>,
)
    requires
        zip_names(data) == Ok::<Seq<Option<Seq<char>>>, Seq<char>>(names),
    ensures
        entry_for(names, path) is None ==> entry_bytes(data, path) == Err::<Seq<u8>, ReadFailure>(ReadFailure::NotFound)
            && entry_text(data, path) == Err::<Seq<char>, ReadFailure>(ReadFailure::NotFound),
        entry_for(names, path) matches Some(i) && zip_entry(data, i) == Ok::<Seq<u8>, Seq<char>>(bytes) ==> {
            &&& entry_bytes(data, path) == Ok::<Seq<u8>, ReadFailure>(bytes)
            &&& valid_utf8(bytes) ==> entry_text(data, path) == Ok::<Seq<char>, ReadFailure>(decode_utf8(bytes))
            &&& !valid_utf8(bytes) ==> entry_text(data, path) matches Err(ReadFailure::NotText(_))
        },
{
}

/// An archive is opened by its container, which names the package document; what cannot be read or
/// parsed on the way is told.
pub proof fn archives_are_opened_by_their_container(
    data: Seq<u8>,
    names: Seq<Option<Seq<char>>>,
    container: Seq<char>,
    c: Seq<NodeView>,
    k: int,
    package_text: Seq<char>,
    d: Seq<NodeView>,
)
    requires
        zip_names(data) == Ok::<Seq<Option<Seq<char>>>, Seq<char>>(names),
        entry_text(data, "META-INF/container.xml"@) == Ok::<Seq<char>, ReadFailure>(container),
        xml_nodes(container) == Ok::<Seq<NodeView>, Seq<char>>(c),
    ensures
        first_rootfile(c, 0) is None ==> opened(data) == Err::<(Seq<char>, PackageView), EpubFailure>(
            EpubFailure::NoRootfile,
        ),
        first_rootfile(c, 0) == Some(k) ==> {
            let path = normalized(attr(c[k], "full-path"@)->0);
            &&& entry_text(data, path) matches Err(e) ==> opened(data) == Err::<(Seq<char>, PackageView), EpubFailure>(
                EpubFailure::PackageDocument(path, e),
            )
            &&& entry_text(data, path) == Ok::<Seq<char>, ReadFailure>(package_text) && xml_nodes(package_text)
                == Ok::<Seq<NodeView>, Seq<char>>(d) ==> opened(data) == Ok::<(Seq<char>, PackageView), EpubFailure>(
                (path, package(d, parent_dir(path))),
            )
        },
{
}

/// A book is called what its package is called, has its table of contents, and counts the chapters
/// of its spine.
pub proof fn books_follow_their_packages(data: Seq<u8>, opf_path: Seq<char>, p: PackageView, version: Seq<char>)
    ensures
        ({
            let book = package_compiled(data, opf_path, p, version);
            &&& book.title == sanitized(p.metadata.title)
            &&& book.author == sanitized(p.metadata.author)
            &&& book.chapter_count == p.spine_paths.len()
            &&& book.toc == book_toc(archive_toc(data, opf_path, p), book.rows)
            &&& book.rows == spine_compiled(
                data,
                cover_stored(data, p.metadata.cover_href).0,
                p.spine_paths,
                p.spine_paths.len() as int,
            ).0
        }),
        opened(data) == Ok::<(Seq<char>, PackageView), EpubFailure>((opf_path, p)) ==> book_of(data, version) == Ok::<
            CompiledView,
            EpubFailure,
        >(package_compiled(data, opf_path, p, version)),
{
}

// ---------------------------------------------------------------------------
// Chapters
// ---------------------------------------------------------------------------

/// What chapter `k` of a spine holds, and where its rows begin.
pub open spec fn chapter_elements(data: Seq<u8>, path: Seq<char>) -> Seq<ElementView> {
    match entry_text(data, path) {
        Ok(text) => chapter(document_nodes(without_page_markers(text, 0)), path),
        Err(_) => Seq::empty(),
    }
}

/// Every element but a picture of every chapter that can be read has its row in the book, the
/// elements of a chapter behind those of the chapters before it.
pub proof fn every_chapter_is_in_the_book(
    data: Seq<u8>,
    assets: Seq<AssetView>,
    spine: Seq<Seq<char>>,
    k: int,
    j: int,
    n: int,
)
    requires
        0 <= k < n <= spine.len(),
        0 <= j < chapter_elements(data, spine[k]).len(),
        !(chapter_elements(data, spine[k])[j] is Image),
    ensures
        exists|at: int|
            spine_compiled(data, assets, spine, k).0.nodes.len() <= at < spine_compiled(
                data,
                assets,
                spine,
                k + 1,
            ).0.nodes.len() && at < spine_compiled(data, assets, spine, n).0.nodes.len() && is_row_of(
                #[trigger] spine_compiled(data, assets, spine, n).0.nodes[at],
                at,
                chapter_elements(data, spine[k])[j],
                None,
            ),
    decreases n,
{
    let (b, before) = spine_compiled(data, assets, spine, n - 1);
    let after = spine_compiled(data, assets, spine, n).0;
    if k < n - 1 {
        every_chapter_is_in_the_book(data, assets, spine, k, j, n - 1);
        let at = choose|at: int|
            spine_compiled(data, assets, spine, k).0.nodes.len() <= at < spine_compiled(
                data,
                assets,
                spine,
                k + 1,
            ).0.nodes.len() && at < b.nodes.len() && is_row_of(
                #[trigger] b.nodes[at],
                at,
                chapter_elements(data, spine[k])[j],
                None,
            );
        lemma_chapter_keeps(data, b, before, spine[n - 1]);
        assert(after.nodes.take(b.nodes.len() as int)[at] == b.nodes[at]);
        assert(after.nodes[at] == b.nodes[at]);
    } else {
        match entry_text(data, spine[k]) {
            Ok(text) => {
                let path = spine[k];
                let source = without_page_markers(text, 0);
                let elements = chapter(document_nodes(source), path);
                let paths = image_paths(path, elements, elements.len() as int);
                let (now, ids) = images_stored(data, before, paths, paths.len() as int);
                let m = elements.len() as int;
                chapters_add_their_elements(b, path, source, elements, ids, j, m);
                let at = elements_added(b, path, source, elements, ids, j).nodes.len() as int;
                let e = elements[j];
                assert(is_row_of(after.nodes[at], at, e, ids[pictures_before(elements, j)]));
                assert(is_row_of(after.nodes[at], at, e, None));
            },
            Err(_) => {},
        }
    }
}

proof fn lemma_chapter_keeps(data: Seq<u8>, b: BookView, assets: Seq<AssetView>, path: Seq<char>)
    ensures
        chapter_compiled(data, b, assets, path).0.nodes.len() >= b.nodes.len(),
        chapter_compiled(data, b, assets, path).0.nodes.take(b.nodes.len() as int) == b.nodes,
{
    match entry_text(data, path) {
        Ok(text) => {
            let source = without_page_markers(text, 0);
            let elements = chapter(document_nodes(source), path);
            let paths = image_paths(path, elements, elements.len() as int);
            let (now, ids) = images_stored(data, assets, paths, paths.len() as int);
            let m = elements.len() as int;
            if m > 0 {
                chapters_add_their_elements(b, path, source, elements, ids, 0, m);
            } else {
                assert(b.nodes.take(b.nodes.len() as int) =~= b.nodes);
            }
        },
        Err(_) => {
            assert(b.nodes.take(b.nodes.len() as int) =~= b.nodes);
        },
    }
}

/// The chapters that cannot be read are all told of, in order, each with the reason.
pub proof fn unreadable_chapters_are_told_of(data: Seq<u8>, spine: Seq<Seq<char>>, k: int, n: int)
    requires
        0 <= k < n <= spine.len(),
    ensures
        ({
            let at = skipped_chapters(data, spine, k).len() as int;
            let all = skipped_chapters(data, spine, n);
            &&& entry_text(data, spine[k]) matches Err(e) ==> at < all.len() && all[at] == (
                spine[k],
                read_message(e, spine[k]),
            ) && skipped_chapters(data, spine, k + 1).len() == at + 1
            &&& entry_text(data, spine[k]) is Ok ==> skipped_chapters(data, spine, k + 1).len() == at
            &&& skipped_chapters(data, spine, k + 1).len() <= all.len()
            &&& skipped_chapters(data, spine, 0).len() == 0
        }),
    decreases n,
{
    if k < n - 1 {
        unreadable_chapters_are_told_of(data, spine, k, n - 1);
    }
}

// ---------------------------------------------------------------------------
// Assets
// ---------------------------------------------------------------------------

proof fn lemma_place(assets: Seq<AssetView>, hash: Seq<char>, from: int)
    requires
        0 <= from,
    ensures
        match asset_place(assets, hash, from) {
            Some(i) => from <= i < assets.len() && assets[i].hash == hash,
            None => forall|i: int| from <= i < assets.len() ==> (#[trigger] assets[i]).hash != hash,
        },
    decreases assets.len() - from,
{
    if from < assets.len() {
        lemma_place(assets, hash, from + 1);
    }
}

/// Asset `i` is what these bytes are stored as.
pub open spec fn is_stored_as(assets: Seq<AssetView>, i: int, id: i64, bytes: Seq<u8>) -> bool {
    &&& 0 <= i < assets.len()
    &&& assets[i].id == id
    &&& assets[i].hash == crate::compiler::sha256_digest(bytes)
}

/// Bytes that are new become an asset of their own, whole and with the type of their path.
pub proof fn new_bytes_become_assets(assets: Seq<AssetView>, path: Seq<char>, bytes: Seq<u8>)
    ensures
        ({
            let (now, id) = stored(assets, path, bytes);
            &&& exists|i: int| is_stored_as(now, i, id, bytes)
            &&& (forall|i: int| 0 <= i < assets.len() ==> (#[trigger] assets[i]).hash != crate::compiler::sha256_digest(
                bytes,
            )) ==> now.len() == assets.len() + 1 && now.last().data == bytes && now.last().mime_type == mime_of(path)
                && now.last().id == id
            &&& assets.len() <= now.len() && now.take(assets.len() as int) == assets
        }),
{
    let hash = crate::compiler::sha256_digest(bytes);
    lemma_place(assets, hash, 0);
    let (now, id) = stored(assets, path, bytes);
    match asset_place(assets, hash, 0) {
        Some(i) => {
            assert(is_stored_as(now, i, id, bytes));
        },
        None => {
            assert(is_stored_as(now, assets.len() as int, id, bytes));
        },
    }
    assert(now.take(assets.len() as int) =~= assets);
}

/// Every picture of a chapter that can be read gets the id of the asset with its bytes, and one
/// that cannot gets none.
pub proof fn pictures_get_the_ids_of_their_bytes(
    data: Seq<u8>,
    assets: Seq<AssetView>,
    paths: Seq<Seq<char>>,
    k: int,
    n: int,
)
    requires
        0 <= k < n <= paths.len(),
    ensures
        ({
            let (now, ids) = images_stored(data, assets, paths, n);
            &&& ids.len() == n
            &&& assets.len() <= now.len() && now.take(assets.len() as int) == assets
            &&& entry_bytes(data, paths[k]) matches Ok(bytes) ==> ids[k] is Some && exists|i: int|
                is_stored_as(now, i, ids[k]->0, bytes)
            &&& entry_bytes(data, paths[k]) is Err ==> ids[k] is None
        }),
    decreases n,
{
    let (before, prior) = images_stored(data, assets, paths, n - 1);
    let (now, ids) = images_stored(data, assets, paths, n);
    if n > 1 {
        pictures_get_the_ids_of_their_bytes(data, assets, paths, if k < n - 1 { k } else { n - 2 }, n - 1);
    } else {
        assert(images_stored(data, assets, paths, 0) == (assets, Seq::<Option<i64>>::empty()));
        assert(assets.take(assets.len() as int) =~= assets);
    }
    match entry_bytes(data, paths[n - 1]) {
        Ok(bytes) => {
            new_bytes_become_assets(before, paths[n - 1], bytes);
            let id = stored(before, paths[n - 1], bytes).1;
            assert(now == stored(before, paths[n - 1], bytes).0);
            assert(ids == prior.push(Some(id)));
            assert(prior.len() == n - 1);
            let i = choose|i: int| is_stored_as(now, i, id, bytes);
            assert(is_stored_as(now, i, ids[n - 1]->0, bytes));
        },
        Err(_) => {
            assert(before.take(before.len() as int) =~= before);
        },
    }
    assert(now.take(assets.len() as int) =~= before.take(assets.len() as int)) by {
        assert forall|i: int| 0 <= i < before.len() implies #[trigger] now[i] == before[i] by {
            assert(now.take(before.len() as int)[i] == before[i]);
        }
    }
    if k < n - 1 {
        match entry_bytes(data, paths[k]) {
            Ok(bytes) => {
                let i = choose|i: int| is_stored_as(before, i, prior[k]->0, bytes);
                assert(now.take(before.len() as int)[i] == before[i]);
                assert(is_stored_as(now, i, ids[k]->0, bytes));
            },
            Err(_) => {},
        }
    }
}

/// The cover of a package, if it can be read, is stored, and the metadata name its asset behind
/// all else; a book without one has no such row.
pub proof fn covers_are_named_in_the_metadata(data: Seq<u8>, opf_path: Seq<char>, p: PackageView, version: Seq<char>)
    ensures
        ({
            let book = package_compiled(data, opf_path, p, version);
            let rows = crate::compiler::metadata_table(p.metadata, version, crate::compiler::sha256_digest(data));
            let readable = p.metadata.cover_href matches Some(path) && entry_bytes(data, path) is Ok;
            &&& readable ==> book.metadata == rows.push(("cover_asset_id"@, seq!['1']))
            &&& !readable ==> book.metadata == rows
            &&& readable ==> cover_stored(data, p.metadata.cover_href).0.len() == 1 && cover_stored(
                data,
                p.metadata.cover_href,
            ).0[0].data == entry_bytes(data, p.metadata.cover_href->0)->Ok_0
            &&& !readable ==> cover_stored(data, p.metadata.cover_href).0.len() == 0
        }),
{
    let rows = crate::compiler::metadata_table(p.metadata, version, crate::compiler::sha256_digest(data));
    let readable = p.metadata.cover_href matches Some(path) && entry_bytes(data, path) is Ok;
    if readable {
        let path = p.metadata.cover_href->0;
        let bytes = entry_bytes(data, path)->Ok_0;
        lemma_place(Seq::empty(), crate::compiler::sha256_digest(bytes), 0);
        let (assets, id) = stored(Seq::empty(), path, bytes);
        assert(id == 1);
        assert(crate::text::signed_decimal(1) == seq![crate::text::digit(1)]);
        assert(crate::text::digit(1) == '1');
        assert(rows + seq![("cover_asset_id"@, seq!['1'])] =~= rows.push(("cover_asset_id"@, seq!['1'])));
    } else {
        assert(rows + Seq::<(Seq<char>, Seq<char>)>::empty() =~= rows);
    }
}

/// The bytes that assets hold are those of each of them together.
pub proof fn bytes_are_counted_for_every_asset(assets: Seq<AssetView>, n: int)
    requires
        0 <= n <= assets.len(),
    ensures
        bytes_held(assets, n) == Seq::new(n as nat, |k: int| assets[k].data.len() as int).fold_left(
            0int,
            |a: int, b: int| a + b,
        ),
    decreases n,
{
    let all = Seq::new(n as nat, |k: int| assets[k].data.len() as int);
    if n > 0 {
        bytes_are_counted_for_every_asset(assets, n - 1);
        assert(all.drop_last() =~= Seq::new((n - 1) as nat, |k: int| assets[k].data.len() as int));
    }
    reveal_with_fuel(Seq::fold_left, 2);
}

/// The nodes of a type are counted, all of them and no others.
pub proof fn nodes_are_counted_by_type(nodes: Seq<RowView>, kind: Seq<char>, n: int)
    requires
        0 <= n <= nodes.len(),
    ensures
        type_count(nodes, kind, n) == nodes.take(n).filter(|r: RowView| r.node_type == kind).len(),
    decreases n,
{
    reveal(Seq::filter);
    if n > 0 {
        nodes_are_counted_by_type(nodes, kind, n - 1);
        assert(nodes.take(n).drop_last() =~= nodes.take(n - 1));
    }
}

// ---------------------------------------------------------------------------
// Tables of contents
// ---------------------------------------------------------------------------

/// A document that looks like an NCX document, by its path or by what is in it, is read as one if
/// that gives entries; every other is read as a navigation document.
pub proof fn documents_are_read_as_what_they_look_like(path: Seq<char>, content: Seq<char>)
    ensures
        ({
            let looks = ends_with(path, ".ncx"@) || contains(content, "<ncx"@);
            let points = ncx_text_toc(content, parent_dir(path));
            let lists = nav_toc(document_nodes(content), parent_dir(path));
            &&& looks && points.len() > 0 ==> document_toc(path, content) == points
            &&& !looks || points.len() == 0 ==> document_toc(path, content) == lists
        }),
        xml_nodes(content) is Err ==> ncx_text_toc(content, path).len() == 0,
        xml_nodes(content) matches Ok(d) ==> ncx_text_toc(content, path) == ncx_toc(d, path),
{
}

/// What the NCX document at this path gives.
pub open spec fn ncx_at(data: Seq<u8>, path: Seq<char>) -> Seq<TocView> {
    match entry_text(data, path) {
        Ok(text) => ncx_text_toc(text, parent_dir(path)),
        Err(_) => Seq::empty(),
    }
}

/// The table of contents that the package names is taken if it has entries; otherwise that of the
/// first NCX document of the manifest that has any; and there is none if none has.
pub proof fn the_first_contents_with_entries_count(data: Seq<u8>, opf_path: Seq<char>, p: PackageView, k: int)
    ensures
        ({
            let named = match p.metadata.toc_href {
                Some(path) => match entry_text(data, path) {
                    Ok(text) => document_toc(path, text),
                    Err(_) => Seq::<TocView>::empty(),
                },
                None => Seq::<TocView>::empty(),
            };
            let paths = ncx_paths_of(p.manifest, parent_dir(opf_path));
            let toc = archive_toc(data, opf_path, p);
            &&& named.len() > 0 ==> toc == named
            &&& named.len() == 0 && 0 <= k < paths.len() && ncx_at(data, paths[k]).len() > 0 && (forall|j: int|
                0 <= j < k ==> ncx_at(data, #[trigger] paths[j]).len() == 0) ==> toc == ncx_at(data, paths[k])
            &&& named.len() == 0 && (forall|j: int| 0 <= j < paths.len() ==> ncx_at(data, #[trigger] paths[j]).len()
                == 0) ==> toc.len() == 0
        }),
{
    let paths = ncx_paths_of(p.manifest, parent_dir(opf_path));
    if 0 <= k < paths.len() && ncx_at(data, paths[k]).len() > 0 && (forall|j: int|
        0 <= j < k ==> ncx_at(data, #[trigger] paths[j]).len() == 0) {
        lemma_first_toc(data, paths, k, 0);
    }
    if forall|j: int| 0 <= j < paths.len() ==> ncx_at(data, #[trigger] paths[j]).len() == 0 {
        lemma_no_toc(data, paths, 0);
    }
}

proof fn lemma_first_toc(data: Seq<u8>, paths: Seq<Seq<char>>, k: int, from: int)
    requires
        0 <= from <= k < paths.len(),
        ncx_at(data, paths[k]).len() > 0,
        forall|j: int| 0 <= j < k ==> ncx_at(data, #[trigger] paths[j]).len() == 0,
    ensures
        first_toc(data, paths, from) == ncx_at(data, paths[k]),
    decreases k - from,
{
    if from < k {
        lemma_first_toc(data, paths, k, from + 1);
    }
}

proof fn lemma_no_toc(data: Seq<u8>, paths: Seq<Seq<char>>, from: int)
    requires
        0 <= from,
        forall|j: int| 0 <= j < paths.len() ==> ncx_at(data, #[trigger] paths[j]).len() == 0,
    ensures
        first_toc(data, paths, from).len() == 0,
    decreases paths.len() - from,
{
    if from < paths.len() {
        lemma_no_toc(data, paths, from + 1);
    }
}

// ---------------------------------------------------------------------------
// Notes
// ---------------------------------------------------------------------------

/// A note is the text of the element that was selected for it, if it has any; otherwise that of
/// the first element with text that has the anchor as its id or its name, first meaning made
/// first; and there is none if there is no such element.
pub proof fn notes_are_what_their_anchors_lead_to(
    d: Seq<NodeView>,
    selected: Option<int>,
    anchor: Seq<char>,
    label: Seq<char>,
    i: int,
)
    requires
        0 <= i < d.len(),
        extracted(d, i, false).text.len() > 0,
        forall|a: int, b: int| 0 <= a < b < d.len() ==> (#[trigger] d[a]).rank != (#[trigger] d[b]).rank,
    ensures
        ({
            let note = footnote(d, selected, anchor, label);
            let named = |k: int|
                (attr(d[k], "id"@) == Some(anchor) || attr(d[k], "name"@) == Some(anchor)) && extracted(
                    d,
                    k,
                    false,
                ).text.len() > 0;
            let is_it = note matches Some(n) && n.text == extracted(d, i, false).text && n.spans == extracted(
                d,
                i,
                false,
            ).spans && n.anchor_id == anchor && n.label == label;
            &&& selected == Some(d[i].rank) ==> is_it
            &&& selected is None && named(i) && (forall|k: int|
                0 <= k < d.len() && #[trigger] named(k) ==> d[i].rank <= d[k].rank) ==> is_it
            &&& selected is None && (forall|k: int| 0 <= k < d.len() ==> !#[trigger] named(k)) ==> note is None
        }),
{
    let p = |k: int| is_note_target(d, anchor, k);
    let named = |k: int|
        (attr(d[k], "id"@) == Some(anchor) || attr(d[k], "name"@) == Some(anchor)) && extracted(d, k, false).text.len()
            > 0;
    the_earliest_is_found(d, p, d.len() as int);
    lemma_rank(d, i, 0);
    match crate::dom::earliest(d, p, d.len() as int) {
        Some(e) => {
            assert(named(e));
            if named(i) && (forall|k: int| 0 <= k < d.len() && #[trigger] named(k) ==> d[i].rank <= d[k].rank) {
                assert(p(i));
                assert(d[e].rank == d[i].rank);
                assert(e == i);
            }
        },
        None => {
            assert(!p(i));
        },
    }
}

proof fn lemma_rank(d: Seq<NodeView>, i: int, from: int)
    requires
        0 <= from <= i < d.len(),
        forall|a: int, b: int| 0 <= a < b < d.len() ==> (#[trigger] d[a]).rank != (#[trigger] d[b]).rank,
    ensures
        node_of_rank(d, d[i].rank, from) == Some(i),
    decreases i - from,
{
    if from < i {
        lemma_rank(d, i, from + 1);
    }
}

// ---------------------------------------------------------------------------
// Metadata in markup
// ---------------------------------------------------------------------------

pub(crate) proof fn lemma_trimmed_letters(s: Seq<char>)
    ensures
        letters(trimmed(s)) == letters(s),
{
    lemma_trim_start(s);
    let t = trim_start(s);
    let gone = s.len() - t.len();
    let front = s.take(gone);
    assert(s =~= front + t);
    lemma_trim_start_rest(s);
    lemma_letters_add(front, t);
    lemma_blank_letters(front);
    assert(letters(front) + letters(t) =~= letters(t));
    assert(letters(s) == letters(t));
    crate::text::lemma_trim_end(t);
    lemma_trim_letters(t, t.len() as int);
    assert(t.take(t.len() as int) =~= t);
}

proof fn lemma_trim_start_rest(s: Seq<char>)
    ensures
        trim_start(s).len() <= s.len(),
        forall|i: int| 0 <= i < s.len() - trim_start(s).len() ==> is_space(#[trigger] s[i]),
    decreases s.len(),
{
    if s.len() > 0 && is_space(s[0]) {
        let rest = s.drop_first();
        lemma_trim_start_rest(rest);
        assert forall|i: int| 0 <= i < s.len() - trim_start(s).len() implies is_space(#[trigger] s[i]) by {
            if i > 0 {
                assert(rest[i - 1] == s[i]);
            }
        }
    }
}

/// The letters of all that has been written.
spec fn written(st: LinesView) -> Seq<char> {
    letters(in_a_row(st.lines)) + letters(st.line)
}

proof fn lemma_write(st: LinesView, t: Seq<char>)
    ensures
        written(st.write(t)) == written(st) + letters(t),
{
    let clean = trimmed(t);
    lemma_trimmed_letters(t);
    lemma_letters_push(st.line, ' ');
    lemma_letters_add(st.line.push(' '), clean);
    lemma_letters_add(st.line, clean);
    if clean.len() == 0 {
        lemma_letters_empty(clean);
        assert(written(st) + letters(t) =~= written(st));
    }
    assert(written(st.write(t)) =~= written(st) + letters(t));
}

proof fn lemma_end_line(st: LinesView)
    ensures
        written(st.end_line()) == written(st),
        st.line.len() == 0 ==> st.end_line() == st,
{
    let clean = trimmed(st.line);
    lemma_trimmed_letters(st.line);
    lemma_in_a_row(st.lines, clean);
    lemma_letters_add(in_a_row(st.lines), clean);
    lemma_letters_empty(Seq::<char>::empty());
    assert(written(st.end_line()) =~= written(st));
    if st.line.len() == 0 {
        lemma_letters_empty(st.line);
        crate::text::only_blank_text_trims_to_nothing(st.line);
    }
}

proof fn lemma_lines(d: Seq<NodeView>, lo: int, hi: int, st: LinesView)
    ensures
        written(lines_after(d, lo, hi, st)) == written(st) + letters(literal_text(d, lo, hi)),
    decreases hi - lo,
{
    if lo >= hi {
        lemma_letters_empty(Seq::<char>::empty());
        assert(written(st) + letters(Seq::<char>::empty()) =~= written(st));
    } else {
        let e = node_end(d, lo, hi);
        let tag = tag_of(d[lo]);
        let rest = literal_text(d, e, hi);
        match d[lo].value {
            ValueView::Text(t) => {
                lemma_write(st, t);
                lemma_lines(d, e, hi, st.write(t));
                lemma_letters_add(t, rest);
                assert(written(st) + letters(t) + letters(rest) =~= written(st) + (letters(t) + letters(rest)));
            },
            ValueView::Element { .. } => {
                let inner = literal_text(d, lo + 1, e);
                if !is_known(tag) {
                    let own = crate::dom::literal_tag(d[lo]) + inner;
                    lemma_write(st, own);
                    lemma_lines(d, e, hi, st.write(own));
                    lemma_letters_add(own, rest);
                    assert(written(st) + letters(own) + letters(rest) =~= written(st) + (letters(own) + letters(rest)));
                } else if crate::dom::breaks_line(tag) {
                    lemma_end_line(st);
                    lemma_lines(d, lo + 1, e, st.end_line());
                    let after = lines_after(d, lo + 1, e, st.end_line());
                    lemma_end_line(after);
                    lemma_lines(d, e, hi, after.end_line());
                    lemma_letters_add(inner, rest);
                    assert(written(st) + letters(inner) + letters(rest) =~= written(st) + (letters(inner) + letters(
                        rest,
                    )));
                } else {
                    lemma_lines(d, lo + 1, e, st);
                    lemma_lines(d, e, hi, lines_after(d, lo + 1, e, st));
                    lemma_letters_add(inner, rest);
                    assert(written(st) + letters(inner) + letters(rest) =~= written(st) + (letters(inner) + letters(
                        rest,
                    )));
                }
            },
            ValueView::Other => {
                lemma_lines(d, e, hi, st);
                assert(Seq::<char>::empty() + rest =~= rest);
            },
        }
    }
}

/// Where every tag is markup, and nothing stands below a text, no tag is taken for text: all that
/// is written are the texts.
pub proof fn markup_is_not_text(d: Seq<NodeView>, lo: int, hi: int)
    requires
        lo <= hi <= d.len(),
        forall|k: int| lo <= k < hi ==> ((#[trigger] d[k]).value is Element ==> is_known(tag_of(d[k]))),
        forall|k: int|
            lo <= k < hi && !((#[trigger] d[k]).value is Element) ==> k + 1 == d.len() || d[k + 1].depth <= d[k].depth,
    ensures
        literal_text(d, lo, hi) == text_in(d, lo, hi),
    decreases hi - lo,
{
    reveal_with_fuel(text_in, 2);
    if lo < hi {
        let e = node_end(d, lo, hi);
        markup_is_not_text(d, e, hi);
        markup_is_not_text(d, lo + 1, e);
        text_in_a_range_is_that_of_its_nodes(d, lo, e, hi);
        text_in_a_range_is_that_of_its_nodes(d, lo, lo + 1, e);
        text_in_a_range_is_that_of_its_nodes(d, lo, lo, e);
        if !(d[lo].value is Element) {
            assert(subtree_end(d, lo) == lo + 1);
            assert(e == lo + 1);
        }
        assert(literal_text(d, lo, hi) =~= text_in(d, lo, hi));
    }
}

/// The lines of a text in markup are those of its first element: what is before it at the top is
/// none, and has nothing below it.
pub proof fn the_first_element_holds_the_lines(d: Seq<NodeView>, r: int)
    requires
        1 <= r < d.len(),
        d[r].value is Element,
        forall|k: int| 1 <= k < r ==> !((#[trigger] d[k]).value is Element) && d[k + 1].depth <= d[k].depth,
    ensures
        root_from(d, 1) == Some(r),
{
    lemma_root(d, 1, r);
}

proof fn lemma_root(d: Seq<NodeView>, from: int, r: int)
    requires
        1 <= from <= r < d.len(),
        d[r].value is Element,
        forall|k: int| 1 <= k < r ==> !((#[trigger] d[k]).value is Element) && d[k + 1].depth <= d[k].depth,
    ensures
        root_from(d, from) == Some(r),
    decreases r - from,
{
    if from < r {
        assert(!(d[from].value is Element));
        assert(d[from + 1].depth <= d[from].depth);
        assert(subtree_end(d, from) == from + 1);
        lemma_root(d, from + 1, r);
    }
}

/// No letter of a text in markup is lost or added: the lines hold those of its text, in order, and
/// of the tags that are no markup. Text without markup is only trimmed.
pub proof fn metadata_keep_their_letters(input: Seq<char>, d: Seq<NodeView>, r: int)
    ensures
        !input.contains('<') && !input.contains('&') ==> plain_metadata(input, d) == trimmed(input),
        root_from(d, 1) == Some(r) ==> letters(in_a_row(metadata_lines(d))) == letters(
            literal_text(d, r + 1, subtree_end(d, r)),
        ),
        metadata_lines(d).len() > 0 && (input.contains('<') || input.contains('&')) ==> plain_metadata(input, d)
            == join(metadata_lines(d), "\n\n"@),
{
    if root_from(d, 1) == Some(r) {
        let st = LinesView { line: Seq::empty(), lines: Seq::empty() };
        let e = subtree_end(d, r);
        lemma_lines(d, r + 1, e, st);
        lemma_in_a_row(Seq::empty(), Seq::empty());
        lemma_letters_empty(Seq::<char>::empty());
        let after = lines_after(d, r + 1, e, st);
        lemma_end_line(after);
        let done = after.end_line();
        lemma_trimmed_letters(after.line);
        if trimmed(after.line).len() == 0 {
            lemma_letters_empty(trimmed(after.line));
        }
        assert(letters(done.line).len() == 0);
        assert(written(done) =~= letters(in_a_row(done.lines)));
        assert(written(st) + letters(literal_text(d, r + 1, e)) =~= letters(literal_text(d, r + 1, e)));
    }
}

} // verus!
