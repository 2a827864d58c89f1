//! Compiling a whole EPUB file into a book: its metadata, its assets, its nodes and its table of
//! contents.

use vstd::prelude::*;

use crate::archive::{archive_toc, entry_bytes, entry_text, opened, read_message, EpubArchive};
use crate::compiler::{
    book_toc, chapter_images, chapters_only_add, counts_types, elements_added, heading_rows,
    image_paths, is_toc_tree, metadata_rows, metadata_table, pairs_view, sanitized, sha256_digest,
    sha256_hex, toc_rows_are_a_tree, toc_rows_of, BookRows, BookView, CompileStats, TocRow,
    TocRowView,
};
use crate::dom::{
    chapter, elements_view, parse_chapter_html, sanitize_metadata_text, without_page_markers,
};
use crate::epub::{get_mime_type, mime_of, EpubError, EpubFailure, PackageView, ReadFailure};
use crate::html::document_nodes;
use crate::schema::{assets_view, Asset, AssetView};
use crate::text::{push_signed, same_text, signed_decimal, texts};

verus! {

// ---------------------------------------------------------------------------
// Assets
// ---------------------------------------------------------------------------

/// The place of the first of the assets from `k` on that has a hash.
pub open spec fn asset_place(assets: Seq<AssetView>, hash: Seq<char>, k: int) -> Option<int>
    decreases assets.len() - k,
{
    if k < 0 || k >= assets.len() {
        None
    } else if assets[k].hash == hash {
        Some(k)
    } else {
        asset_place(assets, hash, k + 1)
    }
}

/// The id of the asset that is stored next: assets are counted from one.
pub open spec fn next_id(assets: Seq<AssetView>) -> i64 {
    (assets.len() + 1) as i64
}

/// The assets and the id of the bytes at a path, once they are stored. Bytes that are there
/// already are not stored again.
pub open spec fn stored(
    assets: Seq<AssetView>,
    path: Seq<char>,
    data: Seq<u8>,
) -> (Seq<AssetView>, i64) {
    match asset_place(assets, sha256_digest(data), 0) {
        Some(i) => (assets, assets[i].id),
        None => (
            assets.push(
                AssetView {
                    id: next_id(assets),
                    hash: sha256_digest(data),
                    mime_type: mime_of(path),
                    data,
                },
            ),
            next_id(assets),
        ),
    }
}

/// Stores the bytes at a path, and gives their id.
pub fn store_asset(assets: &mut Vec<Asset>, path: &str, data: Vec<u8>) -> (r: i64)
    ensures
        (assets_view(final(assets)@), r) == stored(assets_view(old(assets)@), path@, data@),
{
    let hash = sha256_hex(&data);
    let ghost all = assets_view(assets@);
    let mut i: usize = 0;
    while i < assets.len()
        invariant
            i <= assets@.len(),
            all == assets_view(assets@),
            all == assets_view(old(assets)@),
            hash@ == sha256_digest(data@),
            asset_place(all, hash@, 0) == asset_place(all, hash@, i as int),
        decreases assets@.len() - i,
    {
        assert(all[i as int] == assets@[i as int]@);
        if same_text(assets[i].hash.as_str(), hash.as_str()) {
            return assets[i].id;
        }
        i += 1;
    }
    let count: i128 = assets.len() as i128;
    let id: i64 = #[verifier::truncate]
    ((count + 1) as i64);
    let ghost before = assets@;
    let asset = Asset { id, hash, mime_type: get_mime_type(path), data };
    let ghost shown = asset@;
    assets.push(asset);
    assert(assets_view(assets@) =~= assets_view(before).push(shown));
    id
}

/// The assets, and the ids of the first `n` images of a chapter, once those that the archive has
/// are stored.
pub open spec fn images_stored(
    data: Seq<u8>,
    assets: Seq<AssetView>,
    paths: Seq<Seq<char>>,
    n: int,
) -> (Seq<AssetView>, Seq<Option<i64>>)
    decreases n,
{
    if n <= 0 {
        (assets, Seq::empty())
    } else {
        let (before, ids) = images_stored(data, assets, paths, n - 1);
        match entry_bytes(data, paths[n - 1]) {
            Ok(bytes) => {
                let (now, id) = stored(before, paths[n - 1], bytes);
                (now, ids.push(Some(id)))
            },
            Err(_) => (before, ids.push(None)),
        }
    }
}

fn store_images(
    archive: &EpubArchive,
    assets: &mut Vec<Asset>,
    paths: &Vec<String>,
) -> (r: Vec<Option<i64>>)
    requires
        archive.wf(),
    ensures
        (assets_view(final(assets)@), r@) == images_stored(
            archive.data@,
            assets_view(old(assets)@),
            texts(paths@),
            paths@.len() as int,
        ),
        r@.len() == paths@.len(),
{
    let ghost start = assets_view(assets@);
    let ghost all = texts(paths@);
    let mut ids: Vec<Option<i64>> = Vec::new();
    let mut k: usize = 0;
    assert(ids@ =~= Seq::<Option<i64>>::empty());
    while k < paths.len()
        invariant
            k <= paths@.len(),
            archive.wf(),
            all == texts(paths@),
            ids@.len() == k,
            (assets_view(assets@), ids@) == images_stored(archive.data@, start, all, k as int),
        decreases paths@.len() - k,
    {
        assert(all[k as int] == paths@[k as int]@);
        match archive.read_bytes(paths[k].as_str()) {
            Ok(bytes) => {
                let id: i64 = store_asset(assets, paths[k].as_str(), bytes);
                ids.push(Some(id));
            },
            Err(_) => {
                ids.push(None);
            },
        }
        k += 1;
    }
    ids
}

// ---------------------------------------------------------------------------
// Chapters
// ---------------------------------------------------------------------------

/// The nodes and the assets of a book after one more chapter; a chapter that cannot be read adds
/// nothing.
pub open spec fn chapter_compiled(
    data: Seq<u8>,
    b: BookView,
    assets: Seq<AssetView>,
    path: Seq<char>,
) -> (BookView, Seq<AssetView>) {
    match entry_text(data, path) {
        Ok(text) => {
            let source = without_page_markers(text, 0);
            let elements = chapter(document_nodes(source), path);
            let paths = image_paths(path, elements, elements.len() as int);
            let (now, ids) = images_stored(data, assets, paths, paths.len() as int);
            (elements_added(b, path, source, elements, ids, elements.len() as int), now)
        },
        Err(_) => (b, assets),
    }
}

/// The nodes and the assets of a book after the first `n` chapters of its spine.
pub open spec fn spine_compiled(
    data: Seq<u8>,
    assets: Seq<AssetView>,
    spine: Seq<Seq<char>>,
    n: int,
) -> (BookView, Seq<AssetView>)
    decreases n,
{
    if n <= 0 {
        (BookView::empty(), assets)
    } else {
        let (b, before) = spine_compiled(data, assets, spine, n - 1);
        chapter_compiled(data, b, before, spine[n - 1])
    }
}

/// The paths of those of the first `n` chapters that cannot be read, and what is said of each.
pub open spec fn skipped_chapters(
    data: Seq<u8>,
    spine: Seq<Seq<char>>,
    n: int,
) -> Seq<(Seq<char>, Seq<char>)>
    decreases n,
{
    if n <= 0 {
        Seq::empty()
    } else {
        let before = skipped_chapters(data, spine, n - 1);
        match entry_text(data, spine[n - 1]) {
            Ok(_) => before,
            Err(e) => before.push((spine[n - 1], read_message(e, spine[n - 1]))),
        }
    }
}

/// Adds a chapter, whose text is given, to the nodes and the assets of a book.
fn compile_chapter(
    archive: &EpubArchive,
    rows: &mut BookRows,
    assets: &mut Vec<Asset>,
    path: &str,
    text: &str,
)
    requires
        archive.wf(),
        old(rows).wf(),
        entry_text(archive.data@, path@) == Ok::<Seq<char>, ReadFailure>(text@),
    ensures
        final(rows).wf(),
        (final(rows)@, assets_view(final(assets)@)) == chapter_compiled(
            archive.data@,
            old(rows)@,
            assets_view(old(assets)@),
            path@,
        ),
{
    let (document, elements) = parse_chapter_html(text, path);
    let ghost views = elements_view(elements@);
    assert(views.len() == elements@.len());
    let paths = chapter_images(path, &elements);
    assert(texts(paths@).len() == paths@.len());
    let images = store_images(archive, assets, &paths);
    rows.add_chapter(path, &document, &elements, &images);
}

// ---------------------------------------------------------------------------
// Books
// ---------------------------------------------------------------------------

/// The mathematical view of a [`CompiledBook`].
#[verifier::ext_equal]
pub struct CompiledView {
    pub title: Seq<char>,
    pub author: Seq<char>,
    pub metadata: Seq<(Seq<char>, Seq<char>)>,
    pub assets: Seq<AssetView>,
    pub rows: BookView,
    pub toc: Seq<TocRowView>,
    pub chapter_count: int,
    pub skipped: Seq<(Seq<char>, Seq<char>)>,
}

/// A compiled book: the rows of its tables.
pub struct CompiledBook {
    pub title: String,
    pub author: String,
    pub metadata: Vec<(String, String)>,
    pub assets: Vec<Asset>,
    pub rows: BookRows,
    pub toc: Vec<TocRow>,
    pub chapter_count: usize,
    /// The chapters that could not be read, and why.
    pub skipped: Vec<(String, String)>,
}

impl View for CompiledBook {
    type V = CompiledView;

    open spec fn view(&self) -> CompiledView {
        CompiledView {
            title: self.title@,
            author: self.author@,
            metadata: pairs_view(self.metadata@),
            assets: assets_view(self.assets@),
            rows: self.rows@,
            toc: toc_rows_of(self.toc@),
            chapter_count: self.chapter_count as int,
            skipped: pairs_view(self.skipped@),
        }
    }
}

/// The assets of a book that has only its cover, and the id of the cover, where it has one that
/// can be read.
pub open spec fn cover_stored(
    data: Seq<u8>,
    cover_href: Option<Seq<char>>,
) -> (Seq<AssetView>, Option<i64>) {
    match cover_href {
        Some(path) => match entry_bytes(data, path) {
            Ok(bytes) => {
                let (assets, id) = stored(Seq::empty(), path, bytes);
                (assets, Some(id))
            },
            Err(_) => (Seq::empty(), None),
        },
        None => (Seq::empty(), None),
    }
}

/// The row of the metadata that names the cover.
pub open spec fn cover_row(id: Option<i64>) -> Seq<(Seq<char>, Seq<char>)> {
    match id {
        Some(id) => seq![("cover_asset_id"@, signed_decimal(id as int))],
        None => Seq::empty(),
    }
}

/// The book that the package at a path of an archive makes, compiled by a version.
pub open spec fn package_compiled(
    data: Seq<u8>,
    opf_path: Seq<char>,
    p: PackageView,
    version: Seq<char>,
) -> CompiledView {
    let (cover, cover_id) = cover_stored(data, p.metadata.cover_href);
    let (rows, assets) = spine_compiled(data, cover, p.spine_paths, p.spine_paths.len() as int);
    CompiledView {
        title: sanitized(p.metadata.title),
        author: sanitized(p.metadata.author),
        metadata: metadata_table(p.metadata, version, sha256_digest(data)) + cover_row(cover_id),
        assets,
        rows,
        toc: book_toc(archive_toc(data, opf_path, p), rows),
        chapter_count: p.spine_paths.len() as int,
        skipped: skipped_chapters(data, p.spine_paths, p.spine_paths.len() as int),
    }
}

/// The book that an EPUB file makes, compiled by a version, or why it makes none.
pub open spec fn book_of(data: Seq<u8>, version: Seq<char>) -> Result<CompiledView, EpubFailure> {
    match opened(data) {
        Ok((opf_path, p)) => Ok(package_compiled(data, opf_path, p, version)),
        Err(e) => Err(e),
    }
}

fn store_cover(archive: &EpubArchive, assets: &mut Vec<Asset>) -> (r: Option<i64>)
    requires
        archive.wf(),
        old(assets)@.len() == 0,
    ensures
        (assets_view(final(assets)@), r) == cover_stored(archive.data@, archive.package@.metadata.cover_href),
{
    assert(assets_view(assets@) =~= Seq::<AssetView>::empty());
    match &archive.package.metadata.cover_href {
        Some(path) => match archive.read_bytes(path.as_str()) {
            Ok(bytes) => Some(store_asset(assets, path.as_str(), bytes)),
            Err(_) => None,
        },
        None => None,
    }
}

fn push_cover_row(rows: &mut Vec<(String, String)>, id: Option<i64>)
    ensures
        pairs_view(final(rows)@) == pairs_view(old(rows)@) + cover_row(id),
{
    let ghost before = rows@;
    match id {
        Some(id) => {
            let mut value = String::new();
            push_signed(&mut value, id);
            assert(value@ =~= signed_decimal(id as int));
            rows.push(("cover_asset_id".to_owned(), value));
            assert(pairs_view(rows@) =~= pairs_view(before) + seq![("cover_asset_id"@, value@)]);
        },
        None => {
            assert(pairs_view(before) + Seq::<(Seq<char>, Seq<char>)>::empty() =~= pairs_view(before));
        },
    }
}

/// Compiles an EPUB file, whose bytes are given, into a book.
pub fn compile_epub(data: Vec<u8>, version: &str) -> (r: Result<CompiledBook, EpubError>)
    ensures
        match r {
            Ok(book) => book_of(data@, version@) == Ok::<CompiledView, EpubFailure>(book@) && book.rows.wf(),
            Err(e) => book_of(data@, version@) == Err::<CompiledView, EpubFailure>(e@),
        },
{
    let source_hash = sha256_hex(&data);
    let archive = match EpubArchive::open(data) {
        Ok(a) => a,
        Err(e) => return Err(e),
    };
    let ghost bytes = archive.data@;
    let ghost p = archive.package@;
    let title = sanitize_metadata_text(archive.package.metadata.title.as_str());
    let author = sanitize_metadata_text(archive.package.metadata.author.as_str());
    let mut metadata = metadata_rows(&archive.package.metadata, version, source_hash.as_str());
    let mut assets: Vec<Asset> = Vec::new();
    let cover_id = store_cover(&archive, &mut assets);
    push_cover_row(&mut metadata, cover_id);
    let raw_toc = archive.extract_toc();
    let mut rows = BookRows::new();
    let mut skipped: Vec<(String, String)> = Vec::new();
    let ghost cover = assets_view(assets@);
    let ghost spine = p.spine_paths;
    let spine_paths = &archive.package.spine_paths;
    let mut k: usize = 0;
    assert(pairs_view(skipped@) =~= Seq::<(Seq<char>, Seq<char>)>::empty());
    while k < spine_paths.len()
        invariant
            k <= spine_paths@.len(),
            archive.wf(),
            bytes == archive.data@,
            spine == texts(spine_paths@),
            rows.wf(),
            (rows@, assets_view(assets@)) == spine_compiled(bytes, cover, spine, k as int),
            pairs_view(skipped@) == skipped_chapters(bytes, spine, k as int),
        decreases spine_paths@.len() - k,
    {
        assert(spine[k as int] == spine_paths@[k as int]@);
        let path = spine_paths[k].as_str();
        match archive.read_string(path) {
            Ok(text) => compile_chapter(&archive, &mut rows, &mut assets, path, text.as_str()),
            Err(e) => {
                let ghost before = skipped@;
                let message = e.message(path);
                skipped.push((path.to_owned(), message));
                assert(pairs_view(skipped@) =~= pairs_view(before).push((path@, message@)));
            },
        }
        k += 1;
    }
    let toc = rows.toc(&raw_toc);
    let chapter_count: usize = spine_paths.len();
    Ok(CompiledBook { title, author, metadata, assets, rows, toc, chapter_count, skipped })
}

// ---------------------------------------------------------------------------
// Statistics
// ---------------------------------------------------------------------------

/// How many bytes the first `n` assets hold.
pub open spec fn bytes_held(assets: Seq<AssetView>, n: int) -> int
    decreases n,
{
    if n <= 0 {
        0
    } else {
        bytes_held(assets, n - 1) + assets[n - 1].data.len()
    }
}

fn total_bytes(assets: &Vec<Asset>) -> (r: usize)
    ensures
        r == if bytes_held(assets_view(assets@), assets@.len() as int) <= usize::MAX {
            bytes_held(assets_view(assets@), assets@.len() as int)
        } else {
            usize::MAX as int
        },
{
    let ghost all = assets_view(assets@);
    let mut total: u128 = 0;
    let mut k: usize = 0;
    while k < assets.len()
        invariant
            k <= assets@.len(),
            all == assets_view(assets@),
            total == bytes_held(all, k as int),
            total <= k * (usize::MAX as int),
        decreases assets@.len() - k,
    {
        assert(all[k as int] == assets@[k as int]@);
        proof {
            assert(k * (usize::MAX as int) + usize::MAX <= u128::MAX && (k + 1) * (usize::MAX as int) == k * (
            usize::MAX as int) + usize::MAX) by (nonlinear_arith)
                requires
                    0 <= k < usize::MAX,
                    usize::MAX <= u64::MAX,
            ;
        }
        total += assets[k].data.len() as u128;
        k += 1;
    }
    if total <= usize::MAX as u128 {
        total as usize
    } else {
        usize::MAX
    }
}

impl CompiledBook {
    /// What the compilation came to, with the size of the file that was written and the time that
    /// it took.
    pub fn stats(&self, output_file_size: u64, elapsed_millis: u128) -> (r: CompileStats)
        ensures
            r.title@ == self@.title,
            r.author@ == self@.author,
            r.chapter_count == self@.chapter_count,
            r.total_nodes == self@.rows.nodes.len(),
            counts_types(r.node_counts@, self@.rows.nodes, self@.rows.nodes.len() as int),
            r.asset_count == self@.assets.len(),
            r.total_asset_bytes == if bytes_held(self@.assets, self@.assets.len() as int) <= usize::MAX {
                bytes_held(self@.assets, self@.assets.len() as int)
            } else {
                usize::MAX as int
            },
            r.toc_count == self@.toc.len(),
            r.output_file_size == output_file_size,
            r.elapsed_millis == elapsed_millis,
    {
        CompileStats {
            title: self.title.clone(),
            author: self.author.clone(),
            chapter_count: self.chapter_count,
            total_nodes: self.rows.nodes.len(),
            node_counts: self.rows.node_counts(),
            asset_count: self.assets.len(),
            total_asset_bytes: total_bytes(&self.assets),
            toc_count: self.toc.len(),
            output_file_size,
            elapsed_millis,
        }
    }
}

// ---------------------------------------------------------------------------
// Laws
// ---------------------------------------------------------------------------

/// Every asset is kept under the hash of its bytes and counted from one, and no two have the same
/// hash.
pub open spec fn is_asset_table(assets: Seq<AssetView>) -> bool {
    &&& forall|i: int|
        0 <= i < assets.len() ==> (#[trigger] assets[i]).hash == sha256_digest(assets[i].data) && assets[i].id == (i
            + 1) as i64
    &&& forall|i: int, j: int|
        0 <= i < j < assets.len() ==> (#[trigger] assets[i]).hash != (#[trigger] assets[j]).hash
}

proof fn lemma_asset_place(assets: Seq<AssetView>, hash: Seq<char>, k: int)
    requires
        0 <= k <= assets.len(),
    ensures
        match asset_place(assets, hash, k) {
            Some(i) => k <= i < assets.len() && assets[i].hash == hash,
            None => forall|i: int| k <= i < assets.len() ==> (#[trigger] assets[i]).hash != hash,
        },
    decreases assets.len() - k,
{
    if k < assets.len() && assets[k].hash != hash {
        lemma_asset_place(assets, hash, k + 1);
    }
}

/// Storing bytes keeps the assets in order, keeps those that were there, and gives the id of an
/// asset that has the hash of these bytes. Bytes that were stored before get the id that they got
/// then.
pub proof fn equal_bytes_are_stored_once(
    assets: Seq<AssetView>,
    path: Seq<char>,
    other: Seq<char>,
    data: Seq<u8>,
)
    requires
        is_asset_table(assets),
    ensures
        ({
            let (now, id) = stored(assets, path, data);
            &&& is_asset_table(now)
            &&& now.len() >= assets.len() && now.take(assets.len() as int) == assets
            &&& exists|i: int| 0 <= i < now.len() && (#[trigger] now[i]).id == id && now[i].hash == sha256_digest(data)
            &&& stored(now, other, data) == (now, id)
        }),
{
    let hash = sha256_digest(data);
    lemma_asset_place(assets, hash, 0);
    let (now, id) = stored(assets, path, data);
    assert(now.take(assets.len() as int) =~= assets);
    match asset_place(assets, hash, 0) {
        Some(i) => {
            assert(now[i].id == id);
        },
        None => {
            let last = assets.len() as int;
            assert(now[last].id == id);
            lemma_asset_place(now, hash, 0);
            assert forall|i: int, j: int| 0 <= i < j < now.len() implies (#[trigger] now[i]).hash != (
            #[trigger] now[j]).hash by {
                assert(now[i] == assets[i]);
                if j < last {
                    assert(now[j] == assets[j]);
                }
            }
            let found = asset_place(now, hash, 0)->0;
            if found < last {
                assert(now[found] == assets[found]);
            }
        },
    }
}

/// Whether an id is that of an asset.
pub open spec fn is_asset_id(assets: Seq<AssetView>, id: i64) -> bool {
    exists|i: int| 0 <= i < assets.len() && (#[trigger] assets[i]).id == id
}

/// Every image of a chapter that the archive has gets the id of an asset of the book.
pub proof fn images_lead_to_assets(
    data: Seq<u8>,
    assets: Seq<AssetView>,
    paths: Seq<Seq<char>>,
    n: int,
)
    requires
        is_asset_table(assets),
        0 <= n,
    ensures
        ({
            let (now, ids) = images_stored(data, assets, paths, n);
            &&& is_asset_table(now)
            &&& ids.len() == n
            &&& forall|k: int| 0 <= k < n ==> (#[trigger] ids[k] matches Some(id) ==> is_asset_id(now, id))
            &&& forall|k: int| 0 <= k < n ==> (#[trigger] ids[k] is None <==> entry_bytes(data, paths[k]) is Err)
        }),
    decreases n,
{
    if n > 0 {
        images_lead_to_assets(data, assets, paths, n - 1);
        let (before, old_ids) = images_stored(data, assets, paths, n - 1);
        let (now, ids) = images_stored(data, assets, paths, n);
        if let Ok(bytes) = entry_bytes(data, paths[n - 1]) {
            equal_bytes_are_stored_once(before, paths[n - 1], paths[n - 1], bytes);
            assert forall|k: int| 0 <= k < n implies (#[trigger] ids[k] matches Some(id) ==> is_asset_id(now, id)) by {
                if k < n - 1 {
                    assert(ids[k] == old_ids[k]);
                    if let Some(id) = ids[k] {
                        assert(is_asset_id(before, id));
                        let i = choose|i: int| 0 <= i < before.len() && (#[trigger] before[i]).id == id;
                        assert(now.take(before.len() as int)[i] == before[i]);
                        assert(now[i].id == id);
                    }
                }
            }
        }
        assert forall|k: int| 0 <= k < n implies (#[trigger] ids[k] is None <==> entry_bytes(data, paths[k]) is Err) by {
            if k < n - 1 {
                assert(ids[k] == old_ids[k]);
            }
        }
    }
}

proof fn lemma_spine_compiled(data: Seq<u8>, assets: Seq<AssetView>, spine: Seq<Seq<char>>, n: int)
    requires
        is_asset_table(assets),
    ensures
        is_asset_table(spine_compiled(data, assets, spine, n).1),
        spine_compiled(data, assets, spine, n).0.is_ordered(),
        spine_compiled(data, assets, spine, n).0.links_lead_to_nodes(),
    decreases n,
{
    if n > 0 {
        lemma_spine_compiled(data, assets, spine, n - 1);
        let (b, before) = spine_compiled(data, assets, spine, n - 1);
        if let Ok(text) = entry_text(data, spine[n - 1]) {
            let path = spine[n - 1];
            let source = without_page_markers(text, 0);
            let elements = chapter(document_nodes(source), path);
            let paths = image_paths(path, elements, elements.len() as int);
            images_lead_to_assets(data, before, paths, paths.len() as int);
            let ids = images_stored(data, before, paths, paths.len() as int).1;
            chapters_only_add(b, path, source, elements, ids, elements.len() as int);
        }
    }
}

proof fn lemma_heading_rows(b: BookView, n: int)
    requires
        0 <= n <= b.nodes.len(),
    ensures
        is_toc_tree(heading_rows(b.nodes, n), None, 0, b),
    decreases n,
{
    if n > 0 {
        lemma_heading_rows(b, n - 1);
    }
}

/// A compiled book is sound: its nodes are counted in reading order and lie below nodes before
/// them, its assets are kept once each under the hashes of their bytes, and its table of contents
/// is a tree whose entries lead to nodes of the book.
pub proof fn compiled_books_are_sound(data: Seq<u8>, version: Seq<char>)
    ensures
        book_of(data, version) matches Ok(b) ==> {
            &&& b.rows.is_ordered()
            &&& b.rows.links_lead_to_nodes()
            &&& is_asset_table(b.assets)
            &&& is_toc_tree(b.toc, None, 0, b.rows)
        },
{
    if let Ok((opf_path, p)) = opened(data) {
        let none = Seq::<AssetView>::empty();
        if let Some(path) = p.metadata.cover_href {
            if let Ok(bytes) = entry_bytes(data, path) {
                equal_bytes_are_stored_once(none, path, path, bytes);
            }
        }
        let (cover, _) = cover_stored(data, p.metadata.cover_href);
        lemma_spine_compiled(data, cover, p.spine_paths, p.spine_paths.len() as int);
        let (rows, _) = spine_compiled(data, cover, p.spine_paths, p.spine_paths.len() as int);
        let items = archive_toc(data, opf_path, p);
        toc_rows_are_a_tree(items, None, 0, rows);
        lemma_heading_rows(rows, rows.nodes.len() as int);
    }
}

} // verus!
