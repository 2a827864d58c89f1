//! EPUB packages: paths inside the archive, the package document, and tables of contents.

use vstd::prelude::*;

use crate::dom::{cell_text, cell_text_of, earliest, is_named_ignoring_case, named_ignoring_case};
use crate::html::{document_nodes, HtmlDocument};
use crate::schema::opt_text;
use crate::text::{
    ascii_lowercase, before_char, char_pos, chars_of, closes_with, contains, contains_text, cut_at,
    ends_with, find_char, find_last_char, join, join_texts, joined_parts_split_again, last_char_pos,
    lemma_char_pos, lemma_join_lacks, lemma_split_pieces_lack, lower_text, lowercase, opens_with,
    same_text, same_text_ignoring_case, split_on, split_pieces_lack_separator, split_text, split_words,
    starts_with, text_of, texts, trim_text, trimmed, words,
};
use crate::tree::{
    attr, attr_of, end_of, end_within, is_named, named, node_end, nodes_view, parent, parent_of,
    subtree_end, texts_between, texts_in, NodeView, TreeNode, TreeValue, ValueView,
};
use crate::xml::{parse_xml, xml_nodes};

verus! {

// ---------------------------------------------------------------------------
// Paths inside the archive
// ---------------------------------------------------------------------------

/// What percent-decoding makes of a text that holds a `%`, read as UTF-8 with a replacement
/// character for what is not valid.
pub uninterp spec fn percent_decoded(s: Seq<char>) -> Seq<char>;

/// Calls `percent_encoding::percent_decode_str` and `decode_utf8_lossy` on its result: a text
/// without a `%` is not changed, and any other becomes what depends on the text alone.
#[verifier::external_body]
pub(crate) fn percent_decode(s: &str) -> (r: String)
    ensures
        !s@.contains('%') ==> r@ == s@,
        s@.contains('%') ==> r@ == percent_decoded(s@),
{
    percent_encoding::percent_decode_str(s).decode_utf8_lossy().to_string()
}

/// A path with its percent escapes decoded.
pub open spec fn decoded_path(s: Seq<char>) -> Seq<char> {
    if s.contains('%') {
        percent_decoded(s)
    } else {
        s
    }
}

/// `s` with each `\` replaced by `/`.
pub open spec fn forward_slashes(s: Seq<char>) -> Seq<char> {
    s.map_values(|c: char| if c == '\\' { '/' } else { c })
}

/// The steps that a list of path parts leads down: `..` takes back the step before it, empty
/// parts and `.` are none.
pub open spec fn path_steps(parts: Seq<Seq<char>>) -> Seq<Seq<char>>
    decreases parts.len(),
{
    if parts.len() == 0 {
        Seq::empty()
    } else {
        let before = path_steps(parts.drop_last());
        let part = parts.last();
        if part.len() == 0 || part == "."@ {
            before
        } else if part == ".."@ {
            if before.len() == 0 {
                before
            } else {
                before.drop_last()
            }
        } else {
            before.push(part)
        }
    }
}

/// A decoded path without its query and fragment, as the steps it leads down, with slashes
/// between them.
pub open spec fn normalized_steps(decoded: Seq<char>) -> Seq<Seq<char>> {
    path_steps(
        split_on(forward_slashes(before_char(before_char(decoded, '#'), '?')), '/'),
    )
}

/// The normal form of a decoded path inside an archive.
pub open spec fn normalized_decoded(decoded: Seq<char>) -> Seq<char> {
    join(normalized_steps(decoded), "/"@)
}

/// The normal form of a path inside an archive.
pub open spec fn normalized(path: Seq<char>) -> Seq<char> {
    normalized_decoded(decoded_path(path))
}

/// The fragment of a reference, with its `#`; empty where the reference has none or an empty one.
pub open spec fn fragment_of(reference: Seq<char>) -> Seq<char> {
    let at = char_pos(reference, '#', 0);
    if at + 1 < reference.len() {
        reference.skip(at)
    } else {
        Seq::empty()
    }
}

/// A reference resolved against a directory, its fragment kept.
pub open spec fn resolved(base_dir: Seq<char>, reference: Seq<char>) -> Seq<char> {
    let path = before_char(reference, '#');
    let combined = if base_dir.len() == 0 {
        path
    } else {
        base_dir + "/"@ + path
    };
    normalized(combined) + fragment_of(reference)
}

/// The directory that a path leads to: what stands before its last slash.
pub open spec fn parent_dir(path: Seq<char>) -> Seq<char> {
    let at = last_char_pos(path, '/');
    if at < 0 {
        Seq::empty()
    } else {
        path.take(at)
    }
}

fn replace_backslashes(s: &str) -> (r: String)
    ensures
        r@ == forward_slashes(s@),
{
    let v = chars_of(s);
    let mut out = String::new();
    let mut i: usize = 0;
    while i < v.len()
        invariant
            v@ == s@,
            i <= v@.len(),
            out@ == forward_slashes(s@).take(i as int),
        decreases v@.len() - i,
    {
        let c: char = if v[i] == '\\' { '/' } else { v[i] };
        out.push(c);
        i += 1;
        assert(forward_slashes(s@).take(i as int) == forward_slashes(s@).take(i - 1).push(c));
    }
    assert(forward_slashes(s@).take(i as int) == forward_slashes(s@));
    out
}

/// The normal form of a path inside an archive: percent signs decoded, forward slashes, none at
/// the front, without `.` and `..`, query and fragment.
pub fn normalize_zip_path(path: &str) -> (r: String)
    ensures
        r@ == normalized(path@),
{
    normalize_decoded_path(percent_decode(path).as_str())
}

/// The normal form of a path inside an archive in which no percent sign is to be decoded.
pub fn normalize_decoded_path(decoded: &str) -> (r: String)
    ensures
        r@ == normalized_decoded(decoded@),
{
    let clean = cut_at(decoded, '#');
    let clean = cut_at(clean.as_str(), '?');
    let slashed = replace_backslashes(clean.as_str());
    let parts = split_text(slashed.as_str(), '/');
    let ghost all = texts(parts@);
    let mut stack: Vec<String> = Vec::new();
    let mut i: usize = 0;
    assert(path_steps(all.take(0)) == Seq::<Seq<char>>::empty());
    assert(texts(stack@) == Seq::<Seq<char>>::empty());
    while i < parts.len()
        invariant
            i <= parts@.len(),
            all == texts(parts@),
            texts(stack@) == path_steps(all.take(i as int)),
        decreases parts@.len() - i,
    {
        let ghost before = stack@;
        let part = &parts[i];
        if part.as_str().is_empty() || same_text(part.as_str(), ".") {
        } else if same_text(part.as_str(), "..") {
            if stack.len() > 0 {
                stack.pop();
                assert(texts(stack@) == texts(before).drop_last());
            }
        } else {
            stack.push(part.clone());
            assert(texts(stack@) == texts(before).push(part@));
        }
        i += 1;
        assert(all.take(i as int).drop_last() == all.take(i - 1));
        assert(all.take(i as int).last() == part@);
    }
    assert(all.take(i as int) == all);
    join_texts(&stack, "/")
}

/// Resolves a reference against a directory and brings it to normal form, keeping its fragment.
pub fn resolve_relative_path(base_dir: &str, relative_path: &str) -> (r: String)
    ensures
        r@ == resolved(base_dir@, relative_path@),
{
    let v = chars_of(relative_path);
    let at = find_char(&v, '#', 0);
    let path_part = text_of(&v, 0, at);
    let mut combined = String::new();
    if !base_dir.is_empty() {
        combined.append(base_dir);
        combined.append("/");
    }
    combined.append(path_part.as_str());
    assert(combined@ == (if base_dir@.len() == 0 {
        path_part@
    } else {
        base_dir@ + "/"@ + path_part@
    }));
    let mut norm = normalize_zip_path(combined.as_str());
    if at < v.len() && at + 1 < v.len() {
        let frag = text_of(&v, at, v.len());
        assert(v@.subrange(at as int, v@.len() as int) == v@.skip(at as int));
        norm.append(frag.as_str());
    } else {
        assert(norm@ + Seq::<char>::empty() == norm@);
    }
    norm
}

/// The directory of a path in normal form.
pub fn get_parent_dir(path: &str) -> (r: String)
    ensures
        r@ == parent_dir(path@),
{
    let v = chars_of(path);
    match find_last_char(&v, '/') {
        Some(i) => text_of(&v, 0, i),
        None => String::new(),
    }
}

/// The names of entries that can be opened.
pub open spec fn names_view(names: Seq<Option<String>>) -> Seq<Option<Seq<char>>> {
    names.map_values(|n: Option<String>| opt_text(n))
}

/// The entry that a path names in an archive with entries of these names: the one whose name is
/// the normal form of the path, or else the first whose normal form is, up to the case of ASCII
/// letters. An entry that cannot be opened has no name.
pub open spec fn entry_for(names: Seq<Option<Seq<char>>>, path: Seq<char>) -> Option<int> {
    let exact = first_exact(names, normalized(path), 0);
    if exact is Some {
        exact
    } else {
        first_alike(names, normalized(path), 0)
    }
}

/// The first of the names from `k` on that is this one.
pub open spec fn first_exact(names: Seq<Option<Seq<char>>>, name: Seq<char>, k: int) -> Option<int>
    decreases names.len() - k,
{
    if k < 0 || k >= names.len() {
        None
    } else if names[k] == Some(name) {
        Some(k)
    } else {
        first_exact(names, name, k + 1)
    }
}

/// Whether the normal form of a name is this one, up to the case of ASCII letters.
pub open spec fn is_alike(entry: Option<Seq<char>>, name: Seq<char>) -> bool {
    entry matches Some(n) && ascii_lowercase(normalized(n)) == ascii_lowercase(name)
}

/// The first of the names from `k` on whose normal form is this one, up to the case of ASCII
/// letters.
pub open spec fn first_alike(names: Seq<Option<Seq<char>>>, name: Seq<char>, k: int) -> Option<int>
    decreases names.len() - k,
{
    if k < 0 || k >= names.len() {
        None
    } else if is_alike(names[k], name) {
        Some(k)
    } else {
        first_alike(names, name, k + 1)
    }
}

/// The index of the entry that a path names in an archive with entries of these names.
pub fn find_entry(names: &Vec<Option<String>>, path: &str) -> (r: Option<usize>)
    ensures
        match r {
            Some(i) => i < names@.len() && entry_for(names_view(names@), path@) == Some(i as int),
            None => entry_for(names_view(names@), path@) is None,
        },
{
    let norm = normalize_zip_path(path);
    let ghost all = names_view(names@);
    let mut i: usize = 0;
    while i < names.len()
        invariant
            i <= names@.len(),
            all == names_view(names@),
            norm@ == normalized(path@),
            first_exact(all, norm@, 0) == first_exact(all, norm@, i as int),
        decreases names@.len() - i,
    {
        assert(all[i as int] == opt_text(names@[i as int]));
        if let Some(name) = &names[i] {
            if same_text(name.as_str(), norm.as_str()) {
                return Some(i);
            }
        }
        i += 1;
    }
    let mut j: usize = 0;
    while j < names.len()
        invariant
            j <= names@.len(),
            all == names_view(names@),
            norm@ == normalized(path@),
            first_exact(all, norm@, 0) is None,
            first_alike(all, norm@, 0) == first_alike(all, norm@, j as int),
        decreases names@.len() - j,
    {
        assert(all[j as int] == opt_text(names@[j as int]));
        if let Some(name) = &names[j] {
            let name = normalize_zip_path(name.as_str());
            if same_text_ignoring_case(name.as_str(), norm.as_str()) {
                return Some(j);
            }
        }
        j += 1;
    }
    None
}

/// Every step of a path in normal form is a name: not empty, not `.` or `..`, and without a
/// slash, a backslash, a query or a fragment.
pub open spec fn is_clean_step(s: Seq<char>) -> bool {
    &&& s.len() > 0
    &&& s != "."@
    &&& s != ".."@
    &&& !s.contains('/')
    &&& !s.contains('\\')
    &&& !s.contains('#')
    &&& !s.contains('?')
}

proof fn lemma_path_steps(parts: Seq<Seq<char>>)
    requires
        forall|i: int|
            0 <= i < parts.len() ==> !(#[trigger] parts[i]).contains('/') && !parts[i].contains('\\')
                && !parts[i].contains('#') && !parts[i].contains('?'),
    ensures
        forall|i: int| 0 <= i < path_steps(parts).len() ==> is_clean_step(#[trigger] path_steps(parts)[i]),
    decreases parts.len(),
{
    if parts.len() > 0 {
        let head = parts.drop_last();
        assert forall|i: int| 0 <= i < head.len() implies !(#[trigger] head[i]).contains('/')
            && !head[i].contains('\\') && !head[i].contains('#') && !head[i].contains('?') by {
            assert(head[i] == parts[i]);
        }
        lemma_path_steps(head);
        let before = path_steps(head);
        let all = path_steps(parts);
        assert(parts.last() == parts[parts.len() - 1]);
        assert forall|i: int| 0 <= i < all.len() implies is_clean_step(#[trigger] all[i]) by {
            if i < before.len() {
                assert(all[i] == before[i]);
            }
        }
    }
}

proof fn lemma_cut_lacks(s: Seq<char>, c: char, x: char)
    ensures
        !before_char(s, c).contains(c),
        !s.contains(x) ==> !before_char(s, c).contains(x),
{
    lemma_char_pos(s, c, 0);
    let t = before_char(s, c);
    assert forall|i: int| 0 <= i < t.len() implies t[i] == s[i] && t[i] != c by {}
}

/// Whatever the path, its normal form never leaves the archive: every step of it is a name.
pub proof fn normalized_paths_stay_inside(d: Seq<char>)
    ensures
        forall|i: int|
            0 <= i < normalized_steps(d).len() ==> is_clean_step(#[trigger] normalized_steps(d)[i]),
{
    let a = before_char(d, '#');
    lemma_cut_lacks(d, '#', '#');
    let b = before_char(a, '?');
    lemma_cut_lacks(a, '?', '#');
    let c = forward_slashes(b);
    assert forall|i: int| 0 <= i < c.len() implies c[i] != '\\' && c[i] != '#' && c[i] != '?' by {
        assert(b.contains(b[i]));
    }
    lemma_split_pieces_lack(c, '/', '\\');
    lemma_split_pieces_lack(c, '/', '#');
    lemma_split_pieces_lack(c, '/', '?');
    split_pieces_lack_separator(c, '/');
    lemma_path_steps(split_on(c, '/'));
}

proof fn lemma_clean_steps_are_kept(steps: Seq<Seq<char>>)
    requires
        forall|i: int| 0 <= i < steps.len() ==> is_clean_step(#[trigger] steps[i]),
    ensures
        path_steps(steps) == steps,
    decreases steps.len(),
{
    if steps.len() > 0 {
        let head = steps.drop_last();
        assert forall|i: int| 0 <= i < head.len() implies is_clean_step(#[trigger] head[i]) by {
            assert(head[i] == steps[i]);
        }
        lemma_clean_steps_are_kept(head);
        assert(is_clean_step(steps[steps.len() - 1]));
        assert(head.push(steps.last()) == steps);
    }
}

/// Bringing a decoded path to normal form twice is the same as once.
pub proof fn normal_forms_are_normal(decoded: Seq<char>)
    ensures
        normalized_decoded(normalized_decoded(decoded)) == normalized_decoded(decoded),
{
    normalized_paths_stay_inside(decoded);
    let steps = normalized_steps(decoded);
    let n = normalized_decoded(decoded);
    reveal_strlit("/");
    assert("/"@ =~= seq!['/']);
    assert forall|i: int| 0 <= i < steps.len() implies !(#[trigger] steps[i]).contains('#')
        && !steps[i].contains('?') && !steps[i].contains('\\') && !steps[i].contains('/') by {
        assert(is_clean_step(steps[i]));
    }
    lemma_join_lacks(steps, "/"@, '#');
    lemma_join_lacks(steps, "/"@, '?');
    lemma_join_lacks(steps, "/"@, '\\');
    lemma_char_pos(n, '#', 0);
    assert(before_char(n, '#') == n);
    lemma_char_pos(n, '?', 0);
    assert(before_char(n, '?') == n);
    assert forall|i: int| 0 <= i < n.len() implies n[i] != '\\' by {
        assert(n.contains(n[i]));
    }
    assert(forward_slashes(n) == n);
    if steps.len() == 0 {
        lemma_char_pos(n, '/', 0);
        assert(split_on(n, '/') == seq![n]);
        assert(seq![n].drop_last() == Seq::<Seq<char>>::empty());
        assert(path_steps(seq![n].drop_last()) == Seq::<Seq<char>>::empty());
        assert(path_steps(seq![n]) == Seq::<Seq<char>>::empty());
    } else {
        joined_parts_split_again(steps, '/');
        lemma_clean_steps_are_kept(steps);
    }
}

/// Bringing a path to normal form twice is the same as once, for a path whose normal form holds
/// no `%`.
pub proof fn normalizing_is_idempotent(path: Seq<char>)
    requires
        !normalized(path).contains('%'),
    ensures
        normalized(normalized(path)) == normalized(path),
{
    normal_forms_are_normal(decoded_path(path));
}

// ---------------------------------------------------------------------------
// Media types
// ---------------------------------------------------------------------------

/// The first media type that `mime_guess` knows for the extension of a path.
pub uninterp spec fn guessed_mime(path: Seq<char>) -> Option<Seq<char>>;

/// Calls `mime_guess::from_path` and `first_raw` on its result, which depends on the path alone.
#[verifier::external_body]
fn guess_mime(path: &str) -> (r: Option<String>)
    ensures
        opt_text(r) == guessed_mime(path@),
{
    mime_guess::from_path(path).first_raw().map(|m| m.to_string())
}

/// The media type of a file by its extension.
pub open spec fn mime_of(path: Seq<char>) -> Seq<char> {
    let lower = lowercase(path);
    if ends_with(lower, ".png"@) {
        "image/png"@
    } else if ends_with(lower, ".webp"@) {
        "image/webp"@
    } else if ends_with(lower, ".svg"@) {
        "image/svg+xml"@
    } else if ends_with(lower, ".gif"@) {
        "image/gif"@
    } else if ends_with(lower, ".avif"@) {
        "image/avif"@
    } else if ends_with(lower, ".jpg"@) || ends_with(lower, ".jpeg"@) {
        "image/jpeg"@
    } else if ends_with(lower, ".xhtml"@) || ends_with(lower, ".html"@) || ends_with(
        lower,
        ".htm"@,
    ) {
        "application/xhtml+xml"@
    } else if ends_with(lower, ".css"@) {
        "text/css"@
    } else if ends_with(lower, ".ncx"@) {
        "application/x-dtbncx+xml"@
    } else if ends_with(lower, ".mp3"@) {
        "audio/mpeg"@
    } else if ends_with(lower, ".wav"@) {
        "audio/wav"@
    } else if ends_with(lower, ".m4a"@) {
        "audio/mp4"@
    } else {
        match guessed_mime(path) {
            Some(m) => m,
            None => "application/octet-stream"@,
        }
    }
}

/// The media type of a file by its extension.
pub fn get_mime_type(file_path: &str) -> (r: String)
    ensures
        r@ == mime_of(file_path@),
{
    let lower = lower_text(file_path);
    let l = lower.as_str();
    if closes_with(l, ".png") {
        "image/png".to_owned()
    } else if closes_with(l, ".webp") {
        "image/webp".to_owned()
    } else if closes_with(l, ".svg") {
        "image/svg+xml".to_owned()
    } else if closes_with(l, ".gif") {
        "image/gif".to_owned()
    } else if closes_with(l, ".avif") {
        "image/avif".to_owned()
    } else if closes_with(l, ".jpg") || closes_with(l, ".jpeg") {
        "image/jpeg".to_owned()
    } else if closes_with(l, ".xhtml") || closes_with(l, ".html") || closes_with(l, ".htm") {
        "application/xhtml+xml".to_owned()
    } else if closes_with(l, ".css") {
        "text/css".to_owned()
    } else if closes_with(l, ".ncx") {
        "application/x-dtbncx+xml".to_owned()
    } else if closes_with(l, ".mp3") {
        "audio/mpeg".to_owned()
    } else if closes_with(l, ".wav") {
        "audio/wav".to_owned()
    } else if closes_with(l, ".m4a") {
        "audio/mp4".to_owned()
    } else {
        match guess_mime(file_path) {
            Some(m) => m,
            None => "application/octet-stream".to_owned(),
        }
    }
}

// ---------------------------------------------------------------------------
// The package document
// ---------------------------------------------------------------------------

/// An item of the manifest.
pub struct ManifestItem {
    pub id: String,
    pub href: String,
    pub media_type: String,
    pub properties: Option<String>,
}

/// The metadata of a package.
pub struct EpubMetadata {
    pub title: String,
    pub author: String,
    pub language: String,
    pub description: Option<String>,
    pub identifier: Option<String>,
    pub publisher: Option<String>,
    pub date: Option<String>,
    pub rights: Option<String>,
    pub cover_href: Option<String>,
    pub toc_href: Option<String>,
}

/// What a package document says.
pub struct Package {
    pub metadata: EpubMetadata,
    /// The items of the manifest. Of several with the same id, only the last counts.
    pub manifest: Vec<ManifestItem>,
    pub spine_paths: Vec<String>,
}

/// Why an entry of an archive cannot be read.
pub enum ReadError {
    /// There is no such entry.
    NotFound,
    /// Its bytes cannot be had.
    Unreadable(String),
    /// Its bytes are no UTF-8 text.
    NotText(String),
}

/// The mathematical view of a [`ReadError`].
#[verifier::ext_equal]
pub enum ReadFailure {
    NotFound,
    Unreadable(Seq<char>),
    NotText(Seq<char>),
}

impl View for ReadError {
    type V = ReadFailure;

    open spec fn view(&self) -> ReadFailure {
        match *self {
            ReadError::NotFound => ReadFailure::NotFound,
            ReadError::Unreadable(m) => ReadFailure::Unreadable(m@),
            ReadError::NotText(m) => ReadFailure::NotText(m@),
        }
    }
}

/// Why a package cannot be read.
pub enum EpubError {
    /// The file is no zip archive.
    Archive(String),
    /// `META-INF/container.xml` cannot be read.
    Container(ReadError),
    /// `META-INF/container.xml` is not well-formed.
    ContainerXml(String),
    /// `META-INF/container.xml` names no package document.
    NoRootfile,
    /// The package document at this path cannot be read.
    PackageDocument(String, ReadError),
    /// The package document is not well-formed.
    PackageXml(String),
}

/// The mathematical view of an [`EpubError`].
#[verifier::ext_equal]
pub enum EpubFailure {
    Archive(Seq<char>),
    Container(ReadFailure),
    ContainerXml(Seq<char>),
    NoRootfile,
    PackageDocument(Seq<char>, ReadFailure),
    PackageXml(Seq<char>),
}

impl View for EpubError {
    type V = EpubFailure;

    open spec fn view(&self) -> EpubFailure {
        match *self {
            EpubError::Archive(m) => EpubFailure::Archive(m@),
            EpubError::Container(e) => EpubFailure::Container(e@),
            EpubError::ContainerXml(m) => EpubFailure::ContainerXml(m@),
            EpubError::NoRootfile => EpubFailure::NoRootfile,
            EpubError::PackageDocument(p, e) => EpubFailure::PackageDocument(p@, e@),
            EpubError::PackageXml(m) => EpubFailure::PackageXml(m@),
        }
    }
}

/// The mathematical view of a [`ManifestItem`].
#[verifier::ext_equal]
pub struct ManifestView {
    pub id: Seq<char>,
    pub href: Seq<char>,
    pub media_type: Seq<char>,
    pub properties: Option<Seq<char>>,
}

/// The mathematical view of an [`EpubMetadata`].
#[verifier::ext_equal]
pub struct MetadataView {
    pub title: Seq<char>,
    pub author: Seq<char>,
    pub language: Seq<char>,
    pub description: Option<Seq<char>>,
    pub identifier: Option<Seq<char>>,
    pub publisher: Option<Seq<char>>,
    pub date: Option<Seq<char>>,
    pub rights: Option<Seq<char>>,
    pub cover_href: Option<Seq<char>>,
    pub toc_href: Option<Seq<char>>,
}

/// The mathematical view of a [`Package`].
#[verifier::ext_equal]
pub struct PackageView {
    pub metadata: MetadataView,
    pub manifest: Seq<ManifestView>,
    pub spine_paths: Seq<Seq<char>>,
}

impl View for ManifestItem {
    type V = ManifestView;

    open spec fn view(&self) -> ManifestView {
        ManifestView {
            id: self.id@,
            href: self.href@,
            media_type: self.media_type@,
            properties: opt_text(self.properties),
        }
    }
}

impl View for EpubMetadata {
    type V = MetadataView;

    open spec fn view(&self) -> MetadataView {
        MetadataView {
            title: self.title@,
            author: self.author@,
            language: self.language@,
            description: opt_text(self.description),
            identifier: opt_text(self.identifier),
            publisher: opt_text(self.publisher),
            date: opt_text(self.date),
            rights: opt_text(self.rights),
            cover_href: opt_text(self.cover_href),
            toc_href: opt_text(self.toc_href),
        }
    }
}

/// The views of manifest items.
pub open spec fn manifest_view(items: Seq<ManifestItem>) -> Seq<ManifestView> {
    items.map_values(|i: ManifestItem| i@)
}

impl View for Package {
    type V = PackageView;

    open spec fn view(&self) -> PackageView {
        PackageView {
            metadata: self.metadata@,
            manifest: manifest_view(self.manifest@),
            spine_paths: texts(self.spine_paths@),
        }
    }
}

/// The siblings from `lo` up to `hi` written as markup: text as it is, each element between its
/// tags, without its attributes.
pub open spec fn inner_markup(d: Seq<NodeView>, lo: int, hi: int) -> Seq<char>
    decreases hi - lo,
{
    if lo >= hi {
        Seq::empty()
    } else {
        let e = node_end(d, lo, hi);
        let own = match d[lo].value {
            ValueView::Text(t) => t,
            ValueView::Element { name, .. } => "<"@ + name + ">"@ + inner_markup(d, lo + 1, e)
                + "</"@ + name + ">"@,
            ValueView::Other => Seq::empty(),
        };
        own + inner_markup(d, e, hi)
    }
}

/// What the element whose subtree is `i..e` holds, as trimmed markup; nothing where that is empty.
pub open spec fn markup_text(d: Seq<NodeView>, i: int, e: int) -> Option<Seq<char>> {
    let t = trimmed(inner_markup(d, i + 1, e));
    if t.len() == 0 {
        None
    } else {
        Some(t)
    }
}

/// The text that the element whose subtree is `i..e` opens with.
pub open spec fn leading_text(d: Seq<NodeView>, i: int, e: int) -> Option<Seq<char>> {
    if i + 1 < e {
        match d[i + 1].value {
            ValueView::Text(t) => Some(trimmed(t)),
            _ => None,
        }
    } else {
        None
    }
}

/// The first markup that an element of this name holds among the siblings `lo..hi`.
pub open spec fn first_markup(
    d: Seq<NodeView>,
    lo: int,
    hi: int,
    tag: Seq<char>,
) -> Option<Seq<char>>
    decreases hi - lo,
{
    if lo >= hi {
        None
    } else {
        let e = node_end(d, lo, hi);
        if is_named(d[lo], tag) && markup_text(d, lo, e) is Some {
            markup_text(d, lo, e)
        } else {
            first_markup(d, e, hi, tag)
        }
    }
}

/// The first text that an element of this name opens with among the siblings `lo..hi`.
pub open spec fn first_text(d: Seq<NodeView>, lo: int, hi: int, tag: Seq<char>) -> Option<Seq<char>>
    decreases hi - lo,
{
    if lo >= hi {
        None
    } else {
        let e = node_end(d, lo, hi);
        if is_named(d[lo], tag) && leading_text(d, lo, e) is Some {
            leading_text(d, lo, e)
        } else {
            first_text(d, e, hi, tag)
        }
    }
}

/// The `content` of the last `<meta name="cover">` among the siblings `lo..hi`; `found` where
/// there is none.
pub open spec fn cover_id(
    d: Seq<NodeView>,
    lo: int,
    hi: int,
    found: Option<Seq<char>>,
) -> Option<Seq<char>>
    decreases hi - lo,
{
    if lo >= hi {
        found
    } else {
        let e = node_end(d, lo, hi);
        let is_cover = is_named(d[lo], "meta"@) && attr(d[lo], "content"@) is Some && (attr(
            d[lo],
            "name"@,
        ) matches Some(n) && ascii_lowercase(n) == ascii_lowercase("cover"@));
        cover_id(d, e, hi, if is_cover { attr(d[lo], "content"@) } else { found })
    }
}

/// The first node from `k` on that is an element of this name.
pub open spec fn first_named(d: Seq<NodeView>, tag: Seq<char>, k: int) -> Option<int>
    decreases d.len() - k,
{
    if k < 0 || k >= d.len() {
        None
    } else if is_named(d[k], tag) {
        Some(k)
    } else {
        first_named(d, tag, k + 1)
    }
}

/// The manifest item that an `<item>` element is, if it has what one needs.
pub open spec fn manifest_item(n: NodeView) -> Option<ManifestView> {
    match (attr(n, "id"@), attr(n, "href"@), attr(n, "media-type"@)) {
        (Some(id), Some(href), Some(media_type)) => if is_named(n, "item"@) {
            Some(ManifestView { id, href, media_type, properties: attr(n, "properties"@) })
        } else {
            None
        },
        _ => None,
    }
}

/// The manifest items among the siblings `lo..hi`.
pub open spec fn manifest_items(d: Seq<NodeView>, lo: int, hi: int) -> Seq<ManifestView>
    decreases hi - lo,
{
    if lo >= hi {
        Seq::empty()
    } else {
        let rest = manifest_items(d, node_end(d, lo, hi), hi);
        match manifest_item(d[lo]) {
            Some(item) => seq![item] + rest,
            None => rest,
        }
    }
}

/// The item with this id: of several, the last.
pub open spec fn item_by_id(items: Seq<ManifestView>, id: Seq<char>) -> Option<ManifestView>
    decreases items.len(),
{
    if items.len() == 0 {
        None
    } else if items.last().id == id {
        Some(items.last())
    } else {
        item_by_id(items.drop_last(), id)
    }
}

/// No later item has the id of item `k`.
pub open spec fn is_last_of_id(items: Seq<ManifestView>, k: int) -> bool {
    forall|m: int| k < m < items.len() ==> (#[trigger] items[m]).id != items[k].id
}

/// Those of the first `n` items that no later item replaces.
pub open spec fn kept_items(items: Seq<ManifestView>, n: int) -> Seq<ManifestView>
    decreases n,
{
    if n <= 0 {
        Seq::empty()
    } else if is_last_of_id(items, n - 1) {
        kept_items(items, n - 1).push(items[n - 1])
    } else {
        kept_items(items, n - 1)
    }
}

/// The path of the item with this id.
pub open spec fn path_by_id(
    items: Seq<ManifestView>,
    id: Option<Seq<char>>,
    dir: Seq<char>,
) -> Option<Seq<char>> {
    match id {
        Some(id) => match item_by_id(items, id) {
            Some(item) => Some(resolved(dir, item.href)),
            None => None,
        },
        None => None,
    }
}

/// The paths of the items that the `<itemref>`s among the siblings `lo..hi` name.
pub open spec fn spine_items(
    d: Seq<NodeView>,
    lo: int,
    hi: int,
    items: Seq<ManifestView>,
    dir: Seq<char>,
) -> Seq<Seq<char>>
    decreases hi - lo,
{
    if lo >= hi {
        Seq::empty()
    } else {
        let rest = spine_items(d, node_end(d, lo, hi), hi, items, dir);
        let path = path_by_id(items, attr(d[lo], "idref"@), dir);
        if is_named(d[lo], "itemref"@) && path is Some {
            seq![path->0] + rest
        } else {
            rest
        }
    }
}

/// The path of the first item from `k` on whose properties hold this word.
pub open spec fn path_by_property(
    items: Seq<ManifestView>,
    word: Seq<char>,
    dir: Seq<char>,
    k: int,
) -> Option<Seq<char>>
    decreases items.len() - k,
{
    if k < 0 || k >= items.len() {
        None
    } else if items[k].properties matches Some(p) && contains(p, word) {
        Some(resolved(dir, items[k].href))
    } else {
        path_by_property(items, word, dir, k + 1)
    }
}

/// The image that the first fitting `<reference type="cover">` among the siblings `lo..hi` names.
pub open spec fn guide_cover(
    d: Seq<NodeView>,
    lo: int,
    hi: int,
    dir: Seq<char>,
) -> Option<Seq<char>>
    decreases hi - lo,
{
    if lo >= hi {
        None
    } else {
        let n = d[lo];
        let rest = guide_cover(d, node_end(d, lo, hi), hi, dir);
        match (attr(n, "type"@), attr(n, "href"@)) {
            (Some(kind), Some(href)) => {
                let path = before_char(resolved(dir, href), '#');
                if is_named(n, "reference"@) && ascii_lowercase(kind) == ascii_lowercase("cover"@)
                    && starts_with(mime_of(path), "image/"@) {
                    Some(path)
                } else {
                    rest
                }
            },
            _ => rest,
        }
    }
}

/// The item is an image with `cover` in its id or path.
pub open spec fn looks_like_cover(item: ManifestView) -> bool {
    &&& starts_with(item.media_type, "image/"@) || starts_with(mime_of(item.href), "image/"@)
    &&& contains(lowercase(item.id), "cover"@) || contains(lowercase(item.href), "cover"@)
}

/// The path of the first item from `k` on that looks like a cover.
pub open spec fn path_of_likely_cover(
    items: Seq<ManifestView>,
    dir: Seq<char>,
    k: int,
) -> Option<Seq<char>>
    decreases items.len() - k,
{
    if k < 0 || k >= items.len() {
        None
    } else if looks_like_cover(items[k]) {
        Some(resolved(dir, items[k].href))
    } else {
        path_of_likely_cover(items, dir, k + 1)
    }
}

/// The path of the first NCX document from `k` on.
pub open spec fn path_of_ncx(items: Seq<ManifestView>, dir: Seq<char>, k: int) -> Option<Seq<char>>
    decreases items.len() - k,
{
    if k < 0 || k >= items.len() {
        None
    } else if ascii_lowercase(items[k].media_type) == ascii_lowercase("application/x-dtbncx+xml"@)
        || ends_with(items[k].href, ".ncx"@) {
        Some(resolved(dir, items[k].href))
    } else {
        path_of_ncx(items, dir, k + 1)
    }
}

/// The first of two optional values that is there.
pub open spec fn either(a: Option<Seq<char>>, b: Option<Seq<char>>) -> Option<Seq<char>> {
    if a is Some {
        a
    } else {
        b
    }
}

/// An optional text, or another.
pub open spec fn text_or(a: Option<Seq<char>>, b: Seq<char>) -> Seq<char> {
    match a {
        Some(t) => t,
        None => b,
    }
}

/// The manifest of a package document.
pub open spec fn package_manifest(d: Seq<NodeView>) -> Seq<ManifestView> {
    match first_named(d, "manifest"@, 0) {
        Some(m) => manifest_items(d, m + 1, subtree_end(d, m)),
        None => Seq::empty(),
    }
}

/// The markup of the first metadata element of this name that has any.
pub open spec fn metadata_markup(d: Seq<NodeView>, tag: Seq<char>) -> Option<Seq<char>> {
    match first_named(d, "metadata"@, 0) {
        Some(m) => first_markup(d, m + 1, subtree_end(d, m), tag),
        None => None,
    }
}

/// The text of the first metadata element of this name that has any.
pub open spec fn metadata_text(d: Seq<NodeView>, tag: Seq<char>) -> Option<Seq<char>> {
    match first_named(d, "metadata"@, 0) {
        Some(m) => first_text(d, m + 1, subtree_end(d, m), tag),
        None => None,
    }
}

/// The cover of a package: the item with the property for it, or else the one that the metadata
/// names, or else the image that the guide names, or else the first that looks like one.
pub open spec fn package_cover(d: Seq<NodeView>, dir: Seq<char>) -> Option<Seq<char>> {
    let items = package_manifest(d);
    let by_meta = match first_named(d, "metadata"@, 0) {
        Some(m) => path_by_id(items, cover_id(d, m + 1, subtree_end(d, m), None), dir),
        None => None,
    };
    let by_guide = match first_named(d, "guide"@, 0) {
        Some(g) => guide_cover(d, g + 1, subtree_end(d, g), dir),
        None => None,
    };
    either(
        path_by_property(items, "cover-image"@, dir, 0),
        either(by_meta, either(by_guide, path_of_likely_cover(items, dir, 0))),
    )
}

/// The table of contents of a package: the navigation document, or else what the spine names, or
/// else the first NCX document.
pub open spec fn package_toc(d: Seq<NodeView>, dir: Seq<char>) -> Option<Seq<char>> {
    let items = package_manifest(d);
    let by_spine = match first_named(d, "spine"@, 0) {
        Some(s) => path_by_id(items, attr(d[s], "toc"@), dir),
        None => None,
    };
    either(path_by_property(items, "nav"@, dir, 0), either(by_spine, path_of_ncx(items, dir, 0)))
}

/// The paths of a package's chapters, in reading order.
pub open spec fn package_spine(d: Seq<NodeView>, dir: Seq<char>) -> Seq<Seq<char>> {
    match first_named(d, "spine"@, 0) {
        Some(s) => spine_items(d, s + 1, subtree_end(d, s), package_manifest(d), dir),
        None => Seq::empty(),
    }
}

/// What the package document with these nodes says, in this directory.
pub open spec fn package(d: Seq<NodeView>, dir: Seq<char>) -> PackageView {
    PackageView {
        metadata: MetadataView {
            title: text_or(metadata_markup(d, "title"@), "Unknown Title"@),
            author: text_or(metadata_markup(d, "creator"@), "Unknown Author"@),
            language: text_or(metadata_text(d, "language"@), "en"@),
            description: metadata_markup(d, "description"@),
            identifier: metadata_text(d, "identifier"@),
            publisher: metadata_markup(d, "publisher"@),
            date: metadata_text(d, "date"@),
            rights: metadata_markup(d, "rights"@),
            cover_href: package_cover(d, dir),
            toc_href: package_toc(d, dir),
        },
        manifest: kept_items(package_manifest(d), package_manifest(d).len() as int),
        spine_paths: package_spine(d, dir),
    }
}

/// The first node from `k` on that is a `rootfile` with a path.
pub open spec fn first_rootfile(d: Seq<NodeView>, k: int) -> Option<int>
    decreases d.len() - k,
{
    if k < 0 || k >= d.len() {
        None
    } else if is_named(d[k], "rootfile"@) && attr(d[k], "full-path"@) is Some {
        Some(k)
    } else {
        first_rootfile(d, k + 1)
    }
}

fn write_markup(nodes: &Vec<TreeNode>, lo: usize, hi: usize, out: &mut String)
    requires
        lo <= hi <= nodes@.len(),
    ensures
        final(out)@ == old(out)@ + inner_markup(nodes_view(nodes@), lo as int, hi as int),
    decreases hi - lo,
{
    let ghost d = nodes_view(nodes@);
    let ghost start = out@;
    let mut k: usize = lo;
    while k < hi
        invariant
            lo <= k <= hi <= nodes@.len(),
            d == nodes_view(nodes@),
            start + inner_markup(d, lo as int, hi as int) == out@ + inner_markup(
                d,
                k as int,
                hi as int,
            ),
        decreases hi - k,
    {
        let e = end_within(nodes, k, hi);
        let ghost before = out@;
        let ghost rest = inner_markup(d, e as int, hi as int);
        match &nodes[k].value {
            TreeValue::Text(t) => {
                out.append(t.as_str());
                assert(out@ + rest == before + (t@ + rest));
            },
            TreeValue::Element { name, .. } => {
                out.append("<");
                out.append(name.as_str());
                out.append(">");
                write_markup(nodes, k + 1, e, out);
                out.append("</");
                out.append(name.as_str());
                out.append(">");
                assert(out@ + rest == before + ("<"@ + name@ + ">"@ + inner_markup(
                    d,
                    k + 1,
                    e as int,
                ) + "</"@ + name@ + ">"@ + rest));
            },
            TreeValue::Other => {
                assert(Seq::<char>::empty() + rest == rest);
            },
        }
        k = e;
    }
}

fn inner_xml_text(nodes: &Vec<TreeNode>, i: usize, e: usize) -> (r: Option<String>)
    requires
        i < e <= nodes@.len(),
    ensures
        opt_text(r) == markup_text(nodes_view(nodes@), i as int, e as int),
{
    let mut out = String::new();
    write_markup(nodes, i + 1, e, &mut out);
    assert(out@ == inner_markup(nodes_view(nodes@), i + 1, e as int));
    let t = trim_text(out.as_str());
    if t.as_str().is_empty() {
        None
    } else {
        Some(t)
    }
}

fn first_child_text(nodes: &Vec<TreeNode>, i: usize, e: usize) -> (r: Option<String>)
    requires
        i < e <= nodes@.len(),
    ensures
        opt_text(r) == leading_text(nodes_view(nodes@), i as int, e as int),
{
    if i + 1 < e {
        match &nodes[i + 1].value {
            TreeValue::Text(t) => Some(trim_text(t.as_str())),
            _ => None,
        }
    } else {
        None
    }
}

/// The first node from `from` on that is an element of this name.
fn find_named(nodes: &Vec<TreeNode>, tag: &str, from: usize) -> (r: Option<usize>)
    ensures
        match r {
            Some(i) => i < nodes@.len() && first_named(nodes_view(nodes@), tag@, from as int)
                == Some(i as int),
            None => first_named(nodes_view(nodes@), tag@, from as int) is None,
        },
{
    let mut k: usize = from;
    while k < nodes.len()
        invariant
            from <= k,
            first_named(nodes_view(nodes@), tag@, from as int) == first_named(
                nodes_view(nodes@),
                tag@,
                k as int,
            ),
        decreases nodes@.len() - k,
    {
        if named(nodes, k, tag) {
            return Some(k);
        }
        k += 1;
    }
    None
}

fn find_markup(nodes: &Vec<TreeNode>, section: Option<usize>, tag: &str) -> (r: Option<String>)
    requires
        section matches Some(m) ==> m < nodes@.len(),
    ensures
        opt_text(r) == (match section {
            Some(m) => first_markup(
                nodes_view(nodes@),
                m + 1,
                subtree_end(nodes_view(nodes@), m as int),
                tag@,
            ),
            None => None,
        }),
{
    let m = match section {
        Some(m) => m,
        None => return None,
    };
    let ghost d = nodes_view(nodes@);
    let hi = end_of(nodes, m);
    let mut k: usize = m + 1;
    while k < hi
        invariant
            m < k <= hi <= nodes@.len(),
            d == nodes_view(nodes@),
            section == Some(m),
            hi == subtree_end(d, m as int),
            first_markup(d, m + 1, hi as int, tag@) == first_markup(d, k as int, hi as int, tag@),
        decreases hi - k,
    {
        let e = end_within(nodes, k, hi);
        if named(nodes, k, tag) {
            let t = inner_xml_text(nodes, k, e);
            if t.is_some() {
                return t;
            }
        }
        k = e;
    }
    None
}

fn find_text(nodes: &Vec<TreeNode>, section: Option<usize>, tag: &str) -> (r: Option<String>)
    requires
        section matches Some(m) ==> m < nodes@.len(),
    ensures
        opt_text(r) == (match section {
            Some(m) => first_text(
                nodes_view(nodes@),
                m + 1,
                subtree_end(nodes_view(nodes@), m as int),
                tag@,
            ),
            None => None,
        }),
{
    let m = match section {
        Some(m) => m,
        None => return None,
    };
    let ghost d = nodes_view(nodes@);
    let hi = end_of(nodes, m);
    let mut k: usize = m + 1;
    while k < hi
        invariant
            m < k <= hi <= nodes@.len(),
            d == nodes_view(nodes@),
            section == Some(m),
            hi == subtree_end(d, m as int),
            first_text(d, m + 1, hi as int, tag@) == first_text(d, k as int, hi as int, tag@),
        decreases hi - k,
    {
        let e = end_within(nodes, k, hi);
        if named(nodes, k, tag) {
            let t = first_child_text(nodes, k, e);
            if t.is_some() {
                return t;
            }
        }
        k = e;
    }
    None
}

fn find_cover_id(nodes: &Vec<TreeNode>, m: usize) -> (r: Option<String>)
    requires
        m < nodes@.len(),
    ensures
        opt_text(r) == cover_id(
            nodes_view(nodes@),
            m + 1,
            subtree_end(nodes_view(nodes@), m as int),
            None,
        ),
{
    let ghost d = nodes_view(nodes@);
    let hi = end_of(nodes, m);
    let mut found: Option<String> = None;
    let mut k: usize = m + 1;
    while k < hi
        invariant
            m < k <= hi <= nodes@.len(),
            d == nodes_view(nodes@),
            hi == subtree_end(d, m as int),
            cover_id(d, m + 1, hi as int, None) == cover_id(d, k as int, hi as int, opt_text(found)),
        decreases hi - k,
    {
        let e = end_within(nodes, k, hi);
        if named(nodes, k, "meta") {
            if let (Some(name), Some(content)) = (
                attr_of(nodes, k, "name"),
                attr_of(nodes, k, "content"),
            ) {
                if same_text_ignoring_case(name, "cover") {
                    found = Some(content.to_owned());
                }
            }
        }
        k = e;
    }
    found
}

fn copy_attr(nodes: &Vec<TreeNode>, i: usize, name: &str) -> (r: Option<String>)
    requires
        i < nodes@.len(),
    ensures
        opt_text(r) == attr(nodes_view(nodes@)[i as int], name@),
{
    match attr_of(nodes, i, name) {
        Some(v) => Some(v.to_owned()),
        None => None,
    }
}

fn collect_manifest(nodes: &Vec<TreeNode>) -> (r: Vec<ManifestItem>)
    ensures
        manifest_view(r@) == package_manifest(nodes_view(nodes@)),
{
    let ghost d = nodes_view(nodes@);
    let mut out: Vec<ManifestItem> = Vec::new();
    assert(manifest_view(out@) == Seq::<ManifestView>::empty());
    let m = match find_named(nodes, "manifest", 0) {
        Some(m) => m,
        None => return out,
    };
    let hi = end_of(nodes, m);
    let mut k: usize = m + 1;
    while k < hi
        invariant
            m < k <= hi <= nodes@.len(),
            d == nodes_view(nodes@),
            manifest_items(d, m + 1, hi as int) == manifest_view(out@) + manifest_items(
                d,
                k as int,
                hi as int,
            ),
        decreases hi - k,
    {
        let e = end_within(nodes, k, hi);
        if named(nodes, k, "item") {
            if let (Some(id), Some(href), Some(media_type)) = (
                attr_of(nodes, k, "id"),
                attr_of(nodes, k, "href"),
                attr_of(nodes, k, "media-type"),
            ) {
                let ghost before = out@;
                let item = ManifestItem {
                    id: id.to_owned(),
                    href: href.to_owned(),
                    media_type: media_type.to_owned(),
                    properties: copy_attr(nodes, k, "properties"),
                };
                out.push(item);
                assert(manifest_item(d[k as int]) == Some(item@));
                assert(manifest_view(out@) == manifest_view(before).push(item@));
                let ghost rest = manifest_items(d, e as int, hi as int);
                assert(manifest_view(out@) + rest == manifest_view(before) + (seq![item@] + rest));
            }
        }
        k = e;
    }
    out
}

/// The index of the last item with this id.
fn find_item(items: &Vec<ManifestItem>, id: &str) -> (r: Option<usize>)
    ensures
        match r {
            Some(i) => i < items@.len() && item_by_id(manifest_view(items@), id@) == Some(
                items@[i as int]@,
            ),
            None => item_by_id(manifest_view(items@), id@) is None,
        },
{
    let ghost all = manifest_view(items@);
    let mut n: usize = items.len();
    assert(all.take(n as int) == all);
    while n > 0
        invariant
            n <= items@.len(),
            all == manifest_view(items@),
            item_by_id(all, id@) == item_by_id(all.take(n as int), id@),
        decreases n,
    {
        assert(all.take(n as int).last() == items@[n - 1]@);
        assert(all.take(n as int).drop_last() == all.take(n - 1));
        if same_text(items[n - 1].id.as_str(), id) {
            return Some(n - 1);
        }
        n -= 1;
    }
    None
}

fn item_path(items: &Vec<ManifestItem>, id: Option<&str>, dir: &str) -> (r: Option<String>)
    ensures
        opt_text(r) == path_by_id(
            manifest_view(items@),
            match id {
                Some(id) => Some(id@),
                None => None,
            },
            dir@,
        ),
{
    match id {
        Some(id) => match find_item(items, id) {
            Some(i) => Some(resolve_relative_path(dir, items[i].href.as_str())),
            None => None,
        },
        None => None,
    }
}

fn collect_spine(nodes: &Vec<TreeNode>, items: &Vec<ManifestItem>, dir: &str) -> (r: Vec<String>)
    requires
        manifest_view(items@) == package_manifest(nodes_view(nodes@)),
    ensures
        texts(r@) == package_spine(nodes_view(nodes@), dir@),
{
    let ghost d = nodes_view(nodes@);
    let ghost all = manifest_view(items@);
    let mut out: Vec<String> = Vec::new();
    assert(texts(out@) == Seq::<Seq<char>>::empty());
    let s = match find_named(nodes, "spine", 0) {
        Some(s) => s,
        None => return out,
    };
    let hi = end_of(nodes, s);
    let mut k: usize = s + 1;
    while k < hi
        invariant
            s < k <= hi <= nodes@.len(),
            d == nodes_view(nodes@),
            all == manifest_view(items@),
            spine_items(d, s + 1, hi as int, all, dir@) == texts(out@) + spine_items(
                d,
                k as int,
                hi as int,
                all,
                dir@,
            ),
        decreases hi - k,
    {
        let e = end_within(nodes, k, hi);
        if named(nodes, k, "itemref") {
            let ghost before = out@;
            if let Some(path) = item_path(items, attr_of(nodes, k, "idref"), dir) {
                out.push(path);
                assert(texts(out@) == texts(before).push(path@));
                let ghost rest = spine_items(d, e as int, hi as int, all, dir@);
                assert(texts(out@) + rest == texts(before) + (seq![path@] + rest));
            }
        }
        k = e;
    }
    out
}

fn find_by_property(items: &Vec<ManifestItem>, word: &str, dir: &str) -> (r: Option<String>)
    ensures
        opt_text(r) == path_by_property(manifest_view(items@), word@, dir@, 0),
{
    let ghost all = manifest_view(items@);
    let mut k: usize = 0;
    while k < items.len()
        invariant
            k <= items@.len(),
            all == manifest_view(items@),
            path_by_property(all, word@, dir@, 0) == path_by_property(all, word@, dir@, k as int),
        decreases items@.len() - k,
    {
        assert(all[k as int] == items@[k as int]@);
        if let Some(p) = &items[k].properties {
            if contains_text(p.as_str(), word) {
                return Some(resolve_relative_path(dir, items[k].href.as_str()));
            }
        }
        k += 1;
    }
    None
}

fn find_guide_cover(nodes: &Vec<TreeNode>, dir: &str) -> (r: Option<String>)
    ensures
        opt_text(r) == (match first_named(nodes_view(nodes@), "guide"@, 0) {
            Some(g) => guide_cover(
                nodes_view(nodes@),
                g + 1,
                subtree_end(nodes_view(nodes@), g),
                dir@,
            ),
            None => None,
        }),
{
    let ghost d = nodes_view(nodes@);
    let g = match find_named(nodes, "guide", 0) {
        Some(g) => g,
        None => return None,
    };
    let hi = end_of(nodes, g);
    let mut k: usize = g + 1;
    while k < hi
        invariant
            g < k <= hi <= nodes@.len(),
            d == nodes_view(nodes@),
            first_named(d, "guide"@, 0) == Some(g as int),
            hi == subtree_end(d, g as int),
            guide_cover(d, g + 1, hi as int, dir@) == guide_cover(d, k as int, hi as int, dir@),
        decreases hi - k,
    {
        let e = end_within(nodes, k, hi);
        if named(nodes, k, "reference") {
            if let (Some(kind), Some(href)) = (
                attr_of(nodes, k, "type"),
                attr_of(nodes, k, "href"),
            ) {
                if same_text_ignoring_case(kind, "cover") {
                    let path = cut_at(resolve_relative_path(dir, href).as_str(), '#');
                    if opens_with(get_mime_type(path.as_str()).as_str(), "image/") {
                        return Some(path);
                    }
                }
            }
        }
        k = e;
    }
    None
}

fn find_likely_cover(items: &Vec<ManifestItem>, dir: &str) -> (r: Option<String>)
    ensures
        opt_text(r) == path_of_likely_cover(manifest_view(items@), dir@, 0),
{
    let ghost all = manifest_view(items@);
    let mut k: usize = 0;
    while k < items.len()
        invariant
            k <= items@.len(),
            all == manifest_view(items@),
            path_of_likely_cover(all, dir@, 0) == path_of_likely_cover(all, dir@, k as int),
        decreases items@.len() - k,
    {
        let item = &items[k];
        assert(all[k as int] == item@);
        let is_image = opens_with(item.media_type.as_str(), "image/") || opens_with(
            get_mime_type(item.href.as_str()).as_str(),
            "image/",
        );
        if is_image && (contains_text(lower_text(item.id.as_str()).as_str(), "cover")
            || contains_text(lower_text(item.href.as_str()).as_str(), "cover")) {
            return Some(resolve_relative_path(dir, item.href.as_str()));
        }
        k += 1;
    }
    None
}

fn find_ncx(items: &Vec<ManifestItem>, dir: &str) -> (r: Option<String>)
    ensures
        opt_text(r) == path_of_ncx(manifest_view(items@), dir@, 0),
{
    let ghost all = manifest_view(items@);
    let mut k: usize = 0;
    while k < items.len()
        invariant
            k <= items@.len(),
            all == manifest_view(items@),
            path_of_ncx(all, dir@, 0) == path_of_ncx(all, dir@, k as int),
        decreases items@.len() - k,
    {
        let item = &items[k];
        assert(all[k as int] == item@);
        if same_text_ignoring_case(item.media_type.as_str(), "application/x-dtbncx+xml")
            || closes_with(item.href.as_str(), ".ncx") {
            return Some(resolve_relative_path(dir, item.href.as_str()));
        }
        k += 1;
    }
    None
}

fn find_cover(nodes: &Vec<TreeNode>, items: &Vec<ManifestItem>, dir: &str) -> (r: Option<String>)
    requires
        manifest_view(items@) == package_manifest(nodes_view(nodes@)),
    ensures
        opt_text(r) == package_cover(nodes_view(nodes@), dir@),
{
    let by_property = find_by_property(items, "cover-image", dir);
    if by_property.is_some() {
        return by_property;
    }
    if let Some(m) = find_named(nodes, "metadata", 0) {
        let id = find_cover_id(nodes, m);
        let by_meta = match &id {
            Some(id) => item_path(items, Some(id.as_str()), dir),
            None => None,
        };
        if by_meta.is_some() {
            return by_meta;
        }
    }
    let by_guide = find_guide_cover(nodes, dir);
    if by_guide.is_some() {
        return by_guide;
    }
    find_likely_cover(items, dir)
}

fn find_toc(nodes: &Vec<TreeNode>, items: &Vec<ManifestItem>, dir: &str) -> (r: Option<String>)
    requires
        manifest_view(items@) == package_manifest(nodes_view(nodes@)),
    ensures
        opt_text(r) == package_toc(nodes_view(nodes@), dir@),
{
    let by_property = find_by_property(items, "nav", dir);
    if by_property.is_some() {
        return by_property;
    }
    if let Some(s) = find_named(nodes, "spine", 0) {
        let by_spine = item_path(items, attr_of(nodes, s, "toc"), dir);
        if by_spine.is_some() {
            return by_spine;
        }
    }
    find_ncx(items, dir)
}

fn unwrap_text(t: Option<String>, default: &str) -> (r: String)
    ensures
        r@ == text_or(opt_text(t), default@),
{
    match t {
        Some(t) => t,
        None => default.to_owned(),
    }
}

fn keep_items(items: &Vec<ManifestItem>) -> (r: Vec<ManifestItem>)
    ensures
        manifest_view(r@) == kept_items(manifest_view(items@), items@.len() as int),
{
    let ghost all = manifest_view(items@);
    let mut out: Vec<ManifestItem> = Vec::new();
    let mut k: usize = 0;
    assert(manifest_view(out@) =~= kept_items(all, 0));
    while k < items.len()
        invariant
            k <= items@.len(),
            all == manifest_view(items@),
            manifest_view(out@) == kept_items(all, k as int),
        decreases items@.len() - k,
    {
        let item = &items[k];
        let mut m: usize = k + 1;
        let mut last = true;
        while m < items.len()
            invariant
                k < m <= items@.len(),
                k < items@.len(),
                *item == items@[k as int],
                all == manifest_view(items@),
                last == (forall|j: int| k < j < m ==> (#[trigger] all[j]).id != all[k as int].id),
            decreases items@.len() - m,
        {
            assert(all[m as int] == items@[m as int]@);
            if same_text(items[m].id.as_str(), item.id.as_str()) {
                last = false;
            }
            m += 1;
        }
        let ghost before = out@;
        if last {
            let copy = ManifestItem {
                id: item.id.clone(),
                href: item.href.clone(),
                media_type: item.media_type.clone(),
                properties: item.properties.clone(),
            };
            out.push(copy);
            assert(copy@ == all[k as int]);
            assert(manifest_view(out@) =~= manifest_view(before).push(copy@));
        }
        k += 1;
    }
    out
}

/// What the package document with these nodes says, in this directory.
pub fn package_from_nodes(nodes: &Vec<TreeNode>, opf_dir: &str) -> (r: Package)
    ensures
        r@ == package(nodes_view(nodes@), opf_dir@),
{
    let section = find_named(nodes, "metadata", 0);
    let manifest = collect_manifest(nodes);
    let spine_paths = collect_spine(nodes, &manifest, opf_dir);
    let metadata = EpubMetadata {
        title: unwrap_text(find_markup(nodes, section, "title"), "Unknown Title"),
        author: unwrap_text(find_markup(nodes, section, "creator"), "Unknown Author"),
        language: unwrap_text(find_text(nodes, section, "language"), "en"),
        description: find_markup(nodes, section, "description"),
        identifier: find_text(nodes, section, "identifier"),
        publisher: find_markup(nodes, section, "publisher"),
        date: find_text(nodes, section, "date"),
        rights: find_markup(nodes, section, "rights"),
        cover_href: find_cover(nodes, &manifest, opf_dir),
        toc_href: find_toc(nodes, &manifest, opf_dir),
    };
    let manifest = keep_items(&manifest);
    Package { metadata, manifest, spine_paths }
}

/// Parses a package document, which lies in this directory.
pub fn parse_opf(opf_xml: &str, opf_dir: &str) -> (r: Result<Package, EpubError>)
    ensures
        match xml_nodes(opf_xml@) {
            Ok(d) => r matches Ok(p) && p@ == package(d, opf_dir@),
            Err(message) => r matches Err(EpubError::PackageXml(m)) && m@ == message,
        },
{
    match parse_xml(opf_xml) {
        Ok(nodes) => Ok(package_from_nodes(&nodes, opf_dir)),
        Err(message) => Err(EpubError::PackageXml(message)),
    }
}

/// The path of the package document that a container document with these nodes names.
pub fn rootfile_path(nodes: &Vec<TreeNode>) -> (r: Option<String>)
    ensures
        opt_text(r) == (match first_rootfile(nodes_view(nodes@), 0) {
            Some(i) => Some(normalized(attr(nodes_view(nodes@)[i], "full-path"@)->0)),
            None => None,
        }),
{
    let ghost d = nodes_view(nodes@);
    let mut k: usize = 0;
    while k < nodes.len()
        invariant
            k <= nodes@.len(),
            d == nodes_view(nodes@),
            first_rootfile(d, 0) == first_rootfile(d, k as int),
        decreases nodes@.len() - k,
    {
        if named(nodes, k, "rootfile") {
            if let Some(path) = attr_of(nodes, k, "full-path") {
                return Some(normalize_zip_path(path));
            }
        }
        k += 1;
    }
    None
}

/// Reads the path of the package document from `META-INF/container.xml`.
pub fn container_opf_path(container_xml: &str) -> (r: Result<String, EpubError>)
    ensures
        match xml_nodes(container_xml@) {
            Ok(d) => match first_rootfile(d, 0) {
                Some(i) => r matches Ok(p) && p@ == normalized(attr(d[i], "full-path"@)->0),
                None => r matches Err(EpubError::NoRootfile),
            },
            Err(message) => r matches Err(EpubError::ContainerXml(m)) && m@ == message,
        },
{
    match parse_xml(container_xml) {
        Ok(nodes) => match rootfile_path(&nodes) {
            Some(path) => Ok(path),
            None => Err(EpubError::NoRootfile),
        },
        Err(message) => Err(EpubError::ContainerXml(message)),
    }
}

// ---------------------------------------------------------------------------
// Tables of contents
// ---------------------------------------------------------------------------

/// An entry of a table of contents, with the entries below it.
pub struct RawTocItem {
    pub title: String,
    pub href: String,
    pub children: Vec<RawTocItem>,
}

/// The mathematical view of a [`RawTocItem`].
#[verifier::ext_equal]
pub struct TocView {
    pub title: Seq<char>,
    pub href: Seq<char>,
    pub children: Seq<TocView>,
}

/// The view of one entry.
pub open spec fn toc_view(i: RawTocItem) -> TocView
    decreases i,
{
    TocView { title: i.title@, href: i.href@, children: tocs_view(i.children@) }
}

/// The views of entries.
pub open spec fn tocs_view(items: Seq<RawTocItem>) -> Seq<TocView>
    decreases items,
{
    if items.len() == 0 {
        Seq::empty()
    } else {
        tocs_view(items.drop_last()).push(toc_view(items.last()))
    }
}

proof fn lemma_tocs_append(a: Seq<RawTocItem>, b: Seq<RawTocItem>)
    ensures
        tocs_view(a + b) == tocs_view(a) + tocs_view(b),
    decreases b.len(),
{
    if b.len() == 0 {
        assert(a + b == a);
        assert(tocs_view(a) + tocs_view(b) == tocs_view(a));
    } else {
        lemma_tocs_append(a, b.drop_last());
        assert((a + b).drop_last() == a + b.drop_last());
        assert(tocs_view(a + b) == tocs_view(a) + tocs_view(b));
    }
}

proof fn lemma_tocs_push(a: Seq<RawTocItem>, x: RawTocItem)
    ensures
        tocs_view(a.push(x)) == tocs_view(a).push(toc_view(x)),
{
    assert(a.push(x).drop_last() == a);
}

/// The first element of this name among the nodes `lo..hi`.
pub open spec fn named_in(d: Seq<NodeView>, tag: Seq<char>, lo: int, hi: int) -> Option<int>
    decreases hi - lo,
{
    if lo >= hi {
        None
    } else if is_named(d[lo], tag) {
        Some(lo)
    } else {
        named_in(d, tag, lo + 1, hi)
    }
}

/// The first list among the nodes `lo..hi`.
pub open spec fn first_list(d: Seq<NodeView>, lo: int, hi: int) -> Option<int>
    decreases hi - lo,
{
    if lo >= hi {
        None
    } else if is_named(d[lo], "ol"@) || is_named(d[lo], "ul"@) {
        Some(lo)
    } else {
        first_list(d, lo + 1, hi)
    }
}

/// The texts of the siblings `lo..hi`, but for those of lists.
pub open spec fn texts_beside_lists(d: Seq<NodeView>, lo: int, hi: int) -> Seq<Seq<char>>
    decreases hi - lo,
{
    if lo >= hi {
        Seq::empty()
    } else {
        let e = node_end(d, lo, hi);
        let rest = texts_beside_lists(d, e, hi);
        if is_named_ignoring_case(d[lo], "ol"@) || is_named_ignoring_case(d[lo], "ul"@) {
            rest
        } else {
            texts_in(d, lo, e) + rest
        }
    }
}

/// The words of an item whose children are the siblings `lo..hi`, without those of the lists in
/// it.
pub open spec fn own_text_of(d: Seq<NodeView>, lo: int, hi: int) -> Seq<char> {
    join(words(join(texts_beside_lists(d, lo, hi), " "@)), " "@)
}

/// The entries of a navigation list whose children are `lo..hi`.
pub open spec fn nav_entries(d: Seq<NodeView>, lo: int, hi: int, dir: Seq<char>) -> Seq<TocView>
    decreases hi - lo,
{
    if lo >= hi {
        Seq::empty()
    } else {
        let e = node_end(d, lo, hi);
        let rest = nav_entries(d, e, hi, dir);
        if is_named_ignoring_case(d[lo], "li"@) {
            let link = named_in(d, "a"@, lo + 1, e);
            let title = match link {
                Some(a) => cell_text(d, a),
                None => own_text_of(d, lo + 1, e),
            };
            let href = match link {
                Some(a) => match attr(d[a], "href"@) {
                    Some(h) => resolved(dir, h),
                    None => Seq::empty(),
                },
                None => Seq::empty(),
            };
            let children = nav_sublists(d, lo + 1, e, dir);
            if title.len() > 0 || href.len() > 0 {
                seq![TocView { title, href, children }] + rest
            } else {
                rest
            }
        } else {
            rest
        }
    }
}

/// The entries of the lists among the siblings `lo..hi`, one list after the other.
pub open spec fn nav_sublists(d: Seq<NodeView>, lo: int, hi: int, dir: Seq<char>) -> Seq<TocView>
    decreases hi - lo,
{
    if lo >= hi {
        Seq::empty()
    } else {
        let e = node_end(d, lo, hi);
        let rest = nav_sublists(d, e, hi, dir);
        if is_named_ignoring_case(d[lo], "ol"@) || is_named_ignoring_case(d[lo], "ul"@) {
            nav_entries(d, lo + 1, e, dir) + rest
        } else {
            rest
        }
    }
}

/// A `<nav>` element, or one with this attribute saying that it is the table of contents.
pub open spec fn is_nav(d: Seq<NodeView>, attribute: Option<Seq<char>>, k: int) -> bool {
    &&& is_named(d[k], "nav"@)
    &&& parent(d, k) is Some
    &&& attribute matches Some(name) ==> attr(d[k], name) == Some("toc"@)
}

/// The first such element.
pub open spec fn first_nav(d: Seq<NodeView>, attribute: Option<Seq<char>>) -> Option<int> {
    earliest(d, |k: int| is_nav(d, attribute, k), d.len() as int)
}

/// The `<nav>` that holds the table of contents: the first of the type `toc`, or else the first
/// of that id, or else the first of all.
pub open spec fn toc_nav(d: Seq<NodeView>) -> Option<int> {
    if first_nav(d, Some("epub:type"@)) is Some {
        first_nav(d, Some("epub:type"@))
    } else if first_nav(d, Some("id"@)) is Some {
        first_nav(d, Some("id"@))
    } else {
        first_nav(d, None)
    }
}

/// The table of contents in a navigation document: the first list of the `<nav>` that holds it.
pub open spec fn nav_toc(d: Seq<NodeView>, dir: Seq<char>) -> Seq<TocView> {
    match toc_nav(d) {
        Some(n) => match first_list(d, n + 1, subtree_end(d, n)) {
            Some(l) => nav_entries(d, l + 1, subtree_end(d, l), dir),
            None => Seq::empty(),
        },
        None => Seq::empty(),
    }
}

/// The first element of this name among the siblings `lo..hi`.
pub open spec fn child_named(d: Seq<NodeView>, tag: Seq<char>, lo: int, hi: int) -> Option<int>
    decreases hi - lo,
{
    if lo >= hi {
        None
    } else if is_named(d[lo], tag) {
        Some(lo)
    } else {
        child_named(d, tag, node_end(d, lo, hi), hi)
    }
}

/// The label of the navigation point whose subtree is `i..e`.
pub open spec fn ncx_title(d: Seq<NodeView>, i: int, e: int) -> Seq<char> {
    match child_named(d, "navLabel"@, i + 1, e) {
        Some(l) => match child_named(d, "text"@, l + 1, node_end(d, l, e)) {
            Some(t) => text_or(
                leading_text(d, t, node_end(d, t, node_end(d, l, e))),
                Seq::empty(),
            ),
            None => Seq::empty(),
        },
        None => Seq::empty(),
    }
}

/// What the navigation point whose subtree is `i..e` leads to.
pub open spec fn ncx_href(d: Seq<NodeView>, i: int, e: int, dir: Seq<char>) -> Seq<char> {
    match child_named(d, "content"@, i + 1, e) {
        Some(c) => match attr(d[c], "src"@) {
            Some(src) => resolved(dir, src),
            None => Seq::empty(),
        },
        None => Seq::empty(),
    }
}

/// The entries of the navigation points among the siblings `lo..hi`.
pub open spec fn ncx_entries(d: Seq<NodeView>, lo: int, hi: int, dir: Seq<char>) -> Seq<TocView>
    decreases hi - lo,
{
    if lo >= hi {
        Seq::empty()
    } else {
        let e = node_end(d, lo, hi);
        let rest = ncx_entries(d, e, hi, dir);
        if is_named(d[lo], "navPoint"@) {
            let title = ncx_title(d, lo, e);
            let href = ncx_href(d, lo, e, dir);
            let children = ncx_entries(d, lo + 1, e, dir);
            if title.len() > 0 || href.len() > 0 {
                seq![TocView { title, href, children }] + rest
            } else {
                rest
            }
        } else {
            rest
        }
    }
}

/// The table of contents in an NCX document.
pub open spec fn ncx_toc(d: Seq<NodeView>, dir: Seq<char>) -> Seq<TocView> {
    match first_named(d, "navMap"@, 0) {
        Some(m) => ncx_entries(d, m + 1, subtree_end(d, m), dir),
        None => Seq::empty(),
    }
}

fn find_named_in(nodes: &Vec<TreeNode>, tag: &str, lo: usize, hi: usize) -> (r: Option<usize>)
    requires
        lo <= hi <= nodes@.len(),
    ensures
        match r {
            Some(i) => lo <= i < hi && named_in(nodes_view(nodes@), tag@, lo as int, hi as int)
                == Some(i as int),
            None => named_in(nodes_view(nodes@), tag@, lo as int, hi as int) is None,
        },
{
    let ghost d = nodes_view(nodes@);
    let mut k: usize = lo;
    while k < hi
        invariant
            lo <= k <= hi <= nodes@.len(),
            d == nodes_view(nodes@),
            named_in(d, tag@, lo as int, hi as int) == named_in(d, tag@, k as int, hi as int),
        decreases hi - k,
    {
        if named(nodes, k, tag) {
            return Some(k);
        }
        k += 1;
    }
    None
}

fn find_first_list(nodes: &Vec<TreeNode>, lo: usize, hi: usize) -> (r: Option<usize>)
    requires
        lo <= hi <= nodes@.len(),
    ensures
        match r {
            Some(i) => lo <= i < hi && first_list(nodes_view(nodes@), lo as int, hi as int) == Some(
                i as int,
            ),
            None => first_list(nodes_view(nodes@), lo as int, hi as int) is None,
        },
{
    let ghost d = nodes_view(nodes@);
    let mut k: usize = lo;
    while k < hi
        invariant
            lo <= k <= hi <= nodes@.len(),
            d == nodes_view(nodes@),
            first_list(d, lo as int, hi as int) == first_list(d, k as int, hi as int),
        decreases hi - k,
    {
        if named(nodes, k, "ol") || named(nodes, k, "ul") {
            return Some(k);
        }
        k += 1;
    }
    None
}

fn find_child(nodes: &Vec<TreeNode>, tag: &str, lo: usize, hi: usize) -> (r: Option<usize>)
    requires
        lo <= hi <= nodes@.len(),
    ensures
        match r {
            Some(i) => lo <= i < hi && child_named(nodes_view(nodes@), tag@, lo as int, hi as int)
                == Some(i as int),
            None => child_named(nodes_view(nodes@), tag@, lo as int, hi as int) is None,
        },
{
    let ghost d = nodes_view(nodes@);
    let mut k: usize = lo;
    while k < hi
        invariant
            lo <= k <= hi <= nodes@.len(),
            d == nodes_view(nodes@),
            child_named(d, tag@, lo as int, hi as int) == child_named(d, tag@, k as int, hi as int),
        decreases hi - k,
    {
        if named(nodes, k, tag) {
            return Some(k);
        }
        k = end_within(nodes, k, hi);
    }
    None
}

fn parse_nav_sublists(
    nodes: &Vec<TreeNode>,
    lo: usize,
    hi: usize,
    nav_dir: &str,
) -> (r: Vec<RawTocItem>)
    requires
        lo <= hi <= nodes@.len(),
    ensures
        tocs_view(r@) == nav_sublists(nodes_view(nodes@), lo as int, hi as int, nav_dir@),
    decreases hi - lo,
{
    let ghost d = nodes_view(nodes@);
    let mut out: Vec<RawTocItem> = Vec::new();
    let mut k: usize = lo;
    while k < hi
        invariant
            lo <= k <= hi <= nodes@.len(),
            d == nodes_view(nodes@),
            nav_sublists(d, lo as int, hi as int, nav_dir@) == tocs_view(out@) + nav_sublists(
                d,
                k as int,
                hi as int,
                nav_dir@,
            ),
        decreases hi - k,
    {
        let e = end_within(nodes, k, hi);
        if named_ignoring_case(nodes, k, "ol") || named_ignoring_case(nodes, k, "ul") {
            let ghost before = out@;
            let mut more = parse_html_toc_list(nodes, k + 1, e, nav_dir);
            let ghost added = more@;
            out.append(&mut more);
            proof {
                lemma_tocs_append(before, added);
                let rest = nav_sublists(d, e as int, hi as int, nav_dir@);
                assert(tocs_view(out@) + rest == tocs_view(before) + (tocs_view(added) + rest));
            }
        }
        k = e;
    }
    out
}

fn own_words(nodes: &Vec<TreeNode>, lo: usize, hi: usize) -> (r: String)
    requires
        lo <= hi <= nodes@.len(),
    ensures
        r@ == own_text_of(nodes_view(nodes@), lo as int, hi as int),
{
    let ghost d = nodes_view(nodes@);
    let mut parts: Vec<String> = Vec::new();
    let mut k: usize = lo;
    assert(texts(parts@) + texts_beside_lists(d, lo as int, hi as int) =~= texts_beside_lists(
        d,
        lo as int,
        hi as int,
    ));
    while k < hi
        invariant
            lo <= k <= hi <= nodes@.len(),
            d == nodes_view(nodes@),
            texts_beside_lists(d, lo as int, hi as int) == texts(parts@) + texts_beside_lists(
                d,
                k as int,
                hi as int,
            ),
        decreases hi - k,
    {
        let e = end_within(nodes, k, hi);
        if !named_ignoring_case(nodes, k, "ol") && !named_ignoring_case(nodes, k, "ul") {
            let mut more = texts_between(nodes, k, e);
            let ghost before = parts@;
            let ghost added = more@;
            let ghost rest = texts_beside_lists(d, e as int, hi as int);
            parts.append(&mut more);
            assert(texts(parts@) =~= texts(before) + texts(added));
            assert(texts(parts@) + rest =~= texts(before) + (texts(added) + rest));
        }
        k = e;
    }
    assert(texts(parts@) + texts_beside_lists(d, k as int, hi as int) =~= texts(parts@));
    let raw = join_texts(&parts, " ");
    join_texts(&split_words(raw.as_str()), " ")
}

/// The entries of the navigation list whose children are the nodes from `lo` up to `hi`.
pub fn parse_html_toc_list(nodes: &Vec<TreeNode>, lo: usize, hi: usize, nav_dir: &str) -> (r: Vec<
    RawTocItem,
>)
    requires
        lo <= hi <= nodes@.len(),
    ensures
        tocs_view(r@) == nav_entries(nodes_view(nodes@), lo as int, hi as int, nav_dir@),
    decreases hi - lo,
{
    let ghost d = nodes_view(nodes@);
    let mut out: Vec<RawTocItem> = Vec::new();
    let mut k: usize = lo;
    while k < hi
        invariant
            lo <= k <= hi <= nodes@.len(),
            d == nodes_view(nodes@),
            nav_entries(d, lo as int, hi as int, nav_dir@) == tocs_view(out@) + nav_entries(
                d,
                k as int,
                hi as int,
                nav_dir@,
            ),
        decreases hi - k,
    {
        let e = end_within(nodes, k, hi);
        if named_ignoring_case(nodes, k, "li") {
            let mut href = String::new();
            let title = match find_named_in(nodes, "a", k + 1, e) {
                Some(a) => {
                    if let Some(h) = attr_of(nodes, a, "href") {
                        href = resolve_relative_path(nav_dir, h);
                    }
                    cell_text_of(nodes, a)
                },
                None => own_words(nodes, k + 1, e),
            };
            let children = parse_nav_sublists(nodes, k + 1, e, nav_dir);
            if !title.as_str().is_empty() || !href.as_str().is_empty() {
                let ghost before = out@;
                let item = RawTocItem { title, href, children };
                out.push(item);
                proof {
                    lemma_tocs_push(before, item);
                    let rest = nav_entries(d, e as int, hi as int, nav_dir@);
                    assert(tocs_view(out@) + rest == tocs_view(before) + (seq![toc_view(item)]
                        + rest));
                }
            }
        }
        k = e;
    }
    out
}

/// The first `<nav>`, or the first with this attribute saying that it is the table of contents.
fn find_nav(nodes: &Vec<TreeNode>, attribute: Option<&str>) -> (r: Option<usize>)
    ensures
        match r {
            Some(i) => i < nodes@.len() && first_nav(
                nodes_view(nodes@),
                (match attribute {
                    Some(name) => Some(name@),
                    None => None,
                }),
            ) == Some(i as int),
            None => first_nav(
                nodes_view(nodes@),
                (match attribute {
                    Some(name) => Some(name@),
                    None => None,
                }),
            ) is None,
        },
{
    let ghost d = nodes_view(nodes@);
    let ghost asked: Option<Seq<char>> = match attribute {
        Some(name) => Some(name@),
        None => None,
    };
    let ghost p = |k: int| is_nav(d, asked, k);
    let mut best: Option<usize> = None;
    let mut k: usize = 0;
    while k < nodes.len()
        invariant
            k <= nodes@.len(),
            d == nodes_view(nodes@),
            asked == (match attribute {
                Some(name) => Some(name@),
                None => None,
            }),
            p == (|k: int| is_nav(d, asked, k)),
            match best {
                Some(b) => b < k && earliest(d, p, k as int) == Some(b as int),
                None => earliest(d, p, k as int) is None,
            },
        decreases nodes@.len() - k,
    {
        let said = match attribute {
            Some(name) => match attr_of(nodes, k, name) {
                Some(value) => same_text(value, "toc"),
                None => false,
            },
            None => true,
        };
        if said && named(nodes, k, "nav") && parent_of(nodes, k).is_some() {
            match best {
                Some(b) => {
                    if nodes[k].rank < nodes[b].rank {
                        best = Some(k);
                    }
                },
                None => {
                    best = Some(k);
                },
            }
        }
        k += 1;
    }
    best
}

fn find_toc_nav(nodes: &Vec<TreeNode>) -> (r: Option<usize>)
    ensures
        match r {
            Some(i) => i < nodes@.len() && toc_nav(nodes_view(nodes@)) == Some(i as int),
            None => toc_nav(nodes_view(nodes@)) is None,
        },
{
    let typed = find_nav(nodes, Some("epub:type"));
    if typed.is_some() {
        return typed;
    }
    let called = find_nav(nodes, Some("id"));
    if called.is_some() {
        return called;
    }
    find_nav(nodes, None)
}

/// The table of contents in the navigation document with these nodes.
pub fn nav_toc_from_nodes(nodes: &Vec<TreeNode>, nav_dir: &str) -> (r: Vec<RawTocItem>)
    ensures
        tocs_view(r@) == nav_toc(nodes_view(nodes@), nav_dir@),
{
    if let Some(n) = find_toc_nav(nodes) {
        let e = end_of(nodes, n);
        if let Some(l) = find_first_list(nodes, n + 1, e) {
            let list_end = end_of(nodes, l);
            return parse_html_toc_list(nodes, l + 1, list_end, nav_dir);
        }
    }
    Vec::new()
}

/// Parses the table of contents in an EPUB 3 navigation document.
pub fn parse_nav_xhtml(nav_xhtml: &str, nav_dir: &str) -> (r: Vec<RawTocItem>)
    ensures
        tocs_view(r@) == nav_toc(document_nodes(nav_xhtml@), nav_dir@),
{
    let document = HtmlDocument::parse(nav_xhtml.to_owned());
    nav_toc_from_nodes(&document.nodes, nav_dir)
}

fn point_title(nodes: &Vec<TreeNode>, i: usize, e: usize) -> (r: String)
    requires
        i < e <= nodes@.len(),
    ensures
        r@ == ncx_title(nodes_view(nodes@), i as int, e as int),
{
    if let Some(l) = find_child(nodes, "navLabel", i + 1, e) {
        let label_end = end_within(nodes, l, e);
        if let Some(t) = find_child(nodes, "text", l + 1, label_end) {
            proof {
                reveal_strlit("");
                assert(""@ =~= Seq::<char>::empty());
            }
            return unwrap_text(first_child_text(nodes, t, end_within(nodes, t, label_end)), "");
        }
    }
    String::new()
}

fn point_href(nodes: &Vec<TreeNode>, i: usize, e: usize, dir: &str) -> (r: String)
    requires
        i < e <= nodes@.len(),
    ensures
        r@ == ncx_href(nodes_view(nodes@), i as int, e as int, dir@),
{
    if let Some(c) = find_child(nodes, "content", i + 1, e) {
        if let Some(src) = attr_of(nodes, c, "src") {
            return resolve_relative_path(dir, src);
        }
    }
    String::new()
}

/// The entries of the navigation points among the sibling nodes from `lo` up to `hi`.
pub fn parse_ncx_nav_points(nodes: &Vec<TreeNode>, lo: usize, hi: usize, ncx_dir: &str) -> (r: Vec<
    RawTocItem,
>)
    requires
        lo <= hi <= nodes@.len(),
    ensures
        tocs_view(r@) == ncx_entries(nodes_view(nodes@), lo as int, hi as int, ncx_dir@),
    decreases hi - lo,
{
    let ghost d = nodes_view(nodes@);
    let mut out: Vec<RawTocItem> = Vec::new();
    let mut k: usize = lo;
    while k < hi
        invariant
            lo <= k <= hi <= nodes@.len(),
            d == nodes_view(nodes@),
            ncx_entries(d, lo as int, hi as int, ncx_dir@) == tocs_view(out@) + ncx_entries(
                d,
                k as int,
                hi as int,
                ncx_dir@,
            ),
        decreases hi - k,
    {
        let e = end_within(nodes, k, hi);
        if named(nodes, k, "navPoint") {
            let title = point_title(nodes, k, e);
            let href = point_href(nodes, k, e, ncx_dir);
            let children = parse_ncx_nav_points(nodes, k + 1, e, ncx_dir);
            if !title.as_str().is_empty() || !href.as_str().is_empty() {
                let ghost before = out@;
                let item = RawTocItem { title, href, children };
                out.push(item);
                proof {
                    lemma_tocs_push(before, item);
                    let rest = ncx_entries(d, e as int, hi as int, ncx_dir@);
                    assert(tocs_view(out@) + rest == tocs_view(before) + (seq![toc_view(item)]
                        + rest));
                }
            }
        }
        k = e;
    }
    out
}

/// The table of contents in the NCX document with these nodes.
pub fn ncx_toc_from_nodes(nodes: &Vec<TreeNode>, ncx_dir: &str) -> (r: Vec<RawTocItem>)
    ensures
        tocs_view(r@) == ncx_toc(nodes_view(nodes@), ncx_dir@),
{
    match find_named(nodes, "navMap", 0) {
        Some(m) => {
            let e = end_of(nodes, m);
            parse_ncx_nav_points(nodes, m + 1, e, ncx_dir)
        },
        None => Vec::new(),
    }
}

/// The table of contents in the text of an NCX document; empty where it is not well-formed.
pub open spec fn ncx_text_toc(text: Seq<char>, dir: Seq<char>) -> Seq<TocView> {
    match xml_nodes(text) {
        Ok(d) => ncx_toc(d, dir),
        Err(_) => Seq::empty(),
    }
}

/// Parses the table of contents in an EPUB 2 NCX document.
pub fn parse_toc_ncx(ncx_xml: &str, ncx_dir: &str) -> (r: Vec<RawTocItem>)
    ensures
        tocs_view(r@) == ncx_text_toc(ncx_xml@, ncx_dir@),
{
    match parse_xml(ncx_xml) {
        Ok(nodes) => ncx_toc_from_nodes(&nodes, ncx_dir),
        Err(_) => Vec::new(),
    }
}

/// The table of contents in a document at this path: read as an NCX document if it looks like
/// one, and as a navigation document if that gave nothing.
pub open spec fn document_toc(path: Seq<char>, content: Seq<char>) -> Seq<TocView> {
    let dir = parent_dir(path);
    let as_ncx = ncx_text_toc(content, dir);
    if (ends_with(path, ".ncx"@) || contains(content, "<ncx"@)) && as_ncx.len() > 0 {
        as_ncx
    } else {
        nav_toc(document_nodes(content), dir)
    }
}

/// Reads the table of contents from the document at `toc_path` with this content.
pub fn toc_of_document(toc_path: &str, content: &str) -> (r: Vec<RawTocItem>)
    ensures
        tocs_view(r@) == document_toc(toc_path@, content@),
{
    let toc_dir = get_parent_dir(toc_path);
    if closes_with(toc_path, ".ncx") || contains_text(content, "<ncx") {
        let items = parse_toc_ncx(content, toc_dir.as_str());
        proof {
            lemma_tocs_len(items@);
        }
        if items.len() > 0 {
            return items;
        }
    }
    parse_nav_xhtml(content, toc_dir.as_str())
}

/// There is one view for each entry.
pub proof fn lemma_tocs_len(items: Seq<RawTocItem>)
    ensures
        tocs_view(items).len() == items.len(),
    decreases items.len(),
{
    if items.len() > 0 {
        lemma_tocs_len(items.drop_last());
    }
}

/// The item is an NCX document, by its path or its media type.
pub open spec fn is_ncx_item(item: ManifestView, dir: Seq<char>) -> bool {
    ends_with(resolved(dir, item.href), ".ncx"@) || item.media_type == "application/x-dtbncx+xml"@
}

/// The paths of the NCX documents among the items.
pub open spec fn ncx_paths_of(items: Seq<ManifestView>, dir: Seq<char>) -> Seq<Seq<char>>
    decreases items.len(),
{
    if items.len() == 0 {
        Seq::empty()
    } else {
        let before = ncx_paths_of(items.drop_last(), dir);
        if is_ncx_item(items.last(), dir) {
            before.push(resolved(dir, items.last().href))
        } else {
            before
        }
    }
}

/// The paths of all NCX documents in the manifest.
pub fn ncx_paths(items: &Vec<ManifestItem>, dir: &str) -> (r: Vec<String>)
    ensures
        texts(r@) == ncx_paths_of(manifest_view(items@), dir@),
{
    let ghost all = manifest_view(items@);
    let mut out: Vec<String> = Vec::new();
    let mut k: usize = 0;
    assert(texts(out@) == ncx_paths_of(all.take(0), dir@));
    while k < items.len()
        invariant
            k <= items@.len(),
            all == manifest_view(items@),
            texts(out@) == ncx_paths_of(all.take(k as int), dir@),
        decreases items@.len() - k,
    {
        let item = &items[k];
        let path = resolve_relative_path(dir, item.href.as_str());
        let ghost before = out@;
        if closes_with(path.as_str(), ".ncx") || same_text(
            item.media_type.as_str(),
            "application/x-dtbncx+xml",
        ) {
            out.push(path);
            assert(texts(out@) == texts(before).push(path@));
        }
        k += 1;
        assert(all.take(k as int).drop_last() == all.take(k - 1));
        assert(all.take(k as int).last() == item@);
    }
    assert(all.take(k as int) == all);
    out
}

/// Whether every entry of a table of contents, however deep, has a title or leads somewhere.
pub open spec fn entries_say_something(items: Seq<TocView>) -> bool
    decreases items,
{
    items.len() == 0 || {
        &&& entries_say_something(items.drop_last())
        &&& items.last().title.len() > 0 || items.last().href.len() > 0
        &&& entries_say_something(items.last().children)
    }
}

proof fn lemma_both_say_something(a: Seq<TocView>, b: Seq<TocView>)
    requires
        entries_say_something(a),
        entries_say_something(b),
    ensures
        entries_say_something(a + b),
    decreases b.len(),
{
    if b.len() == 0 {
        assert(a + b =~= a);
    } else {
        lemma_both_say_something(a, b.drop_last());
        assert((a + b).drop_last() =~= a + b.drop_last());
        assert((a + b).last() == b.last());
    }
}

proof fn lemma_one_says_something(t: TocView)
    requires
        t.title.len() > 0 || t.href.len() > 0,
        entries_say_something(t.children),
    ensures
        entries_say_something(seq![t]),
{
    assert(seq![t].drop_last() =~= Seq::<TocView>::empty());
    assert(entries_say_something(Seq::<TocView>::empty()));
    assert(seq![t].last() == t);
}

proof fn lemma_nav_entries(d: Seq<NodeView>, lo: int, hi: int, dir: Seq<char>)
    ensures
        entries_say_something(nav_entries(d, lo, hi, dir)),
        entries_say_something(nav_sublists(d, lo, hi, dir)),
    decreases hi - lo,
{
    if lo < hi {
        let e = node_end(d, lo, hi);
        lemma_nav_entries(d, e, hi, dir);
        lemma_nav_entries(d, lo + 1, e, dir);
        let now = nav_entries(d, lo, hi, dir);
        let rest = nav_entries(d, e, hi, dir);
        if now != rest {
            let t = now[0];
            lemma_one_says_something(t);
            lemma_both_say_something(seq![t], rest);
        }
        lemma_both_say_something(nav_entries(d, lo + 1, e, dir), nav_sublists(d, e, hi, dir));
    }
}

proof fn lemma_ncx_entries(d: Seq<NodeView>, lo: int, hi: int, dir: Seq<char>)
    ensures
        entries_say_something(ncx_entries(d, lo, hi, dir)),
    decreases hi - lo,
{
    if lo < hi {
        let e = node_end(d, lo, hi);
        lemma_ncx_entries(d, e, hi, dir);
        lemma_ncx_entries(d, lo + 1, e, dir);
        let now = ncx_entries(d, lo, hi, dir);
        let rest = ncx_entries(d, e, hi, dir);
        if now != rest {
            let t = now[0];
            lemma_one_says_something(t);
            lemma_both_say_something(seq![t], rest);
        }
    }
}

/// No entry of a table of contents is without both a title and a place that it leads to.
pub proof fn toc_entries_say_something(path: Seq<char>, content: Seq<char>)
    ensures
        entries_say_something(document_toc(path, content)),
        entries_say_something(ncx_text_toc(content, parent_dir(path))),
{
    let dir = parent_dir(path);
    let html = document_nodes(content);
    match toc_nav(html) {
        Some(n) => match first_list(html, n + 1, subtree_end(html, n)) {
            Some(l) => lemma_nav_entries(html, l + 1, subtree_end(html, l), dir),
            None => {},
        },
        None => {},
    }
    if let Ok(d) = xml_nodes(content) {
        if let Some(m) = first_named(d, "navMap"@, 0) {
            lemma_ncx_entries(d, m + 1, subtree_end(d, m), dir);
        }
    }
}

} // verus!
