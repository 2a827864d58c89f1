//! The library, the vocabulary, and the names of book files.

use vstd::prelude::*;

use crate::schema::{opt_str, opt_text};
use crate::text::{chars_of, same_text};
use crate::toolkit::{first_bytes, shorten};

verus! {

/// One keyboard shortcut: the value of a key, and the modifier bits that count.
#[derive(Debug, Clone, Copy, PartialEq, Eq, Hash, Structural)]
pub struct KeyBinding {
    pub keyval: u32,
    pub modifiers: u32,
}

// ---------------------------------------------------------------------------
// Library
// ---------------------------------------------------------------------------

/// One book of the library.
pub struct LibraryEntry {
    pub path: String,
    pub title: String,
    pub author: Option<String>,
    pub added_at: i64,
    pub last_opened_at: i64,
    pub last_position_node_id: Option<i64>,
    /// How far the reader has come, from nothing to all of the book, as an integer that orders
    /// like the fraction: the bits of the double-precision number, negated for a negative one.
    pub last_position_percent: Option<i64>,
    pub language: Option<String>,
    /// SHA-256 of the EPUB file that the book was compiled from.
    pub content_hash: Option<String>,
    /// Whether the book is offered to other devices.
    pub shared: Option<bool>,
}

/// The integer that stands for the whole of a book.
pub const WHOLE_BOOK: i64 = 0x3ff0000000000000;

/// The mathematical view of a [`LibraryEntry`].
#[verifier::ext_equal]
pub struct EntryView {
    pub path: Seq<char>,
    pub title: Seq<char>,
    pub author: Option<Seq<char>>,
    pub added_at: int,
    pub last_opened_at: int,
    pub last_position_node_id: Option<i64>,
    pub last_position_percent: Option<i64>,
    pub language: Option<Seq<char>>,
    pub content_hash: Option<Seq<char>>,
    pub shared: Option<bool>,
}

impl View for LibraryEntry {
    type V = EntryView;

    open spec fn view(&self) -> EntryView {
        EntryView {
            path: self.path@,
            title: self.title@,
            author: opt_text(self.author),
            added_at: self.added_at as int,
            last_opened_at: self.last_opened_at as int,
            last_position_node_id: self.last_position_node_id,
            last_position_percent: self.last_position_percent,
            language: opt_text(self.language),
            content_hash: opt_text(self.content_hash),
            shared: self.shared,
        }
    }
}

/// The views of library entries.
pub open spec fn entries_view(entries: Seq<LibraryEntry>) -> Seq<EntryView> {
    entries.map_values(|e: LibraryEntry| e@)
}

/// The place of the first entry from `k` on with this path.
pub open spec fn entry_at_path(entries: Seq<EntryView>, path: Seq<char>, k: int) -> Option<int>
    decreases entries.len() - k,
{
    if k < 0 || k >= entries.len() {
        None
    } else if entries[k].path == path {
        Some(k)
    } else {
        entry_at_path(entries, path, k + 1)
    }
}

/// The library after a book was opened or imported: the entry with its path is brought up to date,
/// with its reading position, its sharing and, unless there is a new one, its hash kept; without
/// such an entry there is a new one.
pub open spec fn upserted(
    entries: Seq<EntryView>,
    path: Seq<char>,
    title: Seq<char>,
    author: Option<Seq<char>>,
    language: Option<Seq<char>>,
    content_hash: Option<Seq<char>>,
    now: int,
) -> Seq<EntryView> {
    match entry_at_path(entries, path, 0) {
        Some(i) => entries.update(
            i,
            EntryView {
                title,
                author,
                language,
                content_hash: if content_hash is Some {
                    content_hash
                } else {
                    entries[i].content_hash
                },
                last_opened_at: now,
                ..entries[i]
            },
        ),
        None => entries.push(
            EntryView {
                path,
                title,
                author,
                added_at: now,
                last_opened_at: now,
                last_position_node_id: None,
                last_position_percent: None,
                language,
                content_hash,
                shared: None,
            },
        ),
    }
}

/// The library after the entry with this path, if there is one, was marked as shared or not.
pub open spec fn with_shared(
    entries: Seq<EntryView>,
    path: Seq<char>,
    shared: bool,
) -> Seq<EntryView> {
    match entry_at_path(entries, path, 0) {
        Some(i) => entries.update(i, EntryView { shared: Some(shared), ..entries[i] }),
        None => entries,
    }
}

/// The library after the language of the entry with this path, if there is one, was set.
pub open spec fn with_language(
    entries: Seq<EntryView>,
    path: Seq<char>,
    language: Option<Seq<char>>,
) -> Seq<EntryView> {
    match entry_at_path(entries, path, 0) {
        Some(i) => entries.update(i, EntryView { language, ..entries[i] }),
        None => entries,
    }
}

/// A fraction of a book, between nothing and the whole.
pub open spec fn clamped(percent: i64) -> i64 {
    if percent < 0 {
        0
    } else if percent > WHOLE_BOOK {
        WHOLE_BOOK
    } else {
        percent
    }
}

/// The library after the reading position of the entry with this path, if there is one, was set.
pub open spec fn with_position(
    entries: Seq<EntryView>,
    path: Seq<char>,
    node_id: i64,
    percent: i64,
) -> Seq<EntryView> {
    match entry_at_path(entries, path, 0) {
        Some(i) => entries.update(
            i,
            EntryView {
                last_position_node_id: Some(node_id),
                last_position_percent: Some(clamped(percent)),
                ..entries[i]
            },
        ),
        None => entries,
    }
}

/// The place of the entry with this path.
pub fn find_entry(entries: &Vec<LibraryEntry>, path: &str) -> (r: Option<usize>)
    ensures
        match r {
            Some(i) => i < entries@.len() && entry_at_path(entries_view(entries@), path@, 0) == Some(
                i as int,
            ),
            None => entry_at_path(entries_view(entries@), path@, 0) is None,
        },
{
    let ghost all = entries_view(entries@);
    let mut k: usize = 0;
    while k < entries.len()
        invariant
            k <= entries@.len(),
            all == entries_view(entries@),
            entry_at_path(all, path@, 0) == entry_at_path(all, path@, k as int),
        decreases entries@.len() - k,
    {
        assert(all[k as int] == entries@[k as int]@);
        if same_text(entries[k].path.as_str(), path) {
            return Some(k);
        }
        k += 1;
    }
    None
}

fn copy_text(s: Option<&str>) -> (r: Option<String>)
    ensures
        opt_text(r) == opt_str(s),
{
    match s {
        Some(t) => Some(t.to_owned()),
        None => None,
    }
}

fn copy_entry(e: &LibraryEntry) -> (r: LibraryEntry)
    ensures
        r@ == e@,
{
    LibraryEntry {
        path: e.path.clone(),
        title: e.title.clone(),
        author: e.author.clone(),
        added_at: e.added_at,
        last_opened_at: e.last_opened_at,
        last_position_node_id: e.last_position_node_id,
        last_position_percent: e.last_position_percent,
        language: e.language.clone(),
        content_hash: e.content_hash.clone(),
        shared: e.shared,
    }
}

fn replace_entry(entries: &mut Vec<LibraryEntry>, i: usize, e: LibraryEntry)
    requires
        i < old(entries)@.len(),
    ensures
        entries_view(final(entries)@) == entries_view(old(entries)@).update(i as int, e@),
{
    let ghost before = entries@;
    entries.set(i, e);
    assert(entries_view(entries@) =~= entries_view(before).update(i as int, e@));
}

/// Brings the library up to date with a book that was opened or imported at the time `now`.
pub fn upsert_library_entry(
    entries: &mut Vec<LibraryEntry>,
    path: &str,
    title: &str,
    author: Option<&str>,
    language: Option<&str>,
    content_hash: Option<&str>,
    now: i64,
)
    ensures
        entries_view(final(entries)@) == upserted(
            entries_view(old(entries)@),
            path@,
            title@,
            opt_str(author),
            opt_str(language),
            opt_str(content_hash),
            now as int,
        ),
{
    match find_entry(entries, path) {
        Some(i) => {
            let mut e = copy_entry(&entries[i]);
            e.title = title.to_owned();
            e.author = copy_text(author);
            e.language = copy_text(language);
            if content_hash.is_some() {
                e.content_hash = copy_text(content_hash);
            }
            e.last_opened_at = now;
            replace_entry(entries, i, e);
        },
        None => {
            let ghost before = entries@;
            let e = LibraryEntry {
                path: path.to_owned(),
                title: title.to_owned(),
                author: copy_text(author),
                added_at: now,
                last_opened_at: now,
                last_position_node_id: None,
                last_position_percent: None,
                language: copy_text(language),
                content_hash: copy_text(content_hash),
                shared: None,
            };
            entries.push(e);
            assert(entries_view(entries@) =~= entries_view(before).push(e@));
        },
    }
}

/// Marks a book as offered to other devices, or not. Says whether the library holds the book.
pub fn set_library_entry_shared(
    entries: &mut Vec<LibraryEntry>,
    path: &str,
    shared: bool,
) -> (r: bool)
    ensures
        entries_view(final(entries)@) == with_shared(entries_view(old(entries)@), path@, shared),
        r == entry_at_path(entries_view(old(entries)@), path@, 0) is Some,
{
    match find_entry(entries, path) {
        Some(i) => {
            let mut e = copy_entry(&entries[i]);
            e.shared = Some(shared);
            replace_entry(entries, i, e);
            true
        },
        None => false,
    }
}

/// Sets or clears the language of a book. Says whether the library holds the book.
pub fn set_library_entry_language(
    entries: &mut Vec<LibraryEntry>,
    path: &str,
    language: Option<&str>,
) -> (r: bool)
    ensures
        entries_view(final(entries)@) == with_language(
            entries_view(old(entries)@),
            path@,
            opt_str(language),
        ),
        r == entry_at_path(entries_view(old(entries)@), path@, 0) is Some,
{
    match find_entry(entries, path) {
        Some(i) => {
            let mut e = copy_entry(&entries[i]);
            e.language = copy_text(language);
            replace_entry(entries, i, e);
            true
        },
        None => false,
    }
}

/// Sets the reading position of a book, the fraction brought between nothing and the whole. Says
/// whether the library holds the book.
pub fn update_reading_position(
    entries: &mut Vec<LibraryEntry>,
    path: &str,
    node_id: i64,
    percent: i64,
) -> (r: bool)
    ensures
        entries_view(final(entries)@) == with_position(
            entries_view(old(entries)@),
            path@,
            node_id,
            percent,
        ),
        r == entry_at_path(entries_view(old(entries)@), path@, 0) is Some,
{
    match find_entry(entries, path) {
        Some(i) => {
            let mut e = copy_entry(&entries[i]);
            e.last_position_node_id = Some(node_id);
            e.last_position_percent = Some(
                if percent < 0 {
                    0
                } else if percent > WHOLE_BOOK {
                    WHOLE_BOOK
                } else {
                    percent
                },
            );
            replace_entry(entries, i, e);
            true
        },
        None => false,
    }
}

/// Forgets the node at which a book was last left. Says whether the library holds the book.
pub fn clear_last_position(entries: &mut Vec<LibraryEntry>, path: &str) -> (r: bool)
    ensures
        entries_view(final(entries)@) == (match entry_at_path(entries_view(old(entries)@), path@, 0) {
            Some(i) => entries_view(old(entries)@).update(
                i,
                EntryView { last_position_node_id: None, ..entries_view(old(entries)@)[i] },
            ),
            None => entries_view(old(entries)@),
        }),
        r == entry_at_path(entries_view(old(entries)@), path@, 0) is Some,
{
    match find_entry(entries, path) {
        Some(i) => {
            let mut e = copy_entry(&entries[i]);
            e.last_position_node_id = None;
            replace_entry(entries, i, e);
            true
        },
        None => false,
    }
}

/// The places of the books whose language is not known.
pub open spec fn without_language(entries: Seq<EntryView>, n: int) -> Seq<Seq<char>>
    decreases n,
{
    if n <= 0 {
        Seq::empty()
    } else if entries[n - 1].language is None {
        without_language(entries, n - 1).push(entries[n - 1].path)
    } else {
        without_language(entries, n - 1)
    }
}

/// The paths of the books whose language is not known.
pub fn paths_without_language(entries: &Vec<LibraryEntry>) -> (r: Vec<String>)
    ensures
        crate::text::texts(r@) == without_language(entries_view(entries@), entries@.len() as int),
{
    let ghost all = entries_view(entries@);
    let mut out: Vec<String> = Vec::new();
    let mut k: usize = 0;
    assert(crate::text::texts(out@) =~= Seq::<Seq<char>>::empty());
    while k < entries.len()
        invariant
            k <= entries@.len(),
            all == entries_view(entries@),
            crate::text::texts(out@) == without_language(all, k as int),
        decreases entries@.len() - k,
    {
        let e = &entries[k];
        assert(all[k as int] == e@);
        if e.language.is_none() {
            let ghost before = out@;
            out.push(e.path.clone());
            assert(crate::text::texts(out@) =~= crate::text::texts(before).push(e.path@));
        }
        k += 1;
    }
    out
}

// ---------------------------------------------------------------------------
// Vocabulary
// ---------------------------------------------------------------------------

/// A word that a reader has kept, with what stood around it.
pub struct VocabEntry {
    pub id: i64,
    pub word: String,
    pub definition: String,
    pub context_before: String,
    pub context_after: String,
    pub book_title: String,
    pub added_at: i64,
}

/// The mathematical view of a [`VocabEntry`].
#[verifier::ext_equal]
pub struct VocabView {
    pub id: int,
    pub word: Seq<char>,
    pub definition: Seq<char>,
    pub context_before: Seq<char>,
    pub context_after: Seq<char>,
    pub book_title: Seq<char>,
    pub added_at: int,
}

impl View for VocabEntry {
    type V = VocabView;

    open spec fn view(&self) -> VocabView {
        VocabView {
            id: self.id as int,
            word: self.word@,
            definition: self.definition@,
            context_before: self.context_before@,
            context_after: self.context_after@,
            book_title: self.book_title@,
            added_at: self.added_at as int,
        }
    }
}

/// The views of vocabulary entries.
pub open spec fn vocab_view(entries: Seq<VocabEntry>) -> Seq<VocabView> {
    entries.map_values(|e: VocabEntry| e@)
}

/// Whether a word is kept under this id.
pub open spec fn holds_id(entries: Seq<VocabView>, id: int) -> bool {
    exists|i: int| 0 <= i < entries.len() && (#[trigger] entries[i]).id == id
}

/// The id that comes `k` places after `id`; the lowest comes after the highest.
pub open spec fn later_id(id: i64, k: nat) -> int {
    if id + k <= i64::MAX {
        id + k
    } else {
        id + k - 0x1_0000_0000_0000_0000
    }
}

/// Whether `free` is the first id, from `id` on, that no word is kept under.
pub open spec fn is_next_free_id(entries: Seq<VocabView>, id: i64, free: int) -> bool {
    exists|k: nat|
        #![trigger later_id(id, k)]
        free == later_id(id, k) && !holds_id(entries, free) && (forall|m: nat|
            m < k ==> holds_id(entries, #[trigger] later_id(id, m)))
}

/// Where ids are tried one after another, at least as many words are kept as were tried in vain.
proof fn lemma_ids_run_out(entries: Seq<VocabView>, id: i64, n: nat)
    requires
        n <= 0x1_0000_0000_0000_0000,
        forall|m: nat| m < n ==> holds_id(entries, #[trigger] later_id(id, m)),
    ensures
        n <= entries.len(),
    decreases n,
{
    if n > 0 {
        let last = (n - 1) as nat;
        assert(holds_id(entries, later_id(id, last)));
        let at = choose|i: int| 0 <= i < entries.len() && (#[trigger] entries[i]).id == later_id(id, last);
        let rest = entries.remove(at);
        assert forall|m: nat| m < last implies holds_id(rest, #[trigger] later_id(id, m)) by {
            assert(holds_id(entries, later_id(id, m)));
            let j = choose|i: int| 0 <= i < entries.len() && (#[trigger] entries[i]).id == later_id(id, m);
            assert(j != at);
            assert(rest[if j < at { j } else { j - 1 }] == entries[j]);
        }
        lemma_ids_run_out(rest, id, last);
    }
}

fn keeps_id(entries: &Vec<VocabEntry>, id: i64) -> (r: bool)
    ensures
        r == holds_id(vocab_view(entries@), id as int),
{
    let ghost all = vocab_view(entries@);
    let mut i: usize = 0;
    while i < entries.len()
        invariant
            i <= entries@.len(),
            all == vocab_view(entries@),
            forall|k: int| 0 <= k < i ==> (#[trigger] all[k]).id != id,
        decreases entries@.len() - i,
    {
        assert(all[i as int] == entries@[i as int]@);
        if entries[i].id == id {
            return true;
        }
        i += 1;
    }
    false
}

/// The first id, from `id` on, that no word is kept under.
pub fn next_free_id(entries: &Vec<VocabEntry>, id: i64) -> (r: i64)
    ensures
        is_next_free_id(vocab_view(entries@), id, r as int),
{
    let ghost all = vocab_view(entries@);
    let mut free: i64 = id;
    let mut tried: usize = 0;
    let total: usize = entries.len();
    while keeps_id(entries, free)
        invariant
            tried <= total == entries@.len(),
            all == vocab_view(entries@),
            free == later_id(id, tried as nat),
            forall|m: nat| m < tried ==> holds_id(all, #[trigger] later_id(id, m)),
        decreases total - tried,
    {
        proof {
            assert forall|m: nat| m < tried + 1 implies holds_id(all, #[trigger] later_id(id, m)) by {
                if m == tried {
                    assert(later_id(id, m) == free);
                }
            }
            lemma_ids_run_out(all, id, (tried + 1) as nat);
        }
        free = if free == i64::MAX { i64::MIN } else { free + 1 };
        tried += 1;
    }
    assert(is_next_free_id(all, id, later_id(id, tried as nat)));
    free
}

/// Adds a word, kept at the time `now` under this id, or under the next that is free.
pub fn add_vocab_entry(
    entries: &mut Vec<VocabEntry>,
    id: i64,
    word: &str,
    definition: &str,
    context_before: &str,
    context_after: &str,
    book_title: &str,
    now: i64,
)
    ensures
        final(entries)@.len() == old(entries)@.len() + 1,
        is_next_free_id(
            vocab_view(old(entries)@),
            id,
            vocab_view(final(entries)@)[old(entries)@.len() as int].id,
        ),
        !holds_id(
            vocab_view(old(entries)@),
            vocab_view(final(entries)@)[old(entries)@.len() as int].id,
        ),
        !holds_id(vocab_view(old(entries)@), id as int) ==> vocab_view(final(entries)@)[old(
            entries,
        )@.len() as int].id == id,
        vocab_view(final(entries)@) == vocab_view(old(entries)@).push(
            VocabView {
                id: vocab_view(final(entries)@)[old(entries)@.len() as int].id,
                word: word@,
                definition: definition@,
                context_before: context_before@,
                context_after: context_after@,
                book_title: book_title@,
                added_at: now as int,
            },
        ),
{
    let ghost before = entries@;
    let free: i64 = next_free_id(entries, id);
    let e = VocabEntry {
        id: free,
        word: word.to_owned(),
        definition: definition.to_owned(),
        context_before: context_before.to_owned(),
        context_after: context_after.to_owned(),
        book_title: book_title.to_owned(),
        added_at: now,
    };
    entries.push(e);
    assert(vocab_view(entries@) =~= vocab_view(before).push(e@));
    proof {
        free_ids_are_new(vocab_view(before), id, free as int, free as int);
    }
}

/// Removes the words kept under this id.
pub fn remove_vocab_entry(entries: &mut Vec<VocabEntry>, id: i64)
    ensures
        vocab_view(final(entries)@) == vocab_view(old(entries)@).filter(|e: VocabView| e.id != id),
{
    let ghost all = vocab_view(entries@);
    let ghost keep = |e: VocabView| e.id != id;
    let mut i: usize = 0;
    proof {
        assert(all.take(0) =~= Seq::empty());
        reveal(Seq::filter);
        assert(all.take(0).filter(keep) =~= Seq::empty());
        assert(all.skip(0) =~= all);
        assert(Seq::<VocabView>::empty() + all =~= all);
    }
    let ghost mut done: int = 0;
    while i < entries.len()
        invariant
            0 <= done <= all.len(),
            keep == (|e: VocabView| e.id != id),
            i <= entries@.len(),
            vocab_view(entries@) == all.take(done).filter(keep) + all.skip(done),
            i == all.take(done).filter(keep).len(),
        decreases entries@.len() - i,
    {
        let ghost before = entries@;
        let ghost kept = all.take(done).filter(keep);
        assert(vocab_view(before)[i as int] == all.skip(done)[0]);
        assert(vocab_view(before)[i as int] == before[i as int]@);
        assert(all.skip(done)[0] == all[done]);
        proof {
            all.take(done).lemma_filter_push(all[done], keep);
            assert(all.take(done).push(all[done]) =~= all.take(done + 1));
        }
        if entries[i].id == id {
            entries.remove(i);
            assert(vocab_view(entries@) =~= vocab_view(before).remove(i as int));
            assert(vocab_view(before).remove(i as int) =~= kept + all.skip(done + 1));
        } else {
            assert(kept + all.skip(done) =~= kept.push(all[done]) + all.skip(done + 1));
            i += 1;
        }
        proof {
            done = done + 1;
        }
    }
    proof {
        assert(vocab_view(entries@).len() == all.take(done).filter(keep).len());
        assert(all.skip(done).len() == 0);
        assert(all.take(done) =~= all);
        assert(all.filter(keep) + all.skip(done) =~= all.filter(keep));
    }
}

// ---------------------------------------------------------------------------
// File names
// ---------------------------------------------------------------------------

/// An ASCII letter or digit.
pub open spec fn is_ascii_alphanumeric(c: char) -> bool {
    let n = c as u32;
    48 <= n <= 57 || 65 <= n <= 90 || 97 <= n <= 122
}

/// Whether `c` is an ASCII letter or digit.
pub fn ascii_alphanumeric(c: char) -> (r: bool)
    ensures
        r == is_ascii_alphanumeric(c),
{
    let n: u32 = c as u32;
    (48 <= n && n <= 57) || (65 <= n && n <= 90) || (97 <= n && n <= 122)
}

/// A character as it stands in a file name.
pub open spec fn file_char(c: char) -> char {
    if is_ascii_alphanumeric(c) || c == '-' || c == '_' {
        c
    } else {
        '_'
    }
}

/// A text as it stands in a file name.
pub open spec fn file_stem(s: Seq<char>) -> Seq<char> {
    if s.len() == 0 {
        "book"@
    } else {
        s.map_values(|c: char| file_char(c))
    }
}

/// A text as it stands in a file name.
pub fn sanitize_stem(s: &str) -> (r: String)
    ensures
        r@ == file_stem(s@),
{
    let v = chars_of(s);
    if v.len() == 0 {
        return "book".to_owned();
    }
    let ghost want = s@.map_values(|c: char| file_char(c));
    let mut out = String::new();
    let mut i: usize = 0;
    while i < v.len()
        invariant
            v@ == s@,
            i <= v@.len(),
            want == s@.map_values(|c: char| file_char(c)),
            out@ == want.take(i as int),
        decreases v@.len() - i,
    {
        let c: char = v[i];
        let d: char = if ascii_alphanumeric(c) || c == '-' || c == '_' { c } else { '_' };
        out.push(d);
        i += 1;
        assert(want.take(i as int) =~= want.take(i - 1).push(d));
    }
    assert(want.take(i as int) =~= want);
    out
}

/// The name of the file that a book received from another device is kept in, made from its hash
/// and its title.
pub open spec fn received_name(content_hash: Seq<char>, title: Seq<char>) -> Seq<char> {
    file_stem(title) + "-"@ + first_bytes(content_hash, 16) + ".wld"@
}

/// The name of the file that a book received from another device is kept in, made from its hash
/// and its title.
pub fn received_wld_output_path(content_hash: &str, title: &str) -> (r: String)
    ensures
        r@ == received_name(content_hash@, title@),
{
    let mut out = sanitize_stem(title);
    out.append("-");
    out.append(shorten(content_hash, 16).as_str());
    out.append(".wld");
    out
}

/// The hexadecimal digit of a number below sixteen.
pub open spec fn hex_digit(d: nat) -> char {
    if d < 10 {
        (48 + d) as char
    } else {
        (87 + d) as char
    }
}

/// The last `width` hexadecimal digits of a number.
pub open spec fn hex_digits(n: nat, width: nat) -> Seq<char>
    decreases width,
{
    if width == 0 {
        Seq::empty()
    } else {
        hex_digits(n / 16, (width - 1) as nat).push(hex_digit(n % 16))
    }
}

fn push_hex(out: &mut String, n: u64, width: usize)
    ensures
        final(out)@ == old(out)@ + hex_digits(n as nat, width as nat),
    decreases width,
{
    let ghost before = out@;
    if width > 0 {
        push_hex(out, n / 16, width - 1);
        let d: u8 = (n % 16) as u8;
        let c: char = if d < 10 { (48 + d) as char } else { (87 + d) as char };
        out.push(c);
    }
    assert(out@ =~= before + hex_digits(n as nat, width as nat));
}

/// The name of the file that a book compiled from a file of this stem, whose path has this hash,
/// is kept in.
pub open spec fn sandboxed_name(stem: Seq<char>, hash: u64) -> Seq<char> {
    file_stem(stem) + "-"@ + hex_digits(hash as nat, 16) + ".wld"@
}

/// The name of the file that a book compiled from a file of this stem, whose path has this hash,
/// is kept in.
pub fn sandboxed_wld_output_path(stem: &str, hash: u64) -> (r: String)
    ensures
        r@ == sandboxed_name(stem@, hash),
{
    let mut out = sanitize_stem(stem);
    out.append("-");
    push_hex(&mut out, hash, 16);
    out.append(".wld");
    out
}

// ---------------------------------------------------------------------------
// Laws
// ---------------------------------------------------------------------------

/// No two words are kept under one id.
pub open spec fn ids_are_distinct(entries: Seq<VocabView>) -> bool {
    forall|i: int, j: int|
        0 <= i < j < entries.len() ==> (#[trigger] entries[i]).id != (#[trigger] entries[j]).id
}

/// The id that a word is added under is that of no other word, is the one asked for where that is
/// free, and is the only one that it could be.
pub proof fn free_ids_are_new(entries: Seq<VocabView>, id: i64, free: int, other: int)
    requires
        is_next_free_id(entries, id, free),
    ensures
        !holds_id(entries, free),
        !holds_id(entries, id as int) ==> free == id,
        is_next_free_id(entries, id, other) ==> other == free,
{
    let k = choose|k: nat|
        #![trigger later_id(id, k)]
        free == later_id(id, k) && !holds_id(entries, free) && (forall|m: nat|
            m < k ==> holds_id(entries, #[trigger] later_id(id, m)));
    assert(later_id(id, 0) == id);
    if is_next_free_id(entries, id, other) {
        let n = choose|k: nat|
            #![trigger later_id(id, k)]
            other == later_id(id, k) && !holds_id(entries, other) && (forall|m: nat|
                m < k ==> holds_id(entries, #[trigger] later_id(id, m)));
        assert(k <= n && n <= k);
    }
}

/// Adding a word keeps the ids of the words apart, and removing it again leaves the others as
/// they were.
pub proof fn added_words_can_be_removed(entries: Seq<VocabView>, word: VocabView)
    requires
        ids_are_distinct(entries),
        !holds_id(entries, word.id),
    ensures
        ids_are_distinct(entries.push(word)),
        entries.push(word).filter(|e: VocabView| e.id != word.id) == entries,
{
    let keep = |e: VocabView| e.id != word.id;
    let after = entries.push(word);
    assert forall|i: int, j: int| 0 <= i < j < after.len() implies (#[trigger] after[i]).id != (
    #[trigger] after[j]).id by {
        assert(after[i] == entries[i]);
        if j < entries.len() {
            assert(after[j] == entries[j]);
        }
    }
    entries.lemma_filter_push(word, keep);
    lemma_others_are_kept(entries, word.id);
}

proof fn lemma_others_are_kept(entries: Seq<VocabView>, id: int)
    requires
        !holds_id(entries, id),
    ensures
        entries.filter(|e: VocabView| e.id != id) == entries,
    decreases entries.len(),
{
    reveal(Seq::filter);
    let keep = |e: VocabView| e.id != id;
    if entries.len() > 0 {
        let rest = entries.drop_last();
        assert forall|i: int| 0 <= i < rest.len() implies (#[trigger] rest[i]).id != id by {
            assert(rest[i] == entries[i]);
        }
        lemma_others_are_kept(rest, id);
        assert(entries.last().id != id);
        assert(rest.push(entries.last()) =~= entries);
    } else {
        assert(entries.filter(keep) =~= entries);
    }
}

/// No path occurs twice.
pub open spec fn paths_are_distinct(entries: Seq<EntryView>) -> bool {
    forall|i: int, j: int|
        0 <= i < j < entries.len() ==> (#[trigger] entries[i]).path != (#[trigger] entries[j]).path
}

proof fn lemma_entry_at_path(entries: Seq<EntryView>, path: Seq<char>, k: int)
    requires
        0 <= k,
    ensures
        match entry_at_path(entries, path, k) {
            Some(i) => k <= i < entries.len() && entries[i].path == path,
            None => forall|i: int| k <= i < entries.len() ==> (#[trigger] entries[i]).path != path,
        },
    decreases entries.len() - k,
{
    if k < entries.len() && entries[k].path != path {
        lemma_entry_at_path(entries, path, k + 1);
    }
}

/// Adding a book again never makes a second entry of it, and leaves every other entry, and where
/// the reader has come to in this one, as they were.
pub proof fn upserting_keeps_positions(
    entries: Seq<EntryView>,
    path: Seq<char>,
    title: Seq<char>,
    author: Option<Seq<char>>,
    language: Option<Seq<char>>,
    content_hash: Option<Seq<char>>,
    now: int,
)
    requires
        paths_are_distinct(entries),
    ensures
        ({
            let after = upserted(entries, path, title, author, language, content_hash, now);
            &&& paths_are_distinct(after)
            &&& entries.len() <= after.len() <= entries.len() + 1
            &&& after.len() == entries.len() <==> entry_at_path(entries, path, 0) is Some
            &&& forall|i: int|
                0 <= i < entries.len() ==> {
                    &&& (#[trigger] after[i]).path == entries[i].path
                    &&& after[i].added_at == entries[i].added_at
                    &&& after[i].last_position_node_id == entries[i].last_position_node_id
                    &&& after[i].last_position_percent == entries[i].last_position_percent
                    &&& after[i].shared == entries[i].shared
                    &&& entries[i].content_hash is Some ==> after[i].content_hash is Some
                    &&& entries[i].path != path ==> after[i] == entries[i]
                }
        }),
{
    lemma_entry_at_path(entries, path, 0);
}

/// Marking a book as shared changes no other book and nothing else about this one.
pub proof fn sharing_changes_one_flag(entries: Seq<EntryView>, path: Seq<char>, shared: bool)
    ensures
        with_shared(entries, path, shared).len() == entries.len(),
        forall|i: int|
            0 <= i < entries.len() ==> (#[trigger] with_shared(entries, path, shared)[i]) == entries[i]
                || (entries[i].path == path && with_shared(entries, path, shared)[i] == (EntryView {
                shared: Some(shared),
                ..entries[i]
            })),
{
    lemma_entry_at_path(entries, path, 0);
}

/// A reading position that was set is kept within the book.
pub proof fn positions_stay_within_the_book(percent: i64)
    ensures
        0 <= clamped(percent) <= WHOLE_BOOK,
        0 <= percent <= WHOLE_BOOK ==> clamped(percent) == percent,
{
}

/// A file name made from a title has no character that could lead out of its directory.
pub proof fn file_stems_are_safe(s: Seq<char>)
    ensures
        file_stem(s).len() > 0,
        forall|i: int|
            0 <= i < file_stem(s).len() ==> is_ascii_alphanumeric(#[trigger] file_stem(s)[i])
                || file_stem(s)[i] == '-' || file_stem(s)[i] == '_',
{
    reveal_strlit("book");
}

/// Sixteen to the power of `width`.
spec fn hex_span(width: nat) -> nat
    decreases width,
{
    if width == 0 {
        1
    } else {
        16 * hex_span((width - 1) as nat)
    }
}

proof fn lemma_hex_digits(a: nat, b: nat, width: nat)
    requires
        a < hex_span(width),
        b < hex_span(width),
        hex_digits(a, width) == hex_digits(b, width),
    ensures
        a == b,
    decreases width,
{
    if width > 0 {
        let x = hex_digits(a / 16, (width - 1) as nat);
        let y = hex_digits(b / 16, (width - 1) as nat);
        assert(x.push(hex_digit(a % 16)).last() == y.push(hex_digit(b % 16)).last());
        assert(x =~= x.push(hex_digit(a % 16)).drop_last());
        assert(y =~= y.push(hex_digit(b % 16)).drop_last());
        lemma_hex_digits(a / 16, b / 16, (width - 1) as nat);
    }
}

proof fn lemma_hex_len(n: nat, width: nat)
    ensures
        hex_digits(n, width).len() == width,
    decreases width,
{
    if width > 0 {
        lemma_hex_len(n / 16, (width - 1) as nat);
    }
}

/// A text that ends in a hyphen and another text.
pub open spec fn ends_behind_hyphen(s: Seq<char>, end: Seq<char>) -> bool {
    s.len() > end.len() && s.skip(s.len() - end.len()) == end && s[s.len() - end.len() - 1] == '-'
}

/// Books received under names that are the same have the same first sixteen bytes in their
/// hashes, whatever their titles, where no hyphen stands in those bytes; where one does, the
/// bytes of one hash can also be the end of those of the other, behind a hyphen.
pub proof fn hashes_keep_received_books_apart(
    hash: Seq<char>,
    title: Seq<char>,
    other_hash: Seq<char>,
    other_title: Seq<char>,
)
    requires
        received_name(hash, title) == received_name(other_hash, other_title),
    ensures
        ({
            let a = first_bytes(hash, 16);
            let b = first_bytes(other_hash, 16);
            &&& a == b || ends_behind_hyphen(a, b) || ends_behind_hyphen(b, a)
            &&& a.len() == b.len() ==> a == b
            &&& !a.contains('-') && !b.contains('-') ==> a == b
        }),
{
    let a = first_bytes(hash, 16);
    let b = first_bytes(other_hash, 16);
    if a.len() >= b.len() {
        lemma_received_names(a, title, b, other_title);
    } else {
        lemma_received_names(b, other_title, a, title);
    }
}

proof fn lemma_received_names(
    a: Seq<char>,
    title: Seq<char>,
    b: Seq<char>,
    other_title: Seq<char>,
)
    requires
        file_stem(title) + "-"@ + a + ".wld"@ == file_stem(other_title) + "-"@ + b + ".wld"@,
        a.len() >= b.len(),
    ensures
        a == b || ends_behind_hyphen(a, b) && a.contains('-'),
        a.len() == b.len() ==> a == b,
{
    reveal_strlit(".wld");
    reveal_strlit("-");
    let name = file_stem(title) + "-"@ + a + ".wld"@;
    let same = file_stem(other_title) + "-"@ + b + ".wld"@;
    let end = name.len() - 4;
    let from = end - b.len();
    assert(name.subrange(from, end) =~= a.skip(a.len() - b.len()));
    assert(same.subrange(from, end) =~= b);
    assert(same[from - 1] == '-');
    if a.len() == b.len() {
        assert(a.skip(0) =~= a);
    } else {
        assert(name[from - 1] == a[a.len() - b.len() - 1]);
    }
}

/// Sources with different hashes are compiled into different files, whatever they are called.
pub proof fn hashes_keep_files_apart(
    stem: Seq<char>,
    hash: u64,
    other_stem: Seq<char>,
    other_hash: u64,
)
    ensures
        sandboxed_name(stem, hash) == sandboxed_name(other_stem, other_hash) ==> hash == other_hash,
{
    if sandboxed_name(stem, hash) == sandboxed_name(other_stem, other_hash) {
        reveal_strlit(".wld");
        reveal_strlit("-");
        let a = hex_digits(hash as nat, 16);
        let b = hex_digits(other_hash as nat, 16);
        lemma_hex_len(hash as nat, 16);
        lemma_hex_len(other_hash as nat, 16);
        let n = sandboxed_name(stem, hash).len() as int;
        assert(sandboxed_name(stem, hash).subrange(n - 20, n - 4) =~= a);
        assert(sandboxed_name(other_stem, other_hash).subrange(n - 20, n - 4) =~= b);
        reveal_with_fuel(hex_span, 17);
        lemma_hex_digits(hash as nat, other_hash as nat, 16);
    }
}

} // verus!
