//! The library as a page shows it: its books, their covers, and copies of them.

use vstd::prelude::*;

use crate::order::{keys_view, order_of, stable_order, KeyView, SortKey};
use crate::persistence::{
    ascii_alphanumeric, entries_view, entry_at_path, find_entry, is_ascii_alphanumeric, EntryView,
    LibraryEntry,
};
use crate::schema::{opt_text, NewAnnotation};
use crate::text::{chars_of, decimal, digit, push_decimal, same_text, texts, trim_text, trimmed};

verus! {

// ---------------------------------------------------------------------------
// The reader's name
// ---------------------------------------------------------------------------

/// The name that a reader's annotations are written under, and whether the reader chose it.
pub struct AuthorInfo {
    pub name: String,
    pub is_saved: bool,
}

/// The name of the account: the real name, or the login name where there is none.
pub fn guess_os_author_name(realname: &str, username: &str) -> (r: String)
    ensures
        r@ == if trimmed(realname@).len() == 0 {
            username@
        } else {
            realname@
        },
{
    if trim_text(realname).as_str().is_empty() {
        username.to_owned()
    } else {
        realname.to_owned()
    }
}

/// The name to write annotations under: the one that was saved, or else that of the account.
pub fn get_author_name(saved: Option<String>, realname: &str, username: &str) -> (r: AuthorInfo)
    ensures
        r.is_saved == saved is Some,
        r.name@ == (match opt_text(saved) {
            Some(name) => name,
            None => if trimmed(realname@).len() == 0 {
                username@
            } else {
                realname@
            },
        }),
{
    match saved {
        Some(name) => AuthorInfo { name, is_saved: true },
        None => AuthorInfo { name: guess_os_author_name(realname, username), is_saved: false },
    }
}

// ---------------------------------------------------------------------------
// Annotations from a page
// ---------------------------------------------------------------------------

/// The annotation to be written for a highlight.
pub fn create_highlight(
    node_id: i64,
    start_offset: i64,
    end_offset: i64,
    selected_text: Option<String>,
    author_name: String,
) -> (r: NewAnnotation)
    ensures
        r.node_id == node_id,
        r.start_offset == start_offset,
        r.end_offset == end_offset,
        r.selected_text == selected_text,
        r.annotation_type@ == "highlight"@,
        r.comment is None,
        r.asset_id is None,
        r.author_name == author_name,
{
    NewAnnotation {
        node_id,
        start_offset,
        end_offset,
        selected_text,
        annotation_type: "highlight".to_owned(),
        comment: None,
        asset_id: None,
        author_name,
    }
}

/// The annotation to be written for a note.
pub fn create_text_note(
    node_id: i64,
    start_offset: i64,
    end_offset: i64,
    selected_text: Option<String>,
    comment: String,
    author_name: String,
) -> (r: NewAnnotation)
    ensures
        r.node_id == node_id,
        r.start_offset == start_offset,
        r.end_offset == end_offset,
        r.selected_text == selected_text,
        r.annotation_type@ == "text_note"@,
        r.comment == Some(comment),
        r.asset_id is None,
        r.author_name == author_name,
{
    NewAnnotation {
        node_id,
        start_offset,
        end_offset,
        selected_text,
        annotation_type: "text_note".to_owned(),
        comment: Some(comment),
        asset_id: None,
        author_name,
    }
}

/// The annotation to be written for a voice note that is kept as an asset.
pub fn save_voice_note(
    node_id: i64,
    start_offset: i64,
    end_offset: i64,
    selected_text: Option<String>,
    asset_id: i64,
    author_name: String,
) -> (r: NewAnnotation)
    ensures
        r.node_id == node_id,
        r.start_offset == start_offset,
        r.end_offset == end_offset,
        r.selected_text == selected_text,
        r.annotation_type@ == "voice_note"@,
        r.comment is None,
        r.asset_id == Some(asset_id),
        r.author_name == author_name,
{
    NewAnnotation {
        node_id,
        start_offset,
        end_offset,
        selected_text,
        annotation_type: "voice_note".to_owned(),
        comment: None,
        asset_id: Some(asset_id),
        author_name,
    }
}

// ---------------------------------------------------------------------------
// The list of books
// ---------------------------------------------------------------------------

/// A book as a page shows it.
pub struct LibraryBook {
    pub path: String,
    pub title: String,
    pub author: Option<String>,
    pub added_at: i64,
    pub last_opened_at: i64,
    pub cover_data_uri: Option<String>,
    pub available: bool,
}

impl LibraryBook {
    /// Whether this shows an entry: with its cover, where its file is there.
    pub open spec fn shows(&self, e: EntryView, available: bool, cover: Option<Seq<char>>) -> bool {
        &&& self.path@ == e.path
        &&& self.title@ == e.title
        &&& opt_text(self.author) == e.author
        &&& self.added_at == e.added_at
        &&& self.last_opened_at == e.last_opened_at
        &&& self.available == available
        &&& opt_text(self.cover_data_uri) == if available {
            cover
        } else {
            None
        }
    }
}

/// What books are put in order by: when they were last opened.
pub open spec fn opened_keys(entries: Seq<EntryView>) -> Seq<KeyView> {
    entries.map_values(|e: EntryView| KeyView::Number(e.last_opened_at))
}

/// The books of the library, the one opened last first. Of each the page is told whether its file
/// is there and, if it is, its cover.
pub fn list_library(
    entries: &Vec<LibraryEntry>,
    available: &Vec<bool>,
    covers: &Vec<Option<String>>,
) -> (r: Vec<
    LibraryBook,
>)
    requires
        available@.len() == entries@.len(),
        covers@.len() == entries@.len(),
    ensures
        r@.len() == entries@.len(),
        forall|i: int|
            0 <= i < r@.len() ==> {
                let p = order_of(opened_keys(entries_view(entries@)), true)[i];
                &&& p < entries@.len()
                &&& (#[trigger] r@[i]).shows(
                    entries_view(entries@)[p as int],
                    available@[p as int],
                    opt_text(covers@[p as int]),
                )
            },
{
    let ghost all = entries_view(entries@);
    let mut keys: Vec<SortKey> = Vec::new();
    let mut k: usize = 0;
    while k < entries.len()
        invariant
            k <= entries@.len(),
            all == entries_view(entries@),
            keys_view(keys@) =~= opened_keys(all).take(k as int),
        decreases entries@.len() - k,
    {
        assert(all[k as int] == entries@[k as int]@);
        let key = SortKey::Number(entries[k].last_opened_at);
        let ghost before = keys@;
        assert(key@ == opened_keys(all)[k as int]);
        keys.push(key);
        assert(keys_view(keys@) =~= keys_view(before).push(key@));
        k += 1;
    }
    assert(opened_keys(all).take(k as int) =~= opened_keys(all));
    assert(keys_view(keys@).len() == keys@.len());
    let order = stable_order(&keys, true);
    let mut out: Vec<LibraryBook> = Vec::new();
    let mut i: usize = 0;
    while i < order.len()
        invariant
            i <= order@.len(),
            order@.len() == entries@.len(),
            available@.len() == entries@.len(),
            covers@.len() == entries@.len(),
            all == entries_view(entries@),
            forall|j: int| 0 <= j < order@.len() ==> 0 <= #[trigger] order@[j] < entries@.len(),
            out@.len() == i,
            forall|j: int|
                0 <= j < i ==> (#[trigger] out@[j]).shows(
                    all[order@[j] as int],
                    available@[order@[j] as int],
                    opt_text(covers@[order@[j] as int]),
                ),
        decreases order@.len() - i,
    {
        let p: usize = order[i];
        let e = &entries[p];
        assert(all[p as int] == e@);
        let there = available[p];
        let book = LibraryBook {
            path: e.path.clone(),
            title: e.title.clone(),
            author: e.author.clone(),
            added_at: e.added_at,
            last_opened_at: e.last_opened_at,
            cover_data_uri: if there {
                covers[p].clone()
            } else {
                None
            },
            available: there,
        };
        out.push(book);
        i += 1;
    }
    out
}

/// Takes the entries with a path out of the library.
pub fn remove_from_library(entries: &mut Vec<LibraryEntry>, path: &str)
    ensures
        entries_view(final(entries)@) == entries_view(old(entries)@).filter(|e: EntryView| e.path != path@),
{
    let ghost all = entries_view(entries@);
    let ghost keep = |e: EntryView| e.path != path@;
    let mut i: usize = 0;
    proof {
        reveal(Seq::filter);
        assert(all.take(0).filter(keep) =~= Seq::empty());
        assert(all.skip(0) =~= all);
        assert(Seq::<EntryView>::empty() + all =~= all);
    }
    let ghost mut done: int = 0;
    while i < entries.len()
        invariant
            0 <= done <= all.len(),
            keep == (|e: EntryView| e.path != path@),
            i <= entries@.len(),
            entries_view(entries@) == all.take(done).filter(keep) + all.skip(done),
            i == all.take(done).filter(keep).len(),
        decreases entries@.len() - i,
    {
        let ghost before = entries@;
        let ghost kept = all.take(done).filter(keep);
        assert(entries_view(before)[i as int] == all.skip(done)[0]);
        assert(entries_view(before)[i as int] == before[i as int]@);
        assert(all.skip(done)[0] == all[done]);
        proof {
            all.take(done).lemma_filter_push(all[done], keep);
            assert(all.take(done).push(all[done]) =~= all.take(done + 1));
        }
        if same_text(entries[i].path.as_str(), path) {
            entries.remove(i);
            assert(entries_view(entries@) =~= entries_view(before).remove(i as int));
            assert(entries_view(before).remove(i as int) =~= kept + all.skip(done + 1));
        } else {
            assert(kept + all.skip(done) =~= kept.push(all[done]) + all.skip(done + 1));
            i += 1;
        }
        proof {
            done = done + 1;
        }
    }
    proof {
        assert(entries_view(entries@).len() == all.take(done).filter(keep).len());
        assert(all.skip(done).len() == 0);
        assert(all.take(done) =~= all);
        assert(all.filter(keep) + all.skip(done) =~= all.filter(keep));
    }
}

/// The node at which a book was last left, where that is known.
pub fn find_last_position(entries: &Vec<LibraryEntry>, path: &str) -> (r: Option<i64>)
    ensures
        r == (match entry_at_path(entries_view(entries@), path@, 0) {
            Some(i) => entries_view(entries@)[i].last_position_node_id,
            None => None,
        }),
{
    match find_entry(entries, path) {
        Some(i) => {
            assert(entries_view(entries@)[i as int] == entries@[i as int]@);
            entries[i].last_position_node_id
        },
        None => None,
    }
}

// ---------------------------------------------------------------------------
// Copies
// ---------------------------------------------------------------------------

/// A character as it stands in the name of a copy.
pub open spec fn copy_char(c: char) -> char {
    if is_ascii_alphanumeric(c) || c == ' ' || c == '-' || c == '_' {
        c
    } else {
        '_'
    }
}

/// A title as it stands in the name of a copy.
pub open spec fn copy_stem(title: Seq<char>) -> Seq<char> {
    let stem = trimmed(title.map_values(|c: char| copy_char(c)));
    if stem.len() == 0 {
        "book"@
    } else {
        stem
    }
}

/// The name that is tried for a copy at the `n`th time.
pub open spec fn candidate(stem: Seq<char>, n: nat) -> Seq<char> {
    if n <= 1 {
        stem + ".wld"@
    } else {
        stem + " ("@ + decimal(n) + ").wld"@
    }
}

/// Whether the `n`th name is the first that is not taken.
pub open spec fn is_first_free(stem: Seq<char>, taken: Seq<Seq<char>>, n: nat) -> bool {
    &&& n >= 1
    &&& !taken.contains(candidate(stem, n))
    &&& forall|m: nat| 1 <= m < n ==> taken.contains(#[trigger] candidate(stem, m))
}

/// Whether a name is the first one for a copy that is not taken.
pub open spec fn is_copy_name(stem: Seq<char>, taken: Seq<Seq<char>>, name: Seq<char>) -> bool {
    exists|n: nat| is_first_free(stem, taken, n) && name == candidate(stem, n)
}

proof fn lemma_decimal_len(n: nat)
    ensures
        decimal(n).len() > 0,
    decreases n,
{
    if n >= 10 {
        lemma_decimal_len(n / 10);
    }
}

proof fn lemma_decimals_differ(m: nat, n: nat)
    requires
        decimal(m) == decimal(n),
    ensures
        m == n,
    decreases m,
{
    lemma_decimal_len(m / 10);
    lemma_decimal_len(n / 10);
    if m < 10 && n < 10 {
        assert(decimal(m)[0] == digit(m));
        assert(decimal(n)[0] == digit(n));
    } else if m >= 10 && n >= 10 {
        assert(decimal(m).last() == digit(m % 10));
        assert(decimal(n).last() == digit(n % 10));
        assert(decimal(m).drop_last() =~= decimal(m / 10));
        assert(decimal(n).drop_last() =~= decimal(n / 10));
        lemma_decimals_differ(m / 10, n / 10);
    } else {
        let (short, long) = if m < 10 {
            (m, n)
        } else {
            (n, m)
        };
        assert(decimal(short) == seq![digit(short)]);
        assert(decimal(long) == decimal(long / 10).push(digit(long % 10)));
        assert(decimal(short).len() == 1 && decimal(long).len() > 1);
    }
}

proof fn lemma_candidates_differ(stem: Seq<char>, m: nat, n: nat)
    requires
        1 <= m < n,
    ensures
        candidate(stem, m) != candidate(stem, n),
{
    reveal_strlit(".wld");
    reveal_strlit(" (");
    reveal_strlit(").wld");
    let b = candidate(stem, n);
    assert(b[stem.len() as int] == ' ');
    if m == 1 {
        assert(candidate(stem, m)[stem.len() as int] == '.');
    } else {
        let a = candidate(stem, m);
        if a == b {
            let from = stem.len() as int + 2;
            assert(a.len() == stem.len() + 2 + decimal(m).len() + 5);
            assert(b.len() == stem.len() + 2 + decimal(n).len() + 5);
            assert(a.subrange(from, from + decimal(m).len()) =~= decimal(m));
            assert(b.subrange(from, from + decimal(n).len()) =~= decimal(n));
            lemma_decimals_differ(m, n);
        }
    }
}

/// Where names are tried one after another, there are at least as many names taken as were
/// tried in vain.
proof fn lemma_tries_are_bounded(stem: Seq<char>, taken: Seq<Seq<char>>, n: nat)
    requires
        forall|m: nat| 1 <= m <= n ==> taken.contains(#[trigger] candidate(stem, m)),
    ensures
        n <= taken.len(),
    decreases n,
{
    if n > 0 {
        let c = candidate(stem, n);
        assert(taken.contains(c));
        let at = taken.index_of(c);
        let rest = taken.remove(at);
        assert forall|m: nat| 1 <= m <= n - 1 implies rest.contains(#[trigger] candidate(stem, m)) by {
            let d = candidate(stem, m);
            lemma_candidates_differ(stem, m, n);
            assert(taken.contains(d));
            let j = taken.index_of(d);
            assert(j != at);
            assert(rest[if j < at { j } else { j - 1 }] == d);
        }
        lemma_tries_are_bounded(stem, rest, (n - 1) as nat);
    }
}

fn stem_of_copy(title: &str) -> (r: String)
    ensures
        r@ == copy_stem(title@),
{
    let v = chars_of(title);
    let ghost want = title@.map_values(|c: char| copy_char(c));
    let mut out = String::new();
    let mut i: usize = 0;
    assert(want.take(0) =~= out@);
    while i < v.len()
        invariant
            v@ == title@,
            i <= v@.len(),
            want == title@.map_values(|c: char| copy_char(c)),
            out@ == want.take(i as int),
        decreases v@.len() - i,
    {
        let c: char = v[i];
        let d: char = if ascii_alphanumeric(c) || c == ' ' || c == '-' || c == '_' {
            c
        } else {
            '_'
        };
        out.push(d);
        i += 1;
        assert(want.take(i as int) =~= want.take(i - 1).push(d));
    }
    assert(want.take(i as int) =~= want);
    let stem = trim_text(out.as_str());
    if stem.as_str().is_empty() {
        "book".to_owned()
    } else {
        stem
    }
}

fn is_taken(taken: &Vec<String>, name: &str) -> (r: bool)
    ensures
        r == texts(taken@).contains(name@),
{
    let ghost all = texts(taken@);
    let mut i: usize = 0;
    while i < taken.len()
        invariant
            i <= taken@.len(),
            all == texts(taken@),
            forall|j: int| 0 <= j < i ==> all[j] != name@,
        decreases taken@.len() - i,
    {
        assert(all[i as int] == taken@[i as int]@);
        if same_text(taken[i].as_str(), name) {
            return true;
        }
        i += 1;
    }
    false
}

fn name_candidate(stem: &str, n: u64) -> (r: String)
    ensures
        r@ == candidate(stem@, n as nat),
{
    let mut out = stem.to_owned();
    if n <= 1 {
        out.append(".wld");
    } else {
        out.append(" (");
        push_decimal(&mut out, n);
        out.append(").wld");
    }
    out
}

/// The name of the copy of a book: its title, with a number behind it where the name is taken.
pub fn export_name(title: &str, taken: &Vec<String>) -> (r: String)
    requires
        taken@.len() < u64::MAX,
    ensures
        is_copy_name(copy_stem(title@), texts(taken@), r@),
{
    let stem = stem_of_copy(title);
    let ghost names = texts(taken@);
    let total: usize = taken.len();
    let mut n: u64 = 1;
    loop
        invariant
            stem@ == copy_stem(title@),
            names == texts(taken@),
            names.len() == total,
            total < u64::MAX,
            1 <= n <= total + 1,
            forall|m: nat| 1 <= m < n ==> names.contains(#[trigger] candidate(stem@, m)),
        decreases total + 1 - n,
    {
        let name = name_candidate(stem.as_str(), n);
        if !is_taken(taken, name.as_str()) {
            assert(is_first_free(stem@, names, n as nat));
            return name;
        }
        proof {
            assert forall|m: nat| 1 <= m <= n implies names.contains(#[trigger] candidate(stem@, m)) by {
                if m == n {
                    assert(names.contains(candidate(stem@, n as nat)));
                }
            }
            lemma_tries_are_bounded(stem@, names, n as nat);
        }
        n += 1;
    }
}

/// The names of the copies of books, one for each title, none of them taken twice.
pub fn export_names(titles: &Vec<String>) -> (r: Vec<String>)
    ensures
        r@.len() == titles@.len(),
        forall|i: int|
            0 <= i < r@.len() ==> is_copy_name(copy_stem(titles@[i]@), texts(r@).take(i), #[trigger] texts(r@)[i]),
        texts(r@).no_duplicates(),
{
    let mut out: Vec<String> = Vec::new();
    let mut k: usize = 0;
    while k < titles.len()
        invariant
            k <= titles@.len(),
            out@.len() == k,
            forall|i: int|
                0 <= i < k ==> is_copy_name(
                    copy_stem(titles@[i]@),
                    texts(out@).take(i),
                    #[trigger] texts(out@)[i],
                ),
            texts(out@).no_duplicates(),
        decreases titles@.len() - k,
    {
        let ghost before = out@;
        let name = export_name(titles[k].as_str(), &out);
        out.push(name);
        proof {
            assert(texts(out@) =~= texts(before).push(name@));
            assert(!texts(before).contains(name@));
            assert forall|i: int| 0 <= i < k + 1 implies is_copy_name(
                copy_stem(titles@[i]@),
                texts(out@).take(i),
                #[trigger] texts(out@)[i],
            ) by {
                if i < k {
                    assert(texts(out@)[i] == texts(before)[i]);
                    assert(texts(out@).take(i) =~= texts(before).take(i));
                } else {
                    assert(texts(out@).take(i) =~= texts(before));
                }
            }
            assert(texts(out@).no_duplicates()) by {
                let now = texts(out@);
                assert forall|i: int, j: int| 0 <= i < now.len() && 0 <= j < now.len() && i != j implies now[i]
                    != now[j] by {
                    if i < k && j < k {
                        assert(texts(before)[i] != texts(before)[j]);
                    } else if i < k {
                        assert(texts(before).contains(now[i]));
                    } else {
                        assert(texts(before).contains(now[j]));
                    }
                }
            }
        }
        k += 1;
    }
    out
}

// ---------------------------------------------------------------------------
// What became of the books
// ---------------------------------------------------------------------------

/// A line that says why something failed.
pub open spec fn failure_line(name: Seq<char>, error: Seq<char>) -> Seq<char> {
    name + ": "@ + error
}

fn failure(name: &str, error: &str) -> (r: String)
    ensures
        r@ == failure_line(name@, error@),
{
    let mut out = name.to_owned();
    out.append(": ");
    out.append(error);
    out
}

/// The books that were copied, and the titles of those that were not.
pub struct ExportResult {
    pub exported: Vec<String>,
    pub failed: Vec<String>,
}

impl ExportResult {
    /// No book was copied yet.
    pub fn new() -> (r: ExportResult)
        ensures
            texts(r.exported@) == Seq::<Seq<char>>::empty(),
            texts(r.failed@) == Seq::<Seq<char>>::empty(),
    {
        let r = ExportResult { exported: Vec::new(), failed: Vec::new() };
        assert(texts(r.exported@) =~= Seq::<Seq<char>>::empty());
        assert(texts(r.failed@) =~= Seq::<Seq<char>>::empty());
        r
    }

    /// Notes what became of a copy: nothing went wrong, or this did.
    pub fn record(&mut self, title: &str, name: &str, error: Option<&str>)
        ensures
            error is None ==> texts(final(self).exported@) == texts(old(self).exported@).push(name@) && final(self).failed == old(self).failed,
            error matches Some(e) ==> texts(final(self).failed@) == texts(old(self).failed@).push(
                failure_line(title@, e@),
            ) && final(self).exported == old(self).exported,
    {
        match error {
            None => {
                let ghost before = self.exported@;
                let line = name.to_owned();
                self.exported.push(line);
                assert(texts(self.exported@) =~= texts(before).push(line@));
            },
            Some(e) => {
                let ghost before = self.failed@;
                let line = failure(title, e);
                self.failed.push(line);
                assert(texts(self.failed@) =~= texts(before).push(line@));
            },
        }
    }
}

/// What became of a file of a folder that was imported.
pub enum ImportOutcome {
    /// It was compiled and is in the library under this title.
    Imported(String),
    /// It had been imported before.
    Skipped,
    /// This went wrong.
    Failed(String),
    /// The compiler itself stopped, with this.
    TaskFailed(String),
}

/// The titles of the books of a folder that were imported, and the files that were not.
pub struct BulkImportSummary {
    pub imported: Vec<String>,
    pub skipped: Vec<String>,
    pub failed: Vec<String>,
}

impl BulkImportSummary {
    /// No file was looked at yet.
    pub fn new() -> (r: BulkImportSummary)
        ensures
            texts(r.imported@) == Seq::<Seq<char>>::empty(),
            texts(r.skipped@) == Seq::<Seq<char>>::empty(),
            texts(r.failed@) == Seq::<Seq<char>>::empty(),
    {
        let r = BulkImportSummary { imported: Vec::new(), skipped: Vec::new(), failed: Vec::new() };
        assert(texts(r.imported@) =~= Seq::<Seq<char>>::empty());
        assert(texts(r.skipped@) =~= Seq::<Seq<char>>::empty());
        assert(texts(r.failed@) =~= Seq::<Seq<char>>::empty());
        r
    }

    /// Notes what became of the file with this stem.
    pub fn record(&mut self, stem: &str, outcome: ImportOutcome)
        ensures
            match outcome {
                ImportOutcome::Imported(title) => texts(final(self).imported@) == texts(old(self).imported@).push(
                    title@,
                ) && final(self).skipped == old(self).skipped && final(self).failed == old(self).failed,
                ImportOutcome::Skipped => texts(final(self).skipped@) == texts(old(self).skipped@).push(stem@)
                    && final(self).imported == old(self).imported && final(self).failed == old(self).failed,
                ImportOutcome::Failed(e) => texts(final(self).failed@) == texts(old(self).failed@).push(
                    failure_line(stem@, e@),
                ) && final(self).imported == old(self).imported && final(self).skipped == old(self).skipped,
                ImportOutcome::TaskFailed(e) => texts(final(self).failed@) == texts(old(self).failed@).push(
                    failure_line(stem@, "task failed: "@ + e@),
                ) && final(self).imported == old(self).imported && final(self).skipped == old(self).skipped,
            },
    {
        match outcome {
            ImportOutcome::Imported(title) => {
                let ghost before = self.imported@;
                let ghost shown = title@;
                self.imported.push(title);
                assert(texts(self.imported@) =~= texts(before).push(shown));
            },
            ImportOutcome::Skipped => {
                let ghost before = self.skipped@;
                let line = stem.to_owned();
                self.skipped.push(line);
                assert(texts(self.skipped@) =~= texts(before).push(line@));
            },
            ImportOutcome::Failed(e) => {
                let ghost before = self.failed@;
                let line = failure(stem, e.as_str());
                self.failed.push(line);
                assert(texts(self.failed@) =~= texts(before).push(line@));
            },
            ImportOutcome::TaskFailed(e) => {
                let ghost before = self.failed@;
                let mut error = "task failed: ".to_owned();
                error.append(e.as_str());
                let line = failure(stem, error.as_str());
                self.failed.push(line);
                assert(texts(self.failed@) =~= texts(before).push(line@));
            },
        }
    }
}

} // verus!
