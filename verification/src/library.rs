//! The library page: filtering, sorting and summing up the library.

use vstd::prelude::*;

use crate::order::{
    belongs_before, in_order, is_stable_order, keys_view, stable_order, text_le,
    texts_are_totally_ordered, KeyView, SortKey,
};
use crate::persistence::{entries_view, EntryView, LibraryEntry};
use crate::schema::{opt_str, opt_text};
use crate::sharing::SharedBook;
use crate::text::{
    contains, contains_text, decimal, join, join_texts, lower_text, lowercase, opens_with,
    push_decimal, same_text, same_text_ignoring_case, split_words, starts_with, text_of, texts,
    words,
};
use crate::text::{ascii_lowercase, chars_of};

verus! {

/// The integer that stands for the fraction of a book at which it counts as finished.
pub const FINISHED_THRESHOLD: i64 = 0x3fef0a3d70a3d70a;

/// How far a reader has come with a book.
#[derive(Debug, Clone, Copy, PartialEq, Eq, Structural)]
pub enum ReadingStatus {
    Unread,
    InProgress,
    Finished,
}

/// Which books to show, by how far the reader has come.
#[derive(Debug, Clone, Copy, PartialEq, Eq, Structural)]
pub enum StatusFilter {
    All,
    Unread,
    InProgress,
    Finished,
}

/// In which order to show books.
#[derive(Debug, Clone, Copy, PartialEq, Eq, Structural)]
pub enum SortMode {
    RecentlyOpened,
    RecentlyAdded,
    TitleAsc,
    TitleDesc,
    AuthorAsc,
    AuthorDesc,
    Progress,
}

/// Which books to show, and in which order.
pub struct FilterState {
    /// A text to look for in titles and authors, in lower case.
    pub query: String,
    pub sort: SortMode,
    pub status: StatusFilter,
    pub language: Option<String>,
}

/// How far the reader has come with the book of an entry.
pub open spec fn status_of(e: EntryView) -> ReadingStatus {
    match e.last_position_percent {
        None => ReadingStatus::Unread,
        Some(p) => if p >= FINISHED_THRESHOLD {
            ReadingStatus::Finished
        } else if p > 0 {
            ReadingStatus::InProgress
        } else {
            ReadingStatus::Unread
        },
    }
}

/// How far the reader has come with the book of an entry.
pub fn reading_status(entry: &LibraryEntry) -> (r: ReadingStatus)
    ensures
        r == status_of(entry@),
{
    match entry.last_position_percent {
        None => ReadingStatus::Unread,
        Some(p) => if p >= FINISHED_THRESHOLD {
            ReadingStatus::Finished
        } else if p > 0 {
            ReadingStatus::InProgress
        } else {
            ReadingStatus::Unread
        },
    }
}

impl StatusFilter {
    /// The filter lets the entry through.
    pub open spec fn admits(self, e: EntryView) -> bool {
        match self {
            StatusFilter::All => true,
            StatusFilter::Unread => status_of(e) == ReadingStatus::Unread,
            StatusFilter::InProgress => status_of(e) == ReadingStatus::InProgress,
            StatusFilter::Finished => status_of(e) == ReadingStatus::Finished,
        }
    }

    /// The name of the filter, as it is shown.
    pub fn label(self) -> (r: &'static str)
        ensures
            r@ == (match self {
                StatusFilter::All => "All"@,
                StatusFilter::Unread => "Unread"@,
                StatusFilter::InProgress => "In Progress"@,
                StatusFilter::Finished => "Finished"@,
            }),
    {
        match self {
            StatusFilter::All => "All",
            StatusFilter::Unread => "Unread",
            StatusFilter::InProgress => "In Progress",
            StatusFilter::Finished => "Finished",
        }
    }

    /// Whether the filter lets the entry through.
    pub fn matches(self, entry: &LibraryEntry) -> (r: bool)
        ensures
            r == self.admits(entry@),
    {
        match self {
            StatusFilter::All => true,
            StatusFilter::Unread => reading_status(entry) == ReadingStatus::Unread,
            StatusFilter::InProgress => reading_status(entry) == ReadingStatus::InProgress,
            StatusFilter::Finished => reading_status(entry) == ReadingStatus::Finished,
        }
    }
}

impl SortMode {
    /// The name of the order, as it is shown.
    pub fn label(self) -> (r: &'static str)
        ensures
            r@ == (match self {
                SortMode::RecentlyOpened => "Recently Opened"@,
                SortMode::RecentlyAdded => "Recently Added"@,
                SortMode::TitleAsc => "Title (A\u{2013}Z)"@,
                SortMode::TitleDesc => "Title (Z\u{2013}A)"@,
                SortMode::AuthorAsc => "Author (A\u{2013}Z)"@,
                SortMode::AuthorDesc => "Author (Z\u{2013}A)"@,
                SortMode::Progress => "Progress"@,
            }),
    {
        match self {
            SortMode::RecentlyOpened => "Recently Opened",
            SortMode::RecentlyAdded => "Recently Added",
            SortMode::TitleAsc => "Title (A\u{2013}Z)",
            SortMode::TitleDesc => "Title (Z\u{2013}A)",
            SortMode::AuthorAsc => "Author (A\u{2013}Z)",
            SortMode::AuthorDesc => "Author (Z\u{2013}A)",
            SortMode::Progress => "Progress",
        }
    }

    /// The order begins with the greatest key.
    pub open spec fn is_descending(self) -> bool {
        !(self == SortMode::TitleAsc || self == SortMode::AuthorAsc)
    }

    fn descending(self) -> (r: bool)
        ensures
            r == self.is_descending(),
    {
        !(self == SortMode::TitleAsc || self == SortMode::AuthorAsc)
    }
}

impl FilterState {
    /// Everything, the book that was opened last first.
    pub fn new() -> (r: Self)
        ensures
            r.query@.len() == 0,
            r.sort == SortMode::RecentlyOpened,
            r.status == StatusFilter::All,
            r.language is None,
    {
        FilterState {
            query: String::new(),
            sort: SortMode::RecentlyOpened,
            status: StatusFilter::All,
            language: None,
        }
    }
}

/// What an author is sorted by: the last word of the name, in lower case.
pub open spec fn author_key(author: Seq<char>) -> Seq<char> {
    let w = words(author);
    if w.len() == 0 {
        lowercase(author)
    } else {
        lowercase(w.last())
    }
}

/// What a title is sorted by: the title in lower case, without an English article at its front.
pub open spec fn title_key(title: Seq<char>) -> Seq<char> {
    let lower = lowercase(title);
    if starts_with(lower, "the "@) {
        lower.skip(4)
    } else if starts_with(lower, "an "@) {
        lower.skip(3)
    } else if starts_with(lower, "a "@) {
        lower.skip(2)
    } else {
        lower
    }
}

/// What an author is sorted by: the last word of the name, in lower case.
pub fn author_sort_key(author: &str) -> (r: String)
    ensures
        r@ == author_key(author@),
{
    let w = split_words(author);
    if w.len() == 0 {
        assert(words(author@).len() == 0);
        lower_text(author)
    } else {
        assert(words(author@).last() == w@[w@.len() - 1]@);
        lower_text(w[w.len() - 1].as_str())
    }
}

/// What a title is sorted by: the title in lower case, without an English article at its front.
pub fn title_sort_key(title: &str) -> (r: String)
    ensures
        r@ == title_key(title@),
{
    proof {
        reveal_strlit("the ");
        reveal_strlit("an ");
        reveal_strlit("a ");
    }
    let lower = lower_text(title);
    let v = chars_of(lower.as_str());
    let from: usize = if opens_with(lower.as_str(), "the ") {
        4
    } else if opens_with(lower.as_str(), "an ") {
        3
    } else if opens_with(lower.as_str(), "a ") {
        2
    } else {
        0
    };
    assert(v@.subrange(from as int, v@.len() as int) =~= v@.skip(from as int));
    assert(v@.skip(0) =~= v@);
    text_of(&v, from, v.len())
}

/// What an entry is sorted by.
pub open spec fn sort_key(e: EntryView, mode: SortMode) -> KeyView {
    match mode {
        SortMode::TitleAsc => KeyView::Text(title_key(e.title)),
        SortMode::TitleDesc => KeyView::Text(title_key(e.title)),
        SortMode::AuthorAsc => KeyView::Text(
            author_key(
                match e.author {
                    Some(a) => a,
                    None => Seq::empty(),
                },
            ),
        ),
        SortMode::AuthorDesc => KeyView::Text(
            author_key(
                match e.author {
                    Some(a) => a,
                    None => Seq::empty(),
                },
            ),
        ),
        SortMode::RecentlyOpened => KeyView::Number(e.last_opened_at),
        SortMode::RecentlyAdded => KeyView::Number(e.added_at),
        SortMode::Progress => KeyView::Number(
            match e.last_position_percent {
                Some(p) => p as int,
                None => 0,
            },
        ),
    }
}

/// The entry is to be shown.
pub open spec fn is_shown(
    e: EntryView,
    query: Seq<char>,
    status: StatusFilter,
    language: Option<Seq<char>>,
) -> bool {
    &&& query.len() == 0 || contains(lowercase(e.title), query) || (e.author matches Some(a)
        && contains(lowercase(a), query))
    &&& status.admits(e)
    &&& language is Some ==> e.language == language
}

impl FilterState {
    /// The entry is to be shown.
    pub open spec fn shows(&self, e: EntryView) -> bool {
        is_shown(e, self.query@, self.status, opt_text(self.language))
    }
}

/// Entry `i` is shown before entry `j`: it comes first in the order, or they are level and it
/// comes first in the library.
pub open spec fn shown_before(entries: Seq<EntryView>, mode: SortMode, i: usize, j: usize) -> bool {
    let a = sort_key(entries[i as int], mode);
    let b = sort_key(entries[j as int], mode);
    &&& in_order(a, b, mode.is_descending())
    &&& in_order(b, a, mode.is_descending()) ==> i < j
}

fn shown(e: &LibraryEntry, filters: &FilterState) -> (r: bool)
    ensures
        r == filters.shows(e@),
{
    let query = filters.query.as_str();
    let by_query = query.is_empty() || contains_text(lower_text(e.title.as_str()).as_str(), query)
        || match &e.author {
        Some(a) => contains_text(lower_text(a.as_str()).as_str(), query),
        None => false,
    };
    let by_language = match &filters.language {
        Some(l) => match &e.language {
            Some(m) => same_text(m.as_str(), l.as_str()),
            None => false,
        },
        None => true,
    };
    by_query && filters.status.matches(e) && by_language
}

fn key_for(e: &LibraryEntry, mode: SortMode) -> (r: SortKey)
    ensures
        r@ == sort_key(e@, mode),
{
    proof {
        reveal_strlit("");
        assert(""@ =~= Seq::<char>::empty());
    }
    let author = match &e.author {
        Some(a) => a.as_str(),
        None => "",
    };
    match mode {
        SortMode::TitleAsc => SortKey::Text(title_sort_key(e.title.as_str())),
        SortMode::TitleDesc => SortKey::Text(title_sort_key(e.title.as_str())),
        SortMode::AuthorAsc => SortKey::Text(author_sort_key(author)),
        SortMode::AuthorDesc => SortKey::Text(author_sort_key(author)),
        SortMode::RecentlyOpened => SortKey::Number(e.last_opened_at),
        SortMode::RecentlyAdded => SortKey::Number(e.added_at),
        SortMode::Progress => SortKey::Number(
            match e.last_position_percent {
                Some(p) => p,
                None => 0,
            },
        ),
    }
}

/// The places are those of the entries to be shown, in the order in which to show them.
pub open spec fn are_shown_places(
    places: Seq<usize>,
    entries: Seq<EntryView>,
    filters: FilterState,
) -> bool {
    &&& forall|i: int|
        0 <= i < places.len() ==> #[trigger] places[i] < entries.len() && filters.shows(
            entries[places[i] as int],
        )
    &&& forall|k: usize|
        k < entries.len() && filters.shows(entries[k as int]) ==> #[trigger] places.contains(k)
    &&& forall|i: int, j: int|
        0 <= i < j < places.len() ==> shown_before(
            entries,
            filters.sort,
            #[trigger] places[i],
            #[trigger] places[j],
        )
}

/// The places of the entries to be shown, in the order in which to show them.
pub fn filtered_and_sorted(entries: &Vec<LibraryEntry>, filters: &FilterState) -> (r: Vec<usize>)
    ensures
        are_shown_places(r@, entries_view(entries@), *filters),
{
    let ghost all = entries_view(entries@);
    let mode = filters.sort;
    let mut found: Vec<usize> = Vec::new();
    let mut keys: Vec<SortKey> = Vec::new();
    let mut k: usize = 0;
    while k < entries.len()
        invariant
            k <= entries@.len(),
            all == entries_view(entries@),
            mode == filters.sort,
            found@.len() == keys@.len(),
            forall|i: int|
                0 <= i < found@.len() ==> #[trigger] found@[i] < k && filters.shows(
                    all[found@[i] as int],
                ) && keys@[i]@ == sort_key(all[found@[i] as int], mode),
            forall|i: int, j: int| 0 <= i < j < found@.len() ==> found@[i] < found@[j],
            forall|m: usize| m < k && filters.shows(all[m as int]) ==> #[trigger] found@.contains(m),
        decreases entries@.len() - k,
    {
        assert(all[k as int] == entries@[k as int]@);
        let ghost before = found@;
        if shown(&entries[k], filters) {
            found.push(k);
            keys.push(key_for(&entries[k], mode));
            assert forall|m: usize| m < k + 1 && filters.shows(all[m as int]) implies
                #[trigger] found@.contains(m) by {
                if m < k {
                    assert(before.contains(m));
                    let i = choose|i: int| 0 <= i < before.len() && before[i] == m;
                    assert(found@[i] == m);
                } else {
                    assert(found@[before.len() as int] == m);
                }
            }
        }
        k += 1;
    }
    let order = stable_order(&keys, mode.descending());
    let ghost views = keys_view(keys@);
    let mut out: Vec<usize> = Vec::new();
    let mut i: usize = 0;
    while i < order.len()
        invariant
            i <= order@.len(),
            is_stable_order(order@, views, found@.len() as int, mode.is_descending()),
            out@.len() == i,
            forall|j: int| 0 <= j < i ==> #[trigger] out@[j] == found@[order@[j] as int],
        decreases order@.len() - i,
    {
        out.push(found[order[i]]);
        i += 1;
    }
    proof {
        assert forall|k: usize| k < entries@.len() && filters.shows(all[k as int]) implies
            #[trigger] out@.contains(k) by {
            assert(found@.contains(k));
            let q = choose|q: int| 0 <= q < found@.len() && found@[q] == k;
            assert(order@.contains(q as usize));
            let p = choose|p: int| 0 <= p < order@.len() && order@[p] == q as usize;
            assert(out@[p] == k);
        }
        assert forall|i: int, j: int| 0 <= i < j < out@.len() implies shown_before(
            all,
            mode,
            #[trigger] out@[i],
            #[trigger] out@[j],
        ) by {
            let a = order@[i];
            let b = order@[j];
            assert(belongs_before(views, a, b, mode.is_descending()));
            assert(views[a as int] == keys@[a as int]@);
            assert(views[b as int] == keys@[b as int]@);
            assert(found@[a as int] == out@[i] && found@[b as int] == out@[j]);
        }
    }
    out
}

// ---------------------------------------------------------------------------
// Summing up
// ---------------------------------------------------------------------------

/// The number of entries with this status among the first `n`.
pub open spec fn status_count(entries: Seq<EntryView>, status: ReadingStatus, n: int) -> int
    decreases n,
{
    if n <= 0 {
        0
    } else {
        status_count(entries, status, n - 1) + if status_of(entries[n - 1]) == status {
            1int
        } else {
            0
        }
    }
}

/// The texts that are there, each once, in the order of their first occurrence.
pub open spec fn distinct(values: Seq<Option<Seq<char>>>) -> Seq<Seq<char>>
    decreases values.len(),
{
    if values.len() == 0 {
        Seq::empty()
    } else {
        let before = distinct(values.drop_last());
        match values.last() {
            Some(v) => if before.contains(v) {
                before
            } else {
                before.push(v)
            },
            None => before,
        }
    }
}

/// The authors of the entries.
pub open spec fn authors(entries: Seq<EntryView>) -> Seq<Option<Seq<char>>> {
    entries.map_values(|e: EntryView| e.author)
}

/// The languages of the entries.
pub open spec fn languages(entries: Seq<EntryView>) -> Seq<Option<Seq<char>>> {
    entries.map_values(|e: EntryView| e.language)
}

/// The ending of a noun for this many things.
pub open spec fn plural(n: int) -> Seq<char> {
    if n == 1 {
        Seq::empty()
    } else {
        "s"@
    }
}

/// The parts of the line that sums up a library of which `visible` entries are shown.
pub open spec fn stats_parts(entries: Seq<EntryView>, visible: nat) -> Seq<Seq<char>> {
    let total = entries.len();
    let unread = status_count(entries, ReadingStatus::Unread, total as int);
    let in_progress = status_count(entries, ReadingStatus::InProgress, total as int);
    let finished = status_count(entries, ReadingStatus::Finished, total as int);
    let author_count = distinct(authors(entries)).len();
    let language_count = distinct(languages(entries)).len();
    let head = if visible == total {
        decimal(total) + " book"@ + plural(total as int)
    } else {
        "Showing "@ + decimal(visible) + " of "@ + decimal(total) + " book"@ + plural(total as int)
    };
    let a = if in_progress > 0 {
        seq![head, decimal(in_progress as nat) + " in progress"@]
    } else {
        seq![head]
    };
    let b = if finished > 0 {
        a.push(decimal(finished as nat) + " finished"@)
    } else {
        a
    };
    let c = b.push(decimal(unread as nat) + " unread"@).push(
        decimal(author_count) + " author"@ + plural(author_count as int),
    );
    if language_count > 1 {
        c.push(decimal(language_count) + " languages"@)
    } else {
        c
    }
}

/// The line that sums up a library of which `visible` entries are shown.
pub open spec fn stats_line(entries: Seq<EntryView>, visible: nat) -> Seq<char> {
    if entries.len() == 0 {
        Seq::empty()
    } else {
        join(stats_parts(entries, visible), " \u{b7} "@)
    }
}

fn count_status(entries: &Vec<LibraryEntry>, status: ReadingStatus) -> (r: usize)
    ensures
        r == status_count(entries_view(entries@), status, entries@.len() as int),
{
    let ghost all = entries_view(entries@);
    let mut n: usize = 0;
    let mut k: usize = 0;
    while k < entries.len()
        invariant
            k <= entries@.len(),
            all == entries_view(entries@),
            n == status_count(all, status, k as int),
            n <= k,
        decreases entries@.len() - k,
    {
        assert(all[k as int] == entries@[k as int]@);
        if reading_status(&entries[k]) == status {
            n += 1;
        }
        k += 1;
    }
    n
}

fn holds_text(list: &Vec<String>, t: &str) -> (r: bool)
    ensures
        r == texts(list@).contains(t@),
{
    let mut i: usize = 0;
    while i < list.len()
        invariant
            i <= list@.len(),
            forall|j: int| 0 <= j < i ==> (#[trigger] texts(list@)[j]) != t@,
        decreases list@.len() - i,
    {
        if same_text(list[i].as_str(), t) {
            assert(texts(list@)[i as int] == t@);
            return true;
        }
        i += 1;
    }
    false
}

fn distinct_texts(values: &Vec<Option<String>>) -> (r: Vec<String>)
    ensures
        texts(r@) == distinct(values@.map_values(|v: Option<String>| opt_text(v))),
{
    let ghost all = values@.map_values(|v: Option<String>| opt_text(v));
    let mut out: Vec<String> = Vec::new();
    let mut k: usize = 0;
    assert(texts(out@) =~= distinct(all.take(0)));
    while k < values.len()
        invariant
            k <= values@.len(),
            all == values@.map_values(|v: Option<String>| opt_text(v)),
            texts(out@) == distinct(all.take(k as int)),
        decreases values@.len() - k,
    {
        assert(all.take(k + 1).drop_last() =~= all.take(k as int));
        assert(all.take(k + 1).last() == opt_text(values@[k as int]));
        let ghost before = out@;
        if let Some(v) = &values[k] {
            if !holds_text(&out, v.as_str()) {
                out.push(v.clone());
                assert(texts(out@) =~= texts(before).push(v@));
            }
        }
        k += 1;
    }
    assert(all.take(k as int) =~= all);
    out
}

fn collect_authors(entries: &Vec<LibraryEntry>) -> (r: Vec<Option<String>>)
    ensures
        r@.map_values(|v: Option<String>| opt_text(v)) == authors(entries_view(entries@)),
{
    let mut out: Vec<Option<String>> = Vec::new();
    let mut k: usize = 0;
    while k < entries.len()
        invariant
            k <= entries@.len(),
            out@.len() == k,
            forall|j: int| 0 <= j < k ==> opt_text(#[trigger] out@[j]) == entries@[j]@.author,
        decreases entries@.len() - k,
    {
        out.push(entries[k].author.clone());
        k += 1;
    }
    assert(out@.map_values(|v: Option<String>| opt_text(v)) =~= authors(entries_view(entries@)));
    out
}

fn collect_languages(entries: &Vec<LibraryEntry>) -> (r: Vec<Option<String>>)
    ensures
        r@.map_values(|v: Option<String>| opt_text(v)) == languages(entries_view(entries@)),
{
    let mut out: Vec<Option<String>> = Vec::new();
    let mut k: usize = 0;
    while k < entries.len()
        invariant
            k <= entries@.len(),
            out@.len() == k,
            forall|j: int| 0 <= j < k ==> opt_text(#[trigger] out@[j]) == entries@[j]@.language,
        decreases entries@.len() - k,
    {
        out.push(entries[k].language.clone());
        k += 1;
    }
    assert(out@.map_values(|v: Option<String>| opt_text(v)) =~= languages(entries_view(entries@)));
    out
}

fn counted(n: usize, noun: &str) -> (r: String)
    ensures
        r@ == decimal(n as nat) + noun@,
{
    let mut out = String::new();
    push_decimal(&mut out, n as u64);
    out.append(noun);
    assert(out@ =~= decimal(n as nat) + noun@);
    out
}

fn push_plural(out: &mut String, n: usize)
    ensures
        final(out)@ == old(out)@ + plural(n as int),
{
    let ghost before = out@;
    if n != 1 {
        out.append("s");
    }
    assert(out@ =~= before + plural(n as int));
}

/// The line that sums up a library of which `visible` entries are shown.
pub fn library_stats(entries: &Vec<LibraryEntry>, visible: usize) -> (r: String)
    ensures
        r@ == stats_line(entries_view(entries@), visible as nat),
{
    let ghost all = entries_view(entries@);
    let total: usize = entries.len();
    if total == 0 {
        return String::new();
    }
    let unread = count_status(entries, ReadingStatus::Unread);
    let in_progress = count_status(entries, ReadingStatus::InProgress);
    let finished = count_status(entries, ReadingStatus::Finished);
    let author_list = distinct_texts(&collect_authors(entries));
    let language_list = distinct_texts(&collect_languages(entries));
    assert(author_list@.len() == distinct(authors(all)).len());
    assert(language_list@.len() == distinct(languages(all)).len());
    let mut parts: Vec<String> = Vec::new();
    let mut head = if visible == total {
        counted(total, " book")
    } else {
        let mut h = "Showing ".to_owned();
        push_decimal(&mut h, visible as u64);
        h.append(" of ");
        push_decimal(&mut h, total as u64);
        h.append(" book");
        h
    };
    push_plural(&mut head, total);
    parts.push(head);
    if in_progress > 0 {
        parts.push(counted(in_progress, " in progress"));
    }
    if finished > 0 {
        parts.push(counted(finished, " finished"));
    }
    parts.push(counted(unread, " unread"));
    let mut by = counted(author_list.len(), " author");
    push_plural(&mut by, author_list.len());
    parts.push(by);
    if language_list.len() > 1 {
        parts.push(counted(language_list.len(), " languages"));
    }
    assert(texts(parts@) =~= stats_parts(all, visible as nat));
    join_texts(&parts, " \u{b7} ")
}

/// The languages to choose from, and which of them is chosen.
pub struct LanguageChoice {
    /// The languages of the library, each once, in order.
    pub languages: Vec<String>,
    /// The place of the chosen language, counted from one; zero for all languages.
    pub selected: usize,
}

/// Text `t` is there among the values.
pub open spec fn occurs(values: Seq<Option<Seq<char>>>, t: Seq<char>) -> bool {
    exists|i: int| 0 <= i < values.len() && #[trigger] values[i] == Some(t)
}

/// The choice holds the languages of the library, each once, in order, and the place of the
/// current one; all languages where the current one does not occur any more.
pub open spec fn is_choice(
    choice: LanguageChoice,
    entries: Seq<EntryView>,
    current: Option<Seq<char>>,
) -> bool {
    let found = texts(choice.languages@);
    &&& forall|t: Seq<char>| #[trigger] found.contains(t) <==> occurs(languages(entries), t)
    &&& forall|i: int, j: int|
        0 <= i < j < found.len() ==> text_le(#[trigger] found[i], #[trigger] found[j]) && found[i]
            != found[j]
    &&& match current {
        Some(c) => if occurs(languages(entries), c) {
            1 <= choice.selected <= found.len() && found[choice.selected - 1] == c
        } else {
            choice.selected == 0
        },
        None => choice.selected == 0,
    }
}

/// The languages of the library to choose from, in order, and the place of the current one; all
/// languages where the current one does not occur any more.
pub fn language_choice(entries: &Vec<LibraryEntry>, current: Option<&str>) -> (r: LanguageChoice)
    ensures
        is_choice(r, entries_view(entries@), opt_str(current)),
{
    let ghost values = languages(entries_view(entries@));
    let list = distinct_texts(&collect_languages(entries));
    proof {
        lemma_distinct(values);
    }
    let ghost all = texts(list@);
    let mut keys: Vec<SortKey> = Vec::new();
    let mut k: usize = 0;
    while k < list.len()
        invariant
            k <= list@.len(),
            keys@.len() == k,
            forall|j: int| 0 <= j < k ==> (#[trigger] keys@[j])@ == KeyView::Text(list@[j]@),
        decreases list@.len() - k,
    {
        keys.push(SortKey::Text(list[k].clone()));
        k += 1;
    }
    let order = stable_order(&keys, false);
    let ghost views = keys_view(keys@);
    let mut out: Vec<String> = Vec::new();
    let mut selected: usize = 0;
    let mut i: usize = 0;
    while i < order.len()
        invariant
            i <= order@.len(),
            all == texts(list@),
            is_stable_order(order@, views, list@.len() as int, false),
            out@.len() == i,
            forall|j: int| 0 <= j < i ==> (#[trigger] out@[j])@ == list@[order@[j] as int]@,
            selected <= i,
            selected > 0 ==> opt_str(current) == Some(out@[selected - 1]@),
            selected == 0 ==> forall|j: int| 0 <= j < i ==> opt_str(current) != Some(
                (#[trigger] out@[j])@,
            ),
        decreases order@.len() - i,
    {
        let language = list[order[i]].clone();
        if let Some(c) = current {
            if selected == 0 && same_text(language.as_str(), c) {
                selected = i + 1;
            }
        }
        out.push(language);
        i += 1;
    }
    proof {
        assert forall|t: Seq<char>| #[trigger] texts(out@).contains(t) <==> occurs(values, t) by {
            if texts(out@).contains(t) {
                let j = choose|j: int| 0 <= j < out@.len() && texts(out@)[j] == t;
                assert(all[order@[j] as int] == t);
                assert(all.contains(t));
            }
            if occurs(values, t) {
                assert(all.contains(t));
                let q = choose|q: int| 0 <= q < all.len() && all[q] == t;
                assert(order@.contains(q as usize));
                let p = choose|p: int| 0 <= p < order@.len() && order@[p] == q as usize;
                assert(texts(out@)[p] == t);
            }
        }
        assert forall|i: int, j: int| 0 <= i < j < out@.len() implies text_le(
            #[trigger] out@[i]@,
            #[trigger] out@[j]@,
        ) && out@[i]@ != out@[j]@ by {
            let a = order@[i];
            let b = order@[j];
            assert(belongs_before(views, a, b, false));
            assert(views[a as int] == keys@[a as int]@);
            assert(views[b as int] == keys@[b as int]@);
            assert(all[a as int] == out@[i]@ && all[b as int] == out@[j]@);
            texts_are_totally_ordered(out@[i]@, out@[j]@);
            assert(a != b);
        }
        if opt_str(current) is Some {
            let c = opt_str(current)->0;
            if occurs(values, c) {
                assert(texts(out@).contains(c));
                let j = choose|j: int| 0 <= j < out@.len() && texts(out@)[j] == c;
                assert(out@[j]@ == c);
            } else if selected > 0 {
                assert(texts(out@)[selected - 1] == c);
                assert(texts(out@).contains(c));
            }
        }
    }
    LanguageChoice { languages: out, selected }
}

proof fn lemma_distinct(values: Seq<Option<Seq<char>>>)
    ensures
        distinct(values).no_duplicates(),
        forall|t: Seq<char>| #[trigger] distinct(values).contains(t) <==> occurs(values, t),
    decreases values.len(),
{
    if values.len() > 0 {
        let head = values.drop_last();
        lemma_distinct(head);
        let before = distinct(head);
        let after = distinct(values);
        assert forall|t: Seq<char>| #[trigger] after.contains(t) <==> occurs(values, t) by {
            if after.contains(t) {
                let i = choose|i: int| 0 <= i < after.len() && after[i] == t;
                if i < before.len() {
                    assert(before[i] == t);
                    assert(before.contains(t));
                    let w = choose|w: int| 0 <= w < head.len() && #[trigger] head[w] == Some(t);
                    assert(values[w] == Some(t));
                } else {
                    assert(values[values.len() - 1] == Some(t));
                }
            }
            if occurs(values, t) {
                let w = choose|w: int| 0 <= w < values.len() && #[trigger] values[w] == Some(t);
                if w < head.len() {
                    assert(head[w] == Some(t));
                    assert(before.contains(t));
                    let i = choose|i: int| 0 <= i < before.len() && before[i] == t;
                    assert(after[i] == t);
                } else if !before.contains(t) {
                    assert(after[before.len() as int] == t);
                } else {
                    assert(after == before);
                }
            }
        }
    }
}

// ---------------------------------------------------------------------------
// Importing
// ---------------------------------------------------------------------------

/// What is said after a folder was imported.
pub open spec fn import_summary_text(ok: nat, failed: nat) -> Seq<char> {
    if ok == 0 && failed == 0 {
        "No EPUBs found in that folder"@
    } else if failed == 0 {
        "Imported "@ + decimal(ok) + " book"@ + plural(ok as int)
    } else if ok == 0 {
        decimal(failed) + " import"@ + plural(failed as int) + " failed"@
    } else {
        "Imported "@ + decimal(ok) + ", "@ + decimal(failed) + " failed"@
    }
}

/// What is said after a folder was imported.
pub fn import_summary(ok: usize, failed: usize) -> (r: String)
    ensures
        r@ == import_summary_text(ok as nat, failed as nat),
{
    if ok == 0 && failed == 0 {
        "No EPUBs found in that folder".to_owned()
    } else if failed == 0 {
        let mut out = "Imported ".to_owned();
        push_decimal(&mut out, ok as u64);
        out.append(" book");
        push_plural(&mut out, ok);
        out
    } else if ok == 0 {
        let mut out = counted(failed, " import");
        push_plural(&mut out, failed);
        out.append(" failed");
        out
    } else {
        let mut out = "Imported ".to_owned();
        push_decimal(&mut out, ok as u64);
        out.append(", ");
        push_decimal(&mut out, failed as u64);
        out.append(" failed");
        out
    }
}

/// Whether a directory of this name is looked into for books.
pub fn is_visible_directory(name: &str) -> (r: bool)
    ensures
        r == !starts_with(name@, "."@),
{
    !opens_with(name, ".")
}

/// Whether a file with this extension is an EPUB.
pub fn is_epub_extension(extension: &str) -> (r: bool)
    ensures
        r == (ascii_lowercase(extension@) == ascii_lowercase("epub"@)),
{
    same_text_ignoring_case(extension, "epub")
}

/// The title of an imported book: that of its metadata, or else the stem of its file.
pub fn imported_title(metadata_title: Option<&str>, stem: Option<&str>) -> (r: String)
    ensures
        r@ == (match (opt_str(metadata_title), opt_str(stem)) {
            (Some(t), _) => t,
            (None, Some(s)) => s,
            (None, None) => "Untitled"@,
        }),
{
    match metadata_title {
        Some(t) => t.to_owned(),
        None => match stem {
            Some(s) => s.to_owned(),
            None => "Untitled".to_owned(),
        },
    }
}

/// Whether a book that another device offers matches a text in lower case.
pub fn peer_book_matches_search(book: &SharedBook, filter: &str) -> (r: bool)
    ensures
        r == (filter@.len() == 0 || contains(lowercase(book.title@), filter@) || (opt_text(
            book.author,
        ) matches Some(a) && contains(lowercase(a), filter@))),
{
    filter.is_empty() || contains_text(lower_text(book.title.as_str()).as_str(), filter)
        || match &book.author {
        Some(a) => contains_text(lower_text(a.as_str()).as_str(), filter),
        None => false,
    }
}

/// The height of a cover on the library page.
pub const COVER_HEIGHT: i32 = 160;

/// The size to which a cover is scaled down: at most twice as high as it is shown, its width in
/// proportion, and never less than one.
pub fn cover_size(width: i32, height: i32) -> (r: (i32, i32))
    requires
        0 <= width,
        0 <= height,
    ensures
        ({
            let h: int = if height < 1 { 1 } else { height as int };
            let target: int = if h < 2 * COVER_HEIGHT { h } else { 2 * COVER_HEIGHT as int };
            let w: int = (width * target) / h;
            r.1 == target && r.0 == (if w < 1 { 1 } else { w })
        }),
{
    let h: i64 = if height < 1 { 1 } else { height as i64 };
    let target: i64 = if h < 320 { h } else { 320 };
    assert(0 <= width * target <= 0x7fff_ffff * 320) by (nonlinear_arith)
        requires
            0 <= width <= 0x7fff_ffff,
            0 <= target <= 320,
    ;
    let w: i64 = width as i64 * target / h;
    assert((width * target) / (h as int) <= width) by (nonlinear_arith)
        requires
            0 <= width,
            0 < target <= h,
    ;
    assert(0 <= (width * target) / (h as int)) by (nonlinear_arith)
        requires
            0 <= width,
            0 < target <= h,
    ;
    (if w < 1 { 1 } else { w as i32 }, target as i32)
}

// ---------------------------------------------------------------------------
// Laws
// ---------------------------------------------------------------------------

/// Every book is in exactly one state of reading, so the three counts add up to the library.
pub proof fn statuses_add_up(entries: Seq<EntryView>, n: int)
    requires
        0 <= n <= entries.len(),
    ensures
        status_count(entries, ReadingStatus::Unread, n) + status_count(
            entries,
            ReadingStatus::InProgress,
            n,
        ) + status_count(entries, ReadingStatus::Finished, n) == n,
    decreases n,
{
    if n > 0 {
        statuses_add_up(entries, n - 1);
    }
}

} // verus!
