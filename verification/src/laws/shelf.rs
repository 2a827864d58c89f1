//! The library shows the books that were asked for, and remembers what was read.

use vstd::prelude::*;

use crate::library::{
    are_shown_places, author_key, authors, distinct, languages, shown_before, sort_key, stats_line,
    stats_parts, status_count, status_of, title_key, FilterState, ReadingStatus, SortMode,
    StatusFilter,
};
use crate::library_page::{edited, kept_language};
use crate::order::{in_order, text_le};
use crate::persistence::{
    entry_at_path, upserted, with_language, with_position, with_shared, without_language, EntryView,
};
use crate::text::{contains, decimal, join, lowercase, starts_with, trimmed, words};

verus! {

// ---------------------------------------------------------------------------
// What is shown
// ---------------------------------------------------------------------------

/// How far a book has been read: not at all, to the end, or something between. A share of 0.97
/// counts as the end.
pub proof fn books_are_finished_near_their_end(e: EntryView, p: i64)
    ensures
        e.last_position_percent is None ==> status_of(e) == ReadingStatus::Unread,
        e.last_position_percent == Some(p) && p <= 0 ==> status_of(e) == ReadingStatus::Unread,
        e.last_position_percent == Some(p) && 0 < p < 0x3fef0a3d70a3d70a ==> status_of(e) == ReadingStatus::InProgress,
        e.last_position_percent == Some(p) && p >= 0x3fef0a3d70a3d70a ==> status_of(e) == ReadingStatus::Finished,
{
}

/// The book has the words that were asked for in its title or its author.
pub open spec fn has_words(e: EntryView, query: Seq<char>) -> bool {
    ||| query.len() == 0
    ||| contains(lowercase(e.title), query)
    ||| e.author is Some && contains(lowercase(e.author->0), query)
}

/// The book has the status that was asked for.
pub open spec fn has_status(e: EntryView, status: StatusFilter) -> bool {
    ||| status == StatusFilter::All
    ||| status == StatusFilter::Unread && status_of(e) == ReadingStatus::Unread
    ||| status == StatusFilter::InProgress && status_of(e) == ReadingStatus::InProgress
    ||| status == StatusFilter::Finished && status_of(e) == ReadingStatus::Finished
}

/// A book is shown, once, if it has the words, the status and the language that were asked for,
/// and no other is.
pub proof fn the_books_asked_for_are_shown(places: Seq<usize>, entries: Seq<EntryView>, filters: FilterState, k: usize)
    requires
        are_shown_places(places, entries, filters),
    ensures
        places.contains(k) <==> k < entries.len() && has_words(entries[k as int], filters.query@) && has_status(
            entries[k as int],
            filters.status,
        ) && (filters.language is Some ==> entries[k as int].language == Some(filters.language->0@)),
        forall|i: int, j: int| 0 <= i < j < places.len() ==> places[i] != places[j],
{
    if places.contains(k) {
        let i = choose|i: int| 0 <= i < places.len() && places[i] == k;
        assert(places[i] < entries.len());
    }
    assert forall|i: int, j: int| 0 <= i < j < places.len() implies places[i] != places[j] by {
        if places[i] == places[j] {
            assert(shown_before(entries, filters.sort, places[i], places[j]));
            assert(in_order(
                sort_key(entries[places[i] as int], filters.sort),
                sort_key(entries[places[i] as int], filters.sort),
                filters.sort.is_descending(),
            ));
        }
    }
}

/// The books are shown in the order that was asked for: those opened or added last first, by the
/// alphabet forwards or backwards, or those read furthest first.
pub proof fn books_are_shown_in_the_order_asked_for(
    places: Seq<usize>,
    entries: Seq<EntryView>,
    filters: FilterState,
    i: int,
    j: int,
)
    requires
        are_shown_places(places, entries, filters),
        0 <= i < j < places.len(),
    ensures
        ({
            let a = entries[places[i] as int];
            let b = entries[places[j] as int];
            let writer = |e: EntryView| author_key(if e.author is Some { e.author->0 } else { Seq::empty() });
            let share = |e: EntryView| if e.last_position_percent is Some { e.last_position_percent->0 as int } else { 0 };
            match filters.sort {
                SortMode::RecentlyOpened => a.last_opened_at > b.last_opened_at || a.last_opened_at == b.last_opened_at
                    && places[i] < places[j],
                SortMode::RecentlyAdded => a.added_at > b.added_at || a.added_at == b.added_at && places[i]
                    < places[j],
                SortMode::TitleAsc => text_le(title_key(a.title), title_key(b.title)),
                SortMode::TitleDesc => text_le(title_key(b.title), title_key(a.title)),
                SortMode::AuthorAsc => text_le(writer(a), writer(b)),
                SortMode::AuthorDesc => text_le(writer(b), writer(a)),
                SortMode::Progress => share(a) > share(b) || share(a) == share(b) && places[i] < places[j],
            }
        }),
{
    assert(shown_before(entries, filters.sort, places[i], places[j]));
}

/// In the order of titles an article in front does not count, nor the case of letters.
pub proof fn articles_do_not_count(title: Seq<char>, rest: Seq<char>)
    ensures
        lowercase(title) == "the "@ + rest ==> title_key(title) == rest,
        lowercase(title) == "an "@ + rest ==> title_key(title) == rest,
        lowercase(title) == "a "@ + rest ==> title_key(title) == rest,
        !starts_with(lowercase(title), "the "@) && !starts_with(lowercase(title), "an "@) && !starts_with(
            lowercase(title),
            "a "@,
        ) ==> title_key(title) == lowercase(title),
{
    reveal_strlit("the ");
    reveal_strlit("an ");
    reveal_strlit("a ");
    let lower = lowercase(title);
    if lower == "the "@ + rest {
        assert(lower.subrange(0, 4) =~= "the "@);
        assert(lower.skip(4) =~= rest);
    }
    if lower == "an "@ + rest {
        assert(lower[0] == 'a' && lower[1] == 'n');
        assert(lower.subrange(0, 3) =~= "an "@);
        if starts_with(lower, "the "@) {
            assert(lower.subrange(0, 4)[0] == lower[0]);
            assert("the "@[0] == 't');
        }
        assert(lower.skip(3) =~= rest);
    }
    if lower == "a "@ + rest {
        assert(lower[0] == 'a' && lower[1] == ' ');
        assert(lower.subrange(0, 2) =~= "a "@);
        if starts_with(lower, "the "@) {
            assert(lower.subrange(0, 4)[0] == lower[0]);
            assert("the "@[0] == 't');
        }
        if starts_with(lower, "an "@) {
            assert(lower.subrange(0, 3)[1] == lower[1]);
            assert("an "@[1] == 'n');
        }
        assert(lower.skip(2) =~= rest);
    }
}

/// Authors are ordered by their last name, whatever the case of its letters.
pub proof fn authors_are_ordered_by_last_name(author: Seq<char>, k: int)
    requires
        0 <= k == words(author).len() - 1,
    ensures
        author_key(author) == lowercase(words(author)[k]),
{
}

/// The language that a page is limited to stays as long as some book has it, and is given up with
/// the last.
pub proof fn languages_stay_as_long_as_they_are_there(entries: Seq<EntryView>, language: Seq<char>, k: int)
    ensures
        0 <= k < entries.len() && entries[k].language == Some(language) ==> kept_language(entries, Some(language))
            == Some(language),
        (forall|j: int| 0 <= j < entries.len() ==> (#[trigger] entries[j]).language != Some(language))
            ==> kept_language(entries, Some(language)) is None,
        kept_language(entries, None) is None,
        trimmed(language).len() > 0 ==> edited(language) == Some(trimmed(language)),
        trimmed(language).len() == 0 ==> edited(language) is None,
{
}

// ---------------------------------------------------------------------------
// Summing up
// ---------------------------------------------------------------------------

/// The books of a status are counted, all of them and no others.
pub proof fn books_are_counted_by_status(entries: Seq<EntryView>, status: ReadingStatus, n: int)
    requires
        0 <= n <= entries.len(),
    ensures
        status_count(entries, status, n) == entries.take(n).filter(|e: EntryView| status_of(e) == status).len(),
    decreases n,
{
    reveal(Seq::filter);
    if n > 0 {
        books_are_counted_by_status(entries, status, n - 1);
        assert(entries.take(n).drop_last() =~= entries.take(n - 1));
    }
}

/// Every value that is there is among the distinct ones, once.
pub proof fn values_are_counted_once(values: Seq<Option<Seq<char>>>, v: Seq<char>)
    ensures
        distinct(values).contains(v) <==> values.contains(Some(v)),
        distinct(values).no_duplicates(),
    decreases values.len(),
{
    if values.len() > 0 {
        let front = values.drop_last();
        values_are_counted_once(front, v);
        let before = distinct(front);
        let now = distinct(values);
        if values.contains(Some(v)) {
            let i = choose|i: int| 0 <= i < values.len() && values[i] == Some(v);
            if i < front.len() {
                assert(front[i] == Some(v));
            }
        }
        if front.contains(Some(v)) {
            let i = choose|i: int| 0 <= i < front.len() && front[i] == Some(v);
            assert(values[i] == Some(v));
        }
        if values.last() is Some {
            let x = values.last()->0;
            values_are_counted_once(front, x);
            assert(values[values.len() - 1] == Some(x));
            if !before.contains(x) {
                assert(now == before.push(x));
                assert(now[now.len() - 1] == x);
                if before.contains(v) {
                    let i = choose|i: int| 0 <= i < before.len() && before[i] == v;
                    assert(now[i] == v);
                }
                if now.contains(v) {
                    let i = choose|i: int| 0 <= i < now.len() && now[i] == v;
                    if i < before.len() {
                        assert(before[i] == v);
                    }
                }
                assert(now.no_duplicates()) by {
                    assert forall|i: int, j: int|
                        0 <= i < now.len() && 0 <= j < now.len() && i != j implies now[i] != now[j] by {
                        if i == before.len() {
                            assert(before.contains(before[j]));
                        } else if j == before.len() {
                            assert(before.contains(before[i]));
                        }
                    }
                }
            }
        }
    }
}

/// One, or more than one.
pub open spec fn counted(n: nat, one: Seq<char>, more: Seq<char>) -> Seq<char> {
    decimal(n) + (if n == 1 {
        one
    } else {
        more
    })
}

/// What the summary of a library says, part by part.
pub open spec fn summary(entries: Seq<EntryView>, visible: nat) -> Seq<Seq<char>> {
    let count = |s: ReadingStatus| entries.filter(|e: EntryView| status_of(e) == s).len();
    let reading = count(ReadingStatus::InProgress);
    let finished = count(ReadingStatus::Finished);
    let tongues = distinct(languages(entries)).len();
    seq![
        (if visible == entries.len() {
            Seq::empty()
        } else {
            "Showing "@ + decimal(visible) + " of "@
        }) + counted(entries.len(), " book"@, " books"@),
    ] + (if reading > 0 {
        seq![decimal(reading) + " in progress"@]
    } else {
        Seq::empty()
    }) + (if finished > 0 {
        seq![decimal(finished) + " finished"@]
    } else {
        Seq::empty()
    }) + seq![decimal(count(ReadingStatus::Unread)) + " unread"@] + seq![
        counted(distinct(authors(entries)).len(), " author"@, " authors"@),
    ] + (if tongues > 1 {
        seq![decimal(tongues) + " languages"@]
    } else {
        Seq::empty()
    })
}

/// The summary of a library names how many of its books are shown, if not all are, and how many
/// there are; of those how many are being read, finished and unread; how many authors wrote them;
/// and in how many languages if there is more than one. A count of none is left out for those
/// being read and those finished.
pub proof fn summaries_name_the_counts(entries: Seq<EntryView>, visible: nat)
    requires
        entries.len() > 0,
    ensures
        stats_line(entries, visible) == join(summary(entries, visible), " \u{b7} "@),
{
    let n = entries.len() as int;
    books_are_counted_by_status(entries, ReadingStatus::InProgress, n);
    books_are_counted_by_status(entries, ReadingStatus::Finished, n);
    books_are_counted_by_status(entries, ReadingStatus::Unread, n);
    assert(entries.take(n) =~= entries);
    reveal_strlit(" book");
    reveal_strlit("s");
    reveal_strlit(" books");
    reveal_strlit(" author");
    reveal_strlit(" authors");
    let writers = distinct(authors(entries)).len();
    let all = decimal(entries.len());
    let shown = "Showing "@ + decimal(visible) + " of "@;
    assert(all + " book"@ + "s"@ =~= Seq::<char>::empty() + (all + " books"@));
    assert(all + " book"@ + Seq::<char>::empty() =~= Seq::<char>::empty() + (all + " book"@));
    assert(shown + all + " book"@ + "s"@ =~= shown + (all + " books"@));
    assert(shown + all + " book"@ + Seq::<char>::empty() =~= shown + (all + " book"@));
    assert(decimal(writers) + " author"@ + "s"@ =~= decimal(writers) + " authors"@);
    assert(decimal(writers) + " author"@ + Seq::<char>::empty() =~= decimal(writers) + " author"@);
    assert(stats_parts(entries, visible) =~= summary(entries, visible));
}

// ---------------------------------------------------------------------------
// What is remembered
// ---------------------------------------------------------------------------

pub(crate) proof fn lemma_entry(entries: Seq<EntryView>, path: Seq<char>, k: int, from: int)
    requires
        0 <= from,
    ensures
        from <= k < entries.len() && entries[k].path == path && (forall|j: int|
            from <= j < k ==> (#[trigger] entries[j]).path != path) ==> entry_at_path(entries, path, from) == Some(k),
        (forall|j: int| from <= j < entries.len() ==> (#[trigger] entries[j]).path != path) ==> entry_at_path(
            entries,
            path,
            from,
        ) is None,
    decreases entries.len() - from,
{
    if from < entries.len() {
        lemma_entry(entries, path, k, from + 1);
    }
}

/// Entry `k` is the first with this path.
pub open spec fn is_first_at(entries: Seq<EntryView>, path: Seq<char>, k: int) -> bool {
    &&& 0 <= k < entries.len()
    &&& entries[k].path == path
    &&& forall|j: int| 0 <= j < k ==> (#[trigger] entries[j]).path != path
}

/// A book that is opened says from then on what was read of it, and when; one that is new is added
/// behind the others, unread and not shared.
pub proof fn opened_books_are_remembered(
    entries: Seq<EntryView>,
    path: Seq<char>,
    title: Seq<char>,
    author: Option<Seq<char>>,
    language: Option<Seq<char>>,
    content_hash: Option<Seq<char>>,
    now: int,
    k: int,
)
    ensures
        ({
            let after = upserted(entries, path, title, author, language, content_hash, now);
            &&& is_first_at(entries, path, k) ==> after.len() == entries.len() && {
                &&& after[k].title == title
                &&& after[k].author == author
                &&& after[k].language == language
                &&& after[k].last_opened_at == now
                &&& content_hash is Some ==> after[k].content_hash == content_hash
                &&& content_hash is None ==> after[k].content_hash == entries[k].content_hash
                &&& after[k].path == path
                &&& after[k].added_at == entries[k].added_at
                &&& after[k].last_position_node_id == entries[k].last_position_node_id
                &&& after[k].last_position_percent == entries[k].last_position_percent
                &&& after[k].shared == entries[k].shared
                &&& forall|j: int| 0 <= j < entries.len() && j != k ==> #[trigger] after[j] == entries[j]
            }
            &&& (forall|j: int| 0 <= j < entries.len() ==> (#[trigger] entries[j]).path != path) ==> {
                let e = after.last();
                &&& after.len() == entries.len() + 1
                &&& after.drop_last() == entries
                &&& e.path == path && e.title == title && e.author == author && e.language == language
                &&& e.content_hash == content_hash && e.added_at == now && e.last_opened_at == now
                &&& e.last_position_node_id is None && e.last_position_percent is None && e.shared is None
            }
        }),
{
    lemma_entry(entries, path, k, 0);
    let after = upserted(entries, path, title, author, language, content_hash, now);
    if forall|j: int| 0 <= j < entries.len() ==> (#[trigger] entries[j]).path != path {
        assert(after.drop_last() =~= entries);
    }
}

/// A place that is remembered, a language or a wish to share changes just that of the book it is
/// about, and nothing of another; a share of more than the whole is the whole, and less than
/// nothing is nothing.
pub proof fn one_book_is_changed_at_a_time(
    entries: Seq<EntryView>,
    path: Seq<char>,
    k: int,
    node_id: i64,
    share: i64,
    language: Option<Seq<char>>,
    shared: bool,
)
    requires
        is_first_at(entries, path, k),
    ensures
        with_position(entries, path, node_id, share) == entries.update(
            k,
            (EntryView {
                last_position_node_id: Some(node_id),
                last_position_percent: Some(
                    if share < 0 {
                        0
                    } else if share > 0x3ff0000000000000 {
                        0x3ff0000000000000
                    } else {
                        share
                    },
                ),
                ..entries[k]
            }),
        ),
        with_language(entries, path, language) == entries.update(k, (EntryView { language, ..entries[k] })),
        with_shared(entries, path, shared) == entries.update(k, (EntryView { shared: Some(shared), ..entries[k] })),
{
    lemma_entry(entries, path, k, 0);
}

/// A book that is not in the library changes nothing in it.
pub proof fn other_books_change_nothing(
    entries: Seq<EntryView>,
    path: Seq<char>,
    node_id: i64,
    share: i64,
    language: Option<Seq<char>>,
    shared: bool,
)
    requires
        forall|j: int| 0 <= j < entries.len() ==> (#[trigger] entries[j]).path != path,
    ensures
        with_position(entries, path, node_id, share) == entries,
        with_language(entries, path, language) == entries,
        with_shared(entries, path, shared) == entries,
{
    lemma_entry(entries, path, 0, 0);
}

/// The books whose language is not known are all found, in order.
pub proof fn books_without_language_are_found(entries: Seq<EntryView>, n: int)
    requires
        0 <= n <= entries.len(),
    ensures
        without_language(entries, n) == entries.take(n).filter(|e: EntryView| e.language is None).map_values(
            |e: EntryView| e.path,
        ),
    decreases n,
{
    reveal(Seq::filter);
    let p = |e: EntryView| e.language is None;
    let f = |e: EntryView| e.path;
    if n > 0 {
        books_without_language_are_found(entries, n - 1);
        assert(entries.take(n).drop_last() =~= entries.take(n - 1));
        let before = entries.take(n - 1).filter(p);
        assert(before.push(entries[n - 1]).map_values(f) =~= before.map_values(f).push(entries[n - 1].path));
    } else {
        assert(entries.take(0).filter(p).map_values(f) =~= Seq::<Seq<char>>::empty());
    }
}

} // verus!
