//! The library page: what it shows, how it answers to its controls, and what the dialogs on it
//! say.

use vstd::prelude::*;

use crate::library::{
    are_shown_places, filtered_and_sorted, is_choice, language_choice, languages, library_stats,
    occurs, peer_book_matches_search, stats_line, FilterState, LanguageChoice, SortMode,
    StatusFilter,
};
use crate::persistence::{
    entries_view, entry_at_path, set_library_entry_language, set_library_entry_shared,
    with_language, with_shared, EntryView, LibraryEntry,
};
use crate::schema::{opt_str, opt_text};
use crate::sharing::{offers_view, BookOffer, SharedBook};
use crate::text::{
    contains, decimal, lower_text, lowercase, push_decimal, texts, trim_text, trimmed,
};

verus! {

/// The library page: the books, and which of them it shows in which order.
pub struct LibraryPage {
    pub entries: Vec<LibraryEntry>,
    pub filters: FilterState,
}

/// A book as the page shows it.
pub struct Card {
    /// The place of the book in the library.
    pub place: usize,
    pub path: String,
    pub title: String,
    pub author: Option<String>,
    /// The language, to be edited; empty where none is known.
    pub language: String,
    pub shared: bool,
    /// How far the reader has come.
    pub progress: Option<i64>,
}

impl Card {
    /// The card shows the entry.
    pub open spec fn shows(&self, e: EntryView) -> bool {
        &&& self.path@ == e.path
        &&& self.title@ == e.title
        &&& opt_text(self.author) == e.author
        &&& self.language@ == match e.language {
            Some(l) => l,
            None => Seq::empty(),
        }
        &&& self.shared == (e.shared == Some(true))
        &&& self.progress == e.last_position_percent
    }
}

/// What the page shows.
pub struct ShownLibrary {
    pub languages: LanguageChoice,
    pub cards: Vec<Card>,
    pub stats: String,
    /// There are no books at all, so that a message takes the place of the cards.
    pub empty: bool,
}

/// The places of the books that cards show.
pub open spec fn card_places(cards: Seq<Card>) -> Seq<usize> {
    cards.map_values(|c: Card| c.place)
}

/// The language by which to filter, where it still occurs in the library.
pub open spec fn kept_language(
    entries: Seq<EntryView>,
    current: Option<Seq<char>>,
) -> Option<Seq<char>> {
    match current {
        Some(c) => if exists|i: int| 0 <= i < entries.len() && #[trigger] entries[i].language == Some(c) {
            Some(c)
        } else {
            None
        },
        None => None,
    }
}

/// What an edited language says: nothing where there is only white space.
pub open spec fn edited(text: Seq<char>) -> Option<Seq<char>> {
    if trimmed(text).len() == 0 {
        None
    } else {
        Some(trimmed(text))
    }
}

fn edited_text(text: &str) -> (r: Option<String>)
    ensures
        opt_text(r) == edited(text@),
{
    let t = trim_text(text);
    if t.as_str().is_empty() {
        None
    } else {
        Some(t)
    }
}

fn card(e: &LibraryEntry, place: usize) -> (r: Card)
    ensures
        r.place == place,
        r.shows(e@),
{
    let language = match &e.language {
        Some(l) => l.clone(),
        None => String::new(),
    };
    let shared = match e.shared {
        Some(b) => b,
        None => false,
    };
    assert(language@ =~= match e@.language {
        Some(l) => l,
        None => Seq::empty(),
    });
    Card {
        place,
        path: e.path.clone(),
        title: e.title.clone(),
        author: e.author.clone(),
        language,
        shared,
        progress: e.last_position_percent,
    }
}

impl LibraryPage {
    /// The page of a library, with every book on it, the one that was opened last first.
    pub fn new(entries: Vec<LibraryEntry>) -> (r: LibraryPage)
        ensures
            r.entries@ == entries@,
            r.filters.query@.len() == 0,
            r.filters.sort == SortMode::RecentlyOpened,
            r.filters.status == StatusFilter::All,
            r.filters.language is None,
    {
        LibraryPage { entries, filters: FilterState::new() }
    }

    /// Takes over the library as it is now.
    pub fn reload(&mut self, entries: Vec<LibraryEntry>)
        ensures
            final(self).entries@ == entries@,
            final(self).filters == old(self).filters,
    {
        self.entries = entries;
    }

    /// Looks for what was typed in titles and authors, whatever its case.
    pub fn search(&mut self, text: &str)
        ensures
            final(self).entries@ == old(self).entries@,
            final(self).filters.query@ == lowercase(text@),
            final(self).filters.sort == old(self).filters.sort,
            final(self).filters.status == old(self).filters.status,
            final(self).filters.language == old(self).filters.language,
    {
        self.filters.query = lower_text(text);
    }

    /// Sorts by the order at a place of the list of orders. Behind its end nothing changes.
    pub fn choose_sort(&mut self, place: usize)
        ensures
            final(self).entries@ == old(self).entries@,
            final(self).filters.query@ == old(self).filters.query@,
            final(self).filters.sort == sort_at(place as int, old(self).filters.sort),
            final(self).filters.status == old(self).filters.status,
            final(self).filters.language == old(self).filters.language,
    {
        if place == 0 {
            self.filters.sort = SortMode::RecentlyOpened;
        } else if place == 1 {
            self.filters.sort = SortMode::RecentlyAdded;
        } else if place == 2 {
            self.filters.sort = SortMode::TitleAsc;
        } else if place == 3 {
            self.filters.sort = SortMode::TitleDesc;
        } else if place == 4 {
            self.filters.sort = SortMode::AuthorAsc;
        } else if place == 5 {
            self.filters.sort = SortMode::AuthorDesc;
        } else if place == 6 {
            self.filters.sort = SortMode::Progress;
        }
    }

    /// Shows the books with a status, when its button goes down.
    pub fn choose_status(&mut self, status: StatusFilter, active: bool)
        ensures
            final(self).entries@ == old(self).entries@,
            final(self).filters.query@ == old(self).filters.query@,
            final(self).filters.sort == old(self).filters.sort,
            final(self).filters.status == (if active {
                status
            } else {
                old(self).filters.status
            }),
            final(self).filters.language == old(self).filters.language,
    {
        if active {
            self.filters.status = status;
        }
    }

    /// Shows the books in the language at a place of the choice; all of them for place zero.
    pub fn choose_language(&mut self, choice: &LanguageChoice, place: usize)
        ensures
            final(self).entries@ == old(self).entries@,
            final(self).filters.query@ == old(self).filters.query@,
            final(self).filters.sort == old(self).filters.sort,
            final(self).filters.status == old(self).filters.status,
            opt_text(final(self).filters.language) == (if 1 <= place <= choice.languages@.len() {
                Some(texts(choice.languages@)[place - 1])
            } else {
                None
            }),
    {
        self.filters.language = if place > 0 && place - 1 < choice.languages.len() {
            Some(choice.languages[place - 1].clone())
        } else {
            None
        };
    }

    /// Sets the language of a book to what was typed, and gives what is to be saved.
    pub fn edit_language(&mut self, path: &str, text: &str) -> (r: Option<String>)
        ensures
            opt_text(r) == edited(text@),
            entries_view(final(self).entries@) == with_language(
                entries_view(old(self).entries@),
                path@,
                edited(text@),
            ),
            final(self).filters == old(self).filters,
    {
        let language = edited_text(text);
        let saved: Option<&str> = match &language {
            Some(l) => Some(l.as_str()),
            None => None,
        };
        set_library_entry_language(&mut self.entries, path, saved);
        language
    }

    /// Takes the language of a book away.
    pub fn clear_language(&mut self, path: &str)
        ensures
            entries_view(final(self).entries@) == with_language(
                entries_view(old(self).entries@),
                path@,
                None,
            ),
            final(self).filters == old(self).filters,
    {
        set_library_entry_language(&mut self.entries, path, None);
    }

    /// Takes over a language that was found in a book, and gives whether there is anything to
    /// save. An empty language is none.
    pub fn language_found(&mut self, path: &str, language: Option<&str>) -> (r: bool)
        ensures
            r == (language is Some && language->0@.len() > 0 && entry_at_path(
                entries_view(old(self).entries@),
                path@,
                0,
            ) is Some),
            entries_view(final(self).entries@) == (if language is Some && language->0@.len() > 0 {
                with_language(entries_view(old(self).entries@), path@, opt_str(language))
            } else {
                entries_view(old(self).entries@)
            }),
            final(self).filters == old(self).filters,
    {
        match language {
            Some(l) => if l.is_empty() {
                false
            } else {
                set_library_entry_language(&mut self.entries, path, Some(l))
            },
            None => false,
        }
    }

    /// Offers a book to other devices, or no longer.
    pub fn toggle_share(&mut self, path: &str, shared: bool)
        ensures
            entries_view(final(self).entries@) == with_shared(
                entries_view(old(self).entries@),
                path@,
                shared,
            ),
            final(self).filters == old(self).filters,
    {
        set_library_entry_shared(&mut self.entries, path, shared);
    }

    fn cards(&self) -> (r: Vec<Card>)
        ensures
            are_shown_places(card_places(r@), entries_view(self.entries@), self.filters),
            forall|i: int|
                0 <= i < r@.len() ==> (#[trigger] r@[i]).place < self.entries@.len() && r@[i].shows(
                    entries_view(self.entries@)[r@[i].place as int],
                ),
    {
        let places = filtered_and_sorted(&self.entries, &self.filters);
        let ghost all = entries_view(self.entries@);
        let mut out: Vec<Card> = Vec::new();
        let mut i: usize = 0;
        while i < places.len()
            invariant
                i <= places@.len(),
                all == entries_view(self.entries@),
                are_shown_places(places@, all, self.filters),
                out@.len() == i,
                forall|j: int|
                    0 <= j < i ==> (#[trigger] out@[j]).place == places@[j] && out@[j].shows(
                        all[places@[j] as int],
                    ),
            decreases places@.len() - i,
        {
            let place: usize = places[i];
            assert(places@[i as int] < all.len());
            assert(all[place as int] == self.entries@[place as int]@);
            out.push(card(&self.entries[place], place));
            i += 1;
        }
        assert(card_places(out@) =~= places@);
        assert forall|i: int| 0 <= i < out@.len() implies (#[trigger] out@[i]).place
            < self.entries@.len() by {
            assert(places@[i] < all.len());
        }
        out
    }

    /// What the page shows now. A language that does not occur any more is no longer filtered by.
    pub fn refresh(&mut self) -> (r: ShownLibrary)
        ensures
            final(self).entries@ == old(self).entries@,
            final(self).filters.query@ == old(self).filters.query@,
            final(self).filters.sort == old(self).filters.sort,
            final(self).filters.status == old(self).filters.status,
            opt_text(final(self).filters.language) == kept_language(
                entries_view(old(self).entries@),
                opt_text(old(self).filters.language),
            ),
            is_choice(
                r.languages,
                entries_view(old(self).entries@),
                opt_text(old(self).filters.language),
            ),
            are_shown_places(
                card_places(r.cards@),
                entries_view(old(self).entries@),
                final(self).filters,
            ),
            forall|i: int|
                0 <= i < r.cards@.len() ==> (#[trigger] r.cards@[i]).place < old(self).entries@.len()
                    && r.cards@[i].shows(
                    entries_view(old(self).entries@)[r.cards@[i].place as int],
                ),
            r.stats@ == stats_line(entries_view(old(self).entries@), r.cards@.len()),
            r.empty == (old(self).entries@.len() == 0),
    {
        let ghost all = entries_view(self.entries@);
        let ghost before = opt_text(self.filters.language);
        let current: Option<&str> = match &self.filters.language {
            Some(l) => Some(l.as_str()),
            None => None,
        };
        let choice = language_choice(&self.entries, current);
        proof {
            if let Some(c) = before {
                if occurs(languages(all), c) {
                    let i = choose|i: int| 0 <= i < all.len() && #[trigger] languages(all)[i] == Some(c);
                    assert(all[i].language == Some(c));
                }
                if exists|i: int| 0 <= i < all.len() && #[trigger] all[i].language == Some(c) {
                    let i = choose|i: int| 0 <= i < all.len() && #[trigger] all[i].language == Some(c);
                    assert(languages(all)[i] == Some(c));
                }
            }
        }
        if choice.selected == 0 {
            self.filters.language = None;
        }
        let cards = self.cards();
        let stats = library_stats(&self.entries, cards.len());
        let empty = self.entries.len() == 0;
        ShownLibrary { languages: choice, cards, stats, empty }
    }
}

/// The order at a place of the list of orders, or another one behind its end.
pub open spec fn sort_at(place: int, other: SortMode) -> SortMode {
    if place == 0 {
        SortMode::RecentlyOpened
    } else if place == 1 {
        SortMode::RecentlyAdded
    } else if place == 2 {
        SortMode::TitleAsc
    } else if place == 3 {
        SortMode::TitleDesc
    } else if place == 4 {
        SortMode::AuthorAsc
    } else if place == 5 {
        SortMode::AuthorDesc
    } else if place == 6 {
        SortMode::Progress
    } else {
        other
    }
}

// ---------------------------------------------------------------------------
// Importing
// ---------------------------------------------------------------------------

/// What is said while books are imported: one book, or those of a folder, of which so many of so
/// many are done.
pub open spec fn import_status_text(folder: Option<Option<(nat, nat)>>) -> Seq<char> {
    match folder {
        None => "Importing\u{2026} (you can keep browsing or open a book meanwhile)"@,
        Some(None) => "Importing folder\u{2026} (you can keep browsing or open a book meanwhile)"@,
        Some(Some((done, total))) => "Importing folder\u{2026} "@ + decimal(done) + "/"@ + decimal(total)
            + " (you can keep browsing or open a book meanwhile)"@,
    }
}

/// What is said when the import of a book or a folder begins.
pub fn import_started(folder: bool) -> (r: &'static str)
    ensures
        r@ == import_status_text(if folder {
            Some(None)
        } else {
            None
        }),
{
    if folder {
        "Importing folder\u{2026} (you can keep browsing or open a book meanwhile)"
    } else {
        "Importing\u{2026} (you can keep browsing or open a book meanwhile)"
    }
}

/// What is said when so many books of a folder are done.
pub fn import_progress(done: usize, total: usize) -> (r: String)
    ensures
        r@ == import_status_text(Some(Some((done as nat, total as nat)))),
{
    let mut out = "Importing folder\u{2026} ".to_owned();
    push_decimal(&mut out, done as u64);
    out.append("/");
    push_decimal(&mut out, total as u64);
    out.append(" (you can keep browsing or open a book meanwhile)");
    out
}

/// What is said when the import of a file has ended, well or with an error.
pub fn import_ended(file_name: &str, error: Option<&str>) -> (r: String)
    ensures
        r@ == (match opt_str(error) {
            None => "Imported "@ + file_name@,
            Some(e) => "Import failed: "@ + file_name@ + ": "@ + e,
        }),
{
    match error {
        None => {
            let mut out = "Imported ".to_owned();
            out.append(file_name);
            out
        },
        Some(e) => {
            let mut out = "Import failed: ".to_owned();
            out.append(file_name);
            out.append(": ");
            out.append(e);
            out
        },
    }
}

// ---------------------------------------------------------------------------
// Other devices
// ---------------------------------------------------------------------------

/// What is said in place of a list of devices, where there is none to show.
pub fn nearby_message(sharing: bool, peers: usize) -> (r: Option<&'static str>)
    ensures
        opt_str(r) == (if !sharing {
            Some("Enable LAN sharing in Settings to discover nearby devices."@)
        } else if peers == 0 {
            Some("Searching for devices\u{2026} make sure LAN sharing is on for them too."@)
        } else {
            None
        }),
{
    if !sharing {
        Some("Enable LAN sharing in Settings to discover nearby devices.")
    } else if peers == 0 {
        Some("Searching for devices\u{2026} make sure LAN sharing is on for them too.")
    } else {
        None
    }
}

/// What was typed occurs in the title or the author of a book, whatever its case.
pub open spec fn offer_matches(b: BookOffer, text: Seq<char>) -> bool {
    let wanted = lowercase(text);
    wanted.len() == 0 || contains(lowercase(b.title), wanted) || (b.author matches Some(a) && contains(
        lowercase(a),
        wanted,
    ))
}

/// The places, among the first `n` books, of those that match what was typed.
pub open spec fn matching_offers(books: Seq<BookOffer>, text: Seq<char>, n: int) -> Seq<usize>
    decreases n,
{
    if n <= 0 {
        Seq::empty()
    } else if offer_matches(books[n - 1], text) {
        matching_offers(books, text, n - 1).push((n - 1) as usize)
    } else {
        matching_offers(books, text, n - 1)
    }
}

/// The books of another device that match what was typed.
pub fn peer_books_shown(books: &Vec<SharedBook>, text: &str) -> (r: Vec<usize>)
    ensures
        r@ == matching_offers(offers_view(books@), text@, books@.len() as int),
{
    let wanted = lower_text(text);
    let mut out: Vec<usize> = Vec::new();
    let mut k: usize = 0;
    while k < books.len()
        invariant
            k <= books@.len(),
            wanted@ == lowercase(text@),
            out@ == matching_offers(offers_view(books@), text@, k as int),
        decreases books@.len() - k,
    {
        assert(offers_view(books@)[k as int] == books@[k as int]@);
        if peer_book_matches_search(&books[k], wanted.as_str()) {
            out.push(k);
        }
        k += 1;
    }
    out
}

/// What is said in place of a list of books that is empty: the device may offer none at all.
pub fn no_peer_books_message(offered: usize) -> (r: &'static str)
    ensures
        r@ == (if offered == 0 {
            "This device isn't sharing any books right now."@
        } else {
            "No books match your search."@
        }),
{
    if offered == 0 {
        "This device isn't sharing any books right now."
    } else {
        "No books match your search."
    }
}

/// What is asked before a book is fetched from another device. The size is in megabytes.
pub fn import_question(book: &SharedBook, peer_name: &str, size: &str) -> (r: String)
    ensures
        r@ == "Import \u{201c}"@ + book.title@ + "\u{201d}"@ + (match opt_text(book.author) {
            Some(a) => " by "@ + a,
            None => Seq::empty(),
        }) + " from "@ + peer_name@ + "? ("@ + size@ + " MB)"@,
{
    let mut out = "Import \u{201c}".to_owned();
    out.append(book.title.as_str());
    out.append("\u{201d}");
    let ghost before = out@;
    if let Some(a) = &book.author {
        out.append(" by ");
        out.append(a.as_str());
    }
    assert(out@ =~= before + (match opt_text(book.author) {
        Some(a) => " by "@ + a,
        None => Seq::empty(),
    }));
    out.append(" from ");
    out.append(peer_name);
    out.append("? (");
    out.append(size);
    out.append(" MB)");
    out
}

// ---------------------------------------------------------------------------
// Laws
// ---------------------------------------------------------------------------

/// What was taken off the list of languages hides nothing: a page that filters by a language
/// always has a book in that language.
pub proof fn filters_never_strand_a_page(entries: Seq<EntryView>, current: Option<Seq<char>>)
    ensures
        kept_language(entries, current) matches Some(c) ==> exists|i: int|
            0 <= i < entries.len() && #[trigger] entries[i].language == Some(c),
        kept_language(entries, kept_language(entries, current)) == kept_language(entries, current),
{
}

} // verus!
