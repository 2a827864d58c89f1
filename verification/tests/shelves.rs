//! The library, its shortcuts, and sharing it.

use std::collections::hash_map::DefaultHasher;
use std::hash::{Hash, Hasher};
use std::path::Path;

use weland::toolkit::shorten;
use weland::sharing::incoming_file_name;
use weland::bookshelf::{
    create_highlight, create_text_note, export_name, export_names, find_last_position, get_author_name,
    guess_os_author_name, list_library, remove_from_library, save_voice_note, BulkImportSummary, ExportResult,
    ImportOutcome,
};
use weland::fonts::{family_for, reading_fonts};
use weland::keybindings::{
    action_for_key, apply, binding_for_key, defaults, display, is_pure_modifier, load, relevant_modifiers, save, Action,
    ACTION_COUNT, CONTROL_MASK,
};
use weland::library::{
    author_sort_key, cover_size, filtered_and_sorted, import_summary, imported_title, is_epub_extension,
    is_visible_directory, language_choice, library_stats, peer_book_matches_search, reading_status, title_sort_key,
    FilterState, ReadingStatus, SortMode, StatusFilter, FINISHED_THRESHOLD,
};
use weland::persistence::{
    clear_last_position, paths_without_language, received_wld_output_path, sandboxed_wld_output_path,
    set_library_entry_language, set_library_entry_shared, update_reading_position, upsert_library_entry, KeyBinding,
    LibraryEntry, WHOLE_BOOK,
};
use weland::sharing::{
    accept_received, already_imported, book_url, books_url, find_offered, offered_books, peer_removed, peer_resolved,
    route, sanitize_label, share_at_startup, share_toggled, PeerInfo, ShareChange, ShareRequest, SharedBook,
};
use weland::toolkit::derive_default_output;

/// The integer that stands for a fraction of a book.
fn key(p: f64) -> i64 {
    if p < 0.0 {
        -((-p).to_bits() as i64)
    } else {
        p.to_bits() as i64
    }
}

fn shared_book(title: &str, author: Option<&str>) -> SharedBook {
    SharedBook { title: title.to_string(), author: author.map(String::from), content_hash: "hash".to_string(), size: 0 }
}

#[test]
fn peer_book_search_matches_title_and_author_case_insensitively() {
    let book = shared_book("The Divine Comedy", Some("Dante Alighieri"));

    assert!(peer_book_matches_search(&book, ""), "an empty filter must match everything");
    assert!(peer_book_matches_search(&book, "divine"), "must match a substring of the title");
    assert!(peer_book_matches_search(&book, &"DANTE".to_lowercase()), "must match case-insensitively");
    assert!(peer_book_matches_search(&book, "alighieri"), "must match a substring of the author");
    assert!(!peer_book_matches_search(&book, "beowulf"), "must not match unrelated text");
}

#[test]
fn peer_book_search_handles_missing_author() {
    let book = shared_book("Fresh Test Book", None);
    assert!(peer_book_matches_search(&book, ""));
    assert!(peer_book_matches_search(&book, "fresh"));
    assert!(!peer_book_matches_search(&book, "anyone"), "no author to match against must not panic or false-match");
}

fn entry(
    title: &str,
    author: Option<&str>,
    language: Option<&str>,
    added_at: i64,
    last_opened_at: i64,
    percent: Option<f64>,
) -> LibraryEntry {
    LibraryEntry {
        path: format!("/books/{title}.wld"),
        title: title.to_string(),
        author: author.map(String::from),
        added_at,
        last_opened_at,
        last_position_node_id: percent.map(|_| 1),
        last_position_percent: percent.map(key),
        language: language.map(String::from),
        content_hash: None,
        shared: None,
    }
}

fn shown<'a>(entries: &'a Vec<LibraryEntry>, filters: &FilterState) -> Vec<&'a LibraryEntry> {
    filtered_and_sorted(entries, filters).into_iter().map(|i| &entries[i]).collect()
}

#[test]
fn reading_status_buckets_by_percent() {
    assert_eq!(reading_status(&entry("A", None, None, 0, 0, None)), ReadingStatus::Unread);
    assert_eq!(reading_status(&entry("A", None, None, 0, 0, Some(0.0))), ReadingStatus::Unread);
    assert_eq!(reading_status(&entry("A", None, None, 0, 0, Some(0.5))), ReadingStatus::InProgress);
    assert_eq!(reading_status(&entry("A", None, None, 0, 0, Some(0.99))), ReadingStatus::Finished);
    assert_eq!(
        reading_status(&entry("A", None, None, 0, 0, Some(f64::from_bits(FINISHED_THRESHOLD as u64)))),
        ReadingStatus::Finished
    );
    assert_eq!(FINISHED_THRESHOLD, key(0.97));
}

#[test]
fn filtered_and_sorted_applies_query_status_and_language_together() {
    let entries = vec![
        entry("Beowulf", Some("Unknown"), Some("en"), 1, 1, None),
        entry("The Poetic Edda", Some("Snorri Sturluson"), Some("en"), 2, 2, Some(0.5)),
        entry("Faust", Some("Goethe"), Some("de"), 3, 3, Some(1.0)),
    ];
    let mut filters = FilterState::new();

    // No filters: everything, default sort (RecentlyOpened) puts the
    // highest last_opened_at first.
    let all = shown(&entries, &filters);
    assert_eq!(all.iter().map(|e| e.title.as_str()).collect::<Vec<_>>(), vec!["Faust", "The Poetic Edda", "Beowulf"]);

    filters.status = StatusFilter::InProgress;
    let in_progress = shown(&entries, &filters);
    assert_eq!(in_progress.len(), 1);
    assert_eq!(in_progress[0].title, "The Poetic Edda");

    filters.status = StatusFilter::All;
    filters.language = Some("de".to_string());
    let german = shown(&entries, &filters);
    assert_eq!(german.len(), 1);
    assert_eq!(german[0].title, "Faust");

    filters.language = None;
    filters.query = "poetic".to_string();
    let searched = shown(&entries, &filters);
    assert_eq!(searched.len(), 1);
    assert_eq!(searched[0].title, "The Poetic Edda");
}

#[test]
fn filtered_and_sorted_query_matches_author_too() {
    let entries = vec![entry("The Poetic Edda", Some("Snorri Sturluson"), None, 1, 1, None)];
    let mut filters = FilterState::new();
    filters.query = "sturluson".to_string();
    assert_eq!(filtered_and_sorted(&entries, &filters).len(), 1);
}

#[test]
fn sort_modes_order_correctly() {
    let entries = vec![
        entry("Zeta", Some("Zed"), None, 100, 10, Some(0.1)),
        entry("Alpha", Some("Anne"), None, 200, 20, Some(0.9)),
    ];
    let mut filters = FilterState::new();

    filters.sort = SortMode::TitleAsc;
    assert_eq!(shown(&entries, &filters)[0].title, "Alpha");

    filters.sort = SortMode::TitleDesc;
    assert_eq!(shown(&entries, &filters)[0].title, "Zeta");

    filters.sort = SortMode::AuthorAsc;
    assert_eq!(shown(&entries, &filters)[0].author.as_deref(), Some("Anne"));

    filters.sort = SortMode::AuthorDesc;
    assert_eq!(shown(&entries, &filters)[0].author.as_deref(), Some("Zed"));

    filters.sort = SortMode::RecentlyAdded;
    assert_eq!(shown(&entries, &filters)[0].title, "Alpha");

    filters.sort = SortMode::Progress;
    assert_eq!(shown(&entries, &filters)[0].title, "Alpha");
}

#[test]
fn author_sort_uses_surname_not_full_name() {
    assert_eq!(author_sort_key("George R. R. Martin"), "martin");
    assert_eq!(author_sort_key("Amy Adams"), "adams");

    // First-name order and surname order disagree for this pair --
    // "Amy" < "Zoe" but "martin" < "wells", so this only passes if
    // sorting is really keying off the surname.
    let entries = vec![
        entry("The Hollow Crown", Some("Zoe Martin"), None, 1, 1, None),
        entry("Faust", Some("Amy Wells"), None, 2, 2, None),
    ];
    let mut filters = FilterState::new();
    filters.sort = SortMode::AuthorAsc;
    assert_eq!(shown(&entries, &filters)[0].author.as_deref(), Some("Zoe Martin"));
}

#[test]
fn title_sort_ignores_leading_articles() {
    assert_eq!(title_sort_key("The Hobbit"), "hobbit");
    assert_eq!(title_sort_key("An American Tragedy"), "american tragedy");
    assert_eq!(title_sort_key("A Game of Thrones"), "game of thrones");
    // No leading article -- unaffected.
    assert_eq!(title_sort_key("Beowulf"), "beowulf");

    // "The Apple" sorts under "A" (ahead of "Banana Republic"), not "T"
    // -- straight string comparison ("the apple" vs "banana...") would
    // put Banana Republic first instead, since 't' > 'b'.
    let entries = vec![
        entry("Banana Republic", None, None, 1, 1, None),
        entry("The Apple", None, None, 2, 2, None),
    ];
    let mut filters = FilterState::new();
    filters.sort = SortMode::TitleAsc;
    assert_eq!(shown(&entries, &filters)[0].title, "The Apple");
    // Letters outside ASCII have a lowercase form too.
    assert_eq!(title_sort_key("\u{c9}mile"), "\u{e9}mile");
}

#[test]
fn library_stats_summarizes_the_whole_library_not_a_filtered_subset() {
    let entries = vec![
        entry("A", Some("X"), Some("en"), 1, 1, None),
        entry("B", Some("Y"), Some("en"), 2, 2, Some(0.5)),
        entry("C", Some("X"), Some("fr"), 3, 3, Some(1.0)),
    ];
    let stats = library_stats(&entries, entries.len());
    assert!(stats.contains("3 books"), "{stats}");
    assert!(stats.contains("1 in progress"), "{stats}");
    assert!(stats.contains("1 finished"), "{stats}");
    assert!(stats.contains("1 unread"), "{stats}");
    assert!(stats.contains("2 authors"), "{stats}");
    assert!(stats.contains("2 languages"), "{stats}");
}

#[test]
fn library_stats_shows_the_visible_count_when_a_filter_narrows_it() {
    let entries = vec![
        entry("A", Some("X"), None, 1, 1, None),
        entry("B", Some("Y"), None, 2, 2, None),
        entry("C", Some("X"), None, 3, 3, None),
    ];
    let stats = library_stats(&entries, 1);
    assert!(stats.contains("Showing 1 of 3 books"), "{stats}");
}

#[test]
fn library_stats_is_empty_for_an_empty_library() {
    assert_eq!(library_stats(&vec![], 0), "");
}

#[test]
fn languages_are_offered_in_order() {
    let entries = vec![
        entry("A", None, Some("fr"), 1, 1, None),
        entry("B", None, Some("en"), 1, 1, None),
        entry("C", None, Some("fr"), 1, 1, None),
        entry("D", None, None, 1, 1, None),
    ];
    let choice = language_choice(&entries, Some("fr"));
    assert_eq!(choice.languages, vec!["en".to_string(), "fr".to_string()]);
    assert_eq!(choice.selected, 2);
    assert_eq!(paths_without_language(&entries), vec!["/books/D.wld".to_string()]);
}

#[test]
fn folders_are_searched_for_epubs() {
    assert!(is_visible_directory("Books"));
    assert!(!is_visible_directory(".caltrash"));
    assert!(is_epub_extension("EPUB"));
    assert!(!is_epub_extension("pdf"));
    assert_eq!(imported_title(None, Some("stem")), "stem");
    assert_eq!(imported_title(None, None), "Untitled");
    assert_eq!(imported_title(Some("T"), Some("stem")), "T");
    assert_eq!(import_summary(0, 0), "No EPUBs found in that folder");
    assert_eq!(import_summary(1, 0), "Imported 1 book");
    assert_eq!(import_summary(2, 1), "Imported 2, 1 failed");
    assert_eq!(import_summary(0, 2), "2 imports failed");
    let (w, h) = cover_size(1000, 2000);
    assert!(w > 0 && h > 0 && w < h);
}

#[test]
fn every_action_has_a_distinct_default_binding() {
    let defaults = defaults();
    assert_eq!(defaults.keys.len(), ACTION_COUNT);
    let mut seen = std::collections::HashSet::new();
    for i in 0..ACTION_COUNT {
        assert!(seen.insert(defaults.get(Action::at(i))), "two actions must not share a default binding");
    }
}

const ESCAPE: u32 = 0xff1b;

#[test]
fn action_for_key_finds_the_bound_action_and_ignores_unbound_keys() {
    let bindings = defaults();
    assert_eq!(action_for_key(&bindings, ESCAPE, 0), Some(Action::BackToLibrary));
    assert_eq!(action_for_key(&bindings, 'a' as u32, 0), None);
}

#[test]
fn save_persists_and_load_merges_with_defaults() {
    let custom = binding_for_key('j' as u32, 0);
    let saved = save(&vec![], Action::ScrollDown, custom);

    let loaded = load(&saved);
    assert_eq!(loaded.get(Action::ScrollDown), custom);
    // Every other action must still resolve to its default -- saving
    // one action's override must not disturb the rest.
    assert_eq!(loaded.get(Action::ScrollUp), Action::ScrollUp.default_binding());
}

#[test]
fn save_steals_a_binding_from_whichever_action_previously_held_it() {
    let escape = Action::BackToLibrary.default_binding();
    let saved = save(&vec![], Action::ToggleSidebar, escape);

    let loaded = load(&saved);
    assert_eq!(loaded.get(Action::ToggleSidebar), escape, "the action just rebound must have the new key");
    assert_eq!(
        loaded.get(Action::BackToLibrary),
        Action::BackToLibrary.default_binding(),
        "the action that lost the key must fall back to its own default, not keep dangling"
    );
}

#[test]
fn apply_steals_a_binding_in_memory_without_touching_disk() {
    let mut bindings = defaults();
    let escape = Action::BackToLibrary.default_binding();
    apply(&mut bindings, Action::ToggleSidebar, escape);

    assert_eq!(bindings.get(Action::ToggleSidebar), escape);
    assert_eq!(bindings.get(Action::BackToLibrary), Action::BackToLibrary.default_binding());
}

#[test]
fn relevant_modifiers_ignores_lock_and_button_bits() {
    let lock = 2;
    let button1 = 256;
    assert_eq!(relevant_modifiers(CONTROL_MASK | lock | button1), CONTROL_MASK);
}

#[test]
fn shortcuts_are_shown_with_their_modifiers() {
    let b = KeyBinding { keyval: 'j' as u32, modifiers: CONTROL_MASK };
    assert_eq!(display(b, Some("j")), "Ctrl+j");
    assert!(is_pure_modifier(0xffe1));
    assert!(!is_pure_modifier('j' as u32));
    assert_eq!(Action::ScrollDown.id(), "scroll_down");
    assert_eq!(Action::ScrollDown.label(), "Scroll down");
}

#[test]
fn library_upsert_adds_then_updates_in_place() {
    let mut entries: Vec<LibraryEntry> = Vec::new();

    upsert_library_entry(&mut entries, "/books/odyssey.wld", "The Odyssey", Some("Homer"), Some("en"), Some("abc123"), 1);
    assert_eq!(entries.len(), 1);
    assert_eq!(entries[0].title, "The Odyssey");
    assert_eq!(entries[0].last_position_node_id, None);
    assert_eq!(entries[0].content_hash.as_deref(), Some("abc123"));

    assert!(update_reading_position(&mut entries, "/books/odyssey.wld", 42, key(0.5)));
    upsert_library_entry(&mut entries, "/books/odyssey.wld", "The Odyssey (2nd ed.)", Some("Homer"), Some("en"), None, 2);

    assert_eq!(entries.len(), 1, "re-adding the same path must not duplicate the entry");
    assert_eq!(entries[0].title, "The Odyssey (2nd ed.)");
    // Re-upserting title/author must not clobber the reading position set
    // in between.
    assert_eq!(entries[0].last_position_node_id, Some(42));
    assert_eq!(entries[0].last_position_percent, Some(key(0.5)));
    // A later upsert with no content_hash must not clobber a hash already
    // captured.
    assert_eq!(entries[0].content_hash.as_deref(), Some("abc123"));
    assert_eq!((entries[0].added_at, entries[0].last_opened_at), (1, 2));
}

#[test]
fn update_reading_position_clamps_percent() {
    let mut entries: Vec<LibraryEntry> = Vec::new();
    upsert_library_entry(&mut entries, "/books/x.wld", "X", None, None, None, 0);
    update_reading_position(&mut entries, "/books/x.wld", 1, key(1.5));
    assert_eq!(entries[0].last_position_percent, Some(key(1.0)));
    assert_eq!(WHOLE_BOOK, key(1.0));
    update_reading_position(&mut entries, "/books/x.wld", 1, key(-0.5));
    assert_eq!(entries[0].last_position_percent, Some(key(0.0)));
    assert!(!update_reading_position(&mut entries, "/books/y.wld", 1, 0));
    assert_eq!(find_last_position(&entries, "/books/x.wld"), Some(1));
    assert!(clear_last_position(&mut entries, "/books/x.wld"));
    assert_eq!(find_last_position(&entries, "/books/x.wld"), None);
}

#[test]
fn set_library_entry_shared_toggles_only_that_entry() {
    let mut entries: Vec<LibraryEntry> = Vec::new();
    upsert_library_entry(&mut entries, "/books/a.wld", "A", None, None, None, 0);
    upsert_library_entry(&mut entries, "/books/b.wld", "B", None, None, None, 0);

    assert!(set_library_entry_shared(&mut entries, "/books/a.wld", true));
    assert_eq!(entries.iter().find(|e| e.path == "/books/a.wld").unwrap().shared, Some(true));
    assert_eq!(entries.iter().find(|e| e.path == "/books/b.wld").unwrap().shared, None);
    assert!(set_library_entry_language(&mut entries, "/books/b.wld", Some("de")));
    assert_eq!(entries[1].language.as_deref(), Some("de"));
}

/// The name of the file that the book at a path is compiled into.
fn sandboxed(path: &str) -> String {
    let source = Path::new(path);
    let mut hasher = DefaultHasher::new();
    source.hash(&mut hasher);
    sandboxed_wld_output_path(source.file_stem().unwrap().to_str().unwrap(), hasher.finish())
}

#[test]
fn sandboxed_path_is_stable_and_collision_resistant() {
    let out_a1 = sandboxed("/books/a.epub");
    let out_a2 = sandboxed("/books/a.epub");
    let out_b = sandboxed("/books/b.epub");

    assert_eq!(out_a1, out_a2, "the same source path must hash to the same output every time");
    assert_ne!(out_a1, out_b, "different source paths must not collide");
    assert_ne!(out_a1, sandboxed("/other/a.epub"), "sources of one name in two directories must not collide");
    assert!(out_a1.starts_with("a-") && out_a1.ends_with(".wld") && out_a1.len() == 22);
    assert_eq!(sandboxed_wld_output_path("a", 0x1234), "a-0000000000001234.wld");
    assert_eq!(sandboxed_wld_output_path("", u64::MAX), "book-ffffffffffffffff.wld");
}

#[test]
fn received_wld_path_is_stable_and_sanitizes_title() {
    let a = received_wld_output_path("abc123", "The Odyssey");
    let b = received_wld_output_path("abc123", "The Odyssey");
    assert_eq!(a, b, "same hash + title must resolve to the same path");
    assert!(a.contains("The_Odyssey"));

    let different_hash = received_wld_output_path("def456", "The Odyssey");
    assert_ne!(a, different_hash, "different content hashes must not collide");
    assert_eq!(received_wld_output_path("0123456789abcdef0000", ""), "book-0123456789abcdef.wld");
    assert_eq!(
        received_wld_output_path("0123456789abcdef0000", "T"),
        received_wld_output_path("0123456789abcdef1111", "T"),
        "only the first sixteen bytes count"
    );
    assert_ne!(received_wld_output_path("ab", "x-cd"), received_wld_output_path("cd-ab", "y"));
    assert_eq!(received_wld_output_path("b", "x-a"), received_wld_output_path("a-b", "x"), "hyphens can be read two ways");
}

#[test]
fn sharing_starts_and_stops_once() {
    assert_eq!(share_toggled(true, false), ShareChange::Start);
    assert_eq!(share_toggled(true, true), ShareChange::Keep);
    assert_eq!(share_toggled(false, true), ShareChange::Stop);
    assert_eq!(share_toggled(false, false), ShareChange::Keep);
    assert_eq!(share_at_startup(Some(true)), ShareChange::Start);
    assert_eq!(share_at_startup(Some(false)), ShareChange::Keep);
    assert_eq!(share_at_startup(None), ShareChange::Keep);
}

#[test]
fn fonts_have_families() {
    assert_eq!(family_for("im-fell-english"), "IM FELL English");
    assert_eq!(family_for("source-sans-3"), "Source Sans 3 ExtraLight");
    assert_eq!(family_for("comic-sans"), "Literata");
    assert_eq!(reading_fonts().len(), 8);
    assert_eq!(reading_fonts()[5].label, "Unifraktur");
}

#[test]
fn books_are_compiled_next_to_their_source() {
    assert_eq!(derive_default_output("odyssey.epub"), "odyssey.wld");
    assert_eq!(derive_default_output("vol.1.epub"), "vol.1.wld");
    assert_eq!(derive_default_output("noext"), "noext.wld");
    assert_eq!(derive_default_output(".epub"), ".epub.wld");
}

#[test]
fn names_of_authors_come_from_settings_or_the_account() {
    assert_eq!(guess_os_author_name("  ", "ann"), "ann");
    assert_eq!(guess_os_author_name("Ann Lee", "ann"), "Ann Lee");
    let saved = get_author_name(Some("Me".to_string()), "Ann Lee", "ann");
    assert_eq!((saved.name.as_str(), saved.is_saved), ("Me", true));
    let guessed = get_author_name(None, "", "ann");
    assert_eq!((guessed.name.as_str(), guessed.is_saved), ("ann", false));
}

#[test]
fn annotations_from_a_page_keep_their_anchor() {
    let h = create_highlight(3, 1, 4, Some("abc".to_string()), "Ann".to_string());
    assert_eq!((h.node_id, h.start_offset, h.end_offset), (3, 1, 4));
    assert_eq!(h.annotation_type, "highlight");
    assert!(h.comment.is_none() && h.asset_id.is_none());
    let n = create_text_note(3, 1, 4, None, "why?".to_string(), "Ann".to_string());
    assert_eq!(n.annotation_type, "text_note");
    assert_eq!(n.comment.as_deref(), Some("why?"));
    let v = save_voice_note(3, 1, 4, None, 9, "Ann".to_string());
    assert_eq!(v.annotation_type, "voice_note");
    assert_eq!(v.asset_id, Some(9));
    assert_eq!(v.author_name, "Ann");
}

#[test]
fn the_book_opened_last_is_listed_first() {
    let entries = vec![entry("A", Some("X"), None, 1, 5, None), entry("B", None, None, 2, 9, None)];
    let covers = vec![Some("data:a".to_string()), Some("data:b".to_string())];
    let books = list_library(&entries, &vec![true, false], &covers);
    assert_eq!(books[0].title, "B");
    assert_eq!((books[0].available, books[0].cover_data_uri.as_deref()), (false, None));
    assert_eq!(books[1].title, "A");
    assert_eq!((books[1].available, books[1].cover_data_uri.as_deref()), (true, Some("data:a")));
}

#[test]
fn removing_a_book_leaves_the_others() {
    let mut entries = vec![entry("A", None, None, 0, 0, None), entry("B", None, None, 0, 0, None)];
    remove_from_library(&mut entries, "/books/A.wld");
    assert_eq!(entries.len(), 1);
    assert_eq!(entries[0].title, "B");
    remove_from_library(&mut entries, "/books/none.wld");
    assert_eq!(entries.len(), 1);
}

#[test]
fn copies_get_names_of_their_own() {
    let titles: Vec<String> = ["Faust", "Faust", "Faust (2)", "  ", "A/B", "Faust"].iter().map(|t| t.to_string()).collect();
    assert_eq!(
        export_names(&titles),
        vec!["Faust.wld", "Faust (2).wld", "Faust _2_.wld", "book.wld", "A_B.wld", "Faust (3).wld"]
    );
    assert_eq!(export_name("X", &vec!["X.wld".to_string(), "X (3).wld".to_string()]), "X (2).wld");
}

#[test]
fn outcomes_are_summed_up() {
    let mut copies = ExportResult::new();
    copies.record("Faust", "Faust.wld", None);
    copies.record("Edda", "Edda.wld", Some("disk full"));
    assert_eq!(copies.exported, vec!["Faust.wld"]);
    assert_eq!(copies.failed, vec!["Edda: disk full"]);

    let mut summary = BulkImportSummary::new();
    summary.record("a", ImportOutcome::Imported("Title A".to_string()));
    summary.record("b", ImportOutcome::Skipped);
    summary.record("c", ImportOutcome::Failed("no zip".to_string()));
    summary.record("d", ImportOutcome::TaskFailed("panicked".to_string()));
    assert_eq!(summary.imported, vec!["Title A"]);
    assert_eq!(summary.skipped, vec!["b"]);
    assert_eq!(summary.failed, vec!["c: no zip", "d: task failed: panicked"]);
}

#[test]
fn only_shared_books_with_a_hash_are_offered() {
    let mut entries = vec![
        entry("A", Some("X"), None, 0, 0, None),
        entry("B", None, None, 0, 0, None),
        entry("C", None, None, 0, 0, None),
    ];
    entries[0].shared = Some(true);
    entries[0].content_hash = Some("aa".to_string());
    entries[1].content_hash = Some("bb".to_string());
    entries[2].shared = Some(true);
    let offers = offered_books(&entries, &vec![10, 20, 30]);
    assert_eq!(offers.len(), 1);
    assert_eq!((offers[0].title.as_str(), offers[0].content_hash.as_str(), offers[0].size), ("A", "aa", 10));
    assert_eq!(find_offered(&entries, "aa"), Some(0));
    assert_eq!(find_offered(&entries, "bb"), None);
    assert!(already_imported(&entries, "bb"));
    assert!(!already_imported(&entries, "cc"));
}

#[test]
fn requests_are_routed() {
    assert!(matches!(route("/books"), ShareRequest::BookList));
    match route("/books/abc") {
        ShareRequest::Book(hash) => assert_eq!(hash, "abc"),
        _ => panic!("a book is asked for"),
    }
    assert!(matches!(route("/other"), ShareRequest::Unknown));
    assert_eq!(books_url("10.0.0.2:80"), "http://10.0.0.2:80/books");
    assert_eq!(book_url("10.0.0.2:80", "abc"), "http://10.0.0.2:80/books/abc");
    assert_eq!(sanitize_label("", "reader"), "reader");
    let book = SharedBook { title: "T".to_string(), author: None, content_hash: "abc".to_string(), size: 1 };
    assert_eq!(accept_received(&book, Some("T2"), Some("abc")).as_deref(), Some("T2"));
    assert_eq!(accept_received(&book, Some("T2"), Some("xyz")), None);
}

fn peer(fullname: &str, name: &str) -> PeerInfo {
    PeerInfo { fullname: fullname.to_string(), name: name.to_string(), addr: "10.0.0.2:80".to_string() }
}

#[test]
fn peers_come_and_go() {
    let mut peers: Vec<PeerInfo> = Vec::new();
    peer_resolved(&mut peers, "me", peer("me", "Me"));
    assert_eq!(peers.len(), 0, "a device does not list itself");
    peer_resolved(&mut peers, "me", peer("you", "You"));
    peer_resolved(&mut peers, "me", peer("you", "You again"));
    assert_eq!(peers.len(), 1);
    assert_eq!(peers[0].name, "You again");
    peer_removed(&mut peers, "you");
    assert_eq!(peers.len(), 0);
}

#[test]
fn names_of_files_are_cut_between_characters() {
    assert_eq!(shorten("0123456789abcdef", 8), "01234567");
    assert_eq!(shorten("abc", 8), "abc");
    assert_eq!(shorten("a\u{e9}\u{e9}", 4), "a\u{e9}");
    assert_eq!(incoming_file_name("ab12"), ".incoming-ab12.wld");
}
