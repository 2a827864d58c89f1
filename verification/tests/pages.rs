//! The library page and the reading page.

use weland::annotation_list::LibraryAnnotation;
use weland::appearance::{apply_settings, fit_scale, scaled_picture, set_scale, step_measure, zoomed, Measure};
use weland::dictionary::DictionaryEntry;
use weland::keybindings::{apply, defaults, load, Action, Remap, ShortcutsPage};
use weland::library::{SortMode, StatusFilter};
use weland::library_page::{
    import_ended, import_progress, import_question, import_started, nearby_message, no_peer_books_message,
    peer_books_shown, LibraryPage,
};
use weland::node_index::NodeIndex;
use weland::persistence::{KeyBinding, LibraryEntry, VocabEntry};
use weland::reader_page::{
    annotation_popover, annotation_tooltip, comment_to_save, key_pressed, library_annotation_rows,
    no_library_annotations_message, opening_offset, position_to_save, recording_label, search_rows, voice_file_name,
    window_title, word_lookup, KeyEffect,
};
use weland::schema::{SearchHit, UserAnnotation};
use weland::settings::{get_reading_settings, save_binding, set_author_name, set_reading_settings, Settings};
use weland::sharing::SharedBook;

fn book(title: &str, author: Option<&str>, language: Option<&str>, opened: i64) -> LibraryEntry {
    LibraryEntry {
        path: format!("/books/{title}.wld"),
        title: title.to_string(),
        author: author.map(String::from),
        added_at: 100 - opened,
        last_opened_at: opened,
        last_position_node_id: None,
        last_position_percent: None,
        language: language.map(String::from),
        content_hash: None,
        shared: None,
    }
}

fn page() -> LibraryPage {
    LibraryPage::new(vec![
        book("Beowulf", None, Some("en"), 1),
        book("Inferno", Some("Dante Alighieri"), Some("it"), 3),
        book("The Odyssey", Some("Homer"), Some("en"), 2),
    ])
}

fn titles(p: &mut LibraryPage) -> Vec<String> {
    p.refresh().cards.iter().map(|c| c.title.clone()).collect()
}

#[test]
fn the_page_answers_to_its_controls() {
    let mut p = page();
    assert_eq!(titles(&mut p), ["Inferno", "The Odyssey", "Beowulf"]);
    p.choose_sort(2);
    assert_eq!(p.filters.sort, SortMode::TitleAsc);
    assert_eq!(titles(&mut p), ["Beowulf", "Inferno", "The Odyssey"]);
    p.choose_sort(7);
    assert_eq!(p.filters.sort, SortMode::TitleAsc);
    p.search("DANTE");
    assert_eq!(titles(&mut p), ["Inferno"]);
    p.search("");
    p.choose_status(StatusFilter::Finished, true);
    assert!(titles(&mut p).is_empty());
    p.choose_status(StatusFilter::Unread, false);
    assert_eq!(p.filters.status, StatusFilter::Finished);
    p.choose_status(StatusFilter::All, true);
    let shown = p.refresh();
    assert_eq!(shown.languages.languages, ["en", "it"]);
    assert_eq!(shown.stats, "3 books \u{b7} 3 unread \u{b7} 2 authors \u{b7} 2 languages");
    assert!(!shown.empty);
    p.choose_language(&shown.languages, 1);
    let english = p.refresh();
    assert_eq!(english.languages.selected, 1);
    assert_eq!(english.cards.len(), 2);
    assert_eq!(english.stats, "Showing 2 of 3 books \u{b7} 3 unread \u{b7} 2 authors \u{b7} 2 languages");
    p.choose_language(&shown.languages, 0);
    assert_eq!(p.filters.language, None);
    p.choose_language(&shown.languages, 9);
    assert_eq!(p.filters.language, None);
    p.reload(vec![]);
    let nothing = p.refresh();
    assert!(nothing.empty && nothing.cards.is_empty());
    assert_eq!(nothing.stats, "");
}

#[test]
fn a_language_that_is_gone_is_no_longer_filtered_by() {
    let mut p = page();
    p.filters.language = Some("it".to_string());
    assert_eq!(titles(&mut p), ["Inferno"]);
    assert_eq!(p.edit_language("/books/Inferno.wld", "  la "), Some("la".to_string()));
    let shown = p.refresh();
    assert_eq!(shown.languages.languages, ["en", "la"]);
    assert_eq!(shown.languages.selected, 0);
    assert_eq!(p.filters.language, None);
    assert_eq!(shown.cards.len(), 3);
}

#[test]
fn cards_change_with_their_books() {
    let mut p = page();
    assert_eq!(p.edit_language("/books/Beowulf.wld", " \n"), None);
    assert_eq!(p.entries[0].language, None);
    assert!(p.language_found("/books/Beowulf.wld", Some("ang")));
    assert_eq!(p.entries[0].language.as_deref(), Some("ang"));
    assert!(!p.language_found("/books/Beowulf.wld", None));
    assert!(!p.language_found("/books/Beowulf.wld", Some("")), "an empty language is none");
    assert!(!p.language_found("/books/None.wld", Some("xx")));
    assert_eq!(p.entries[0].language.as_deref(), Some("ang"));
    p.clear_language("/books/Beowulf.wld");
    p.toggle_share("/books/Inferno.wld", true);
    let cards = p.refresh().cards;
    assert_eq!((cards[0].path.as_str(), cards[0].place, cards[0].shared), ("/books/Inferno.wld", 1, true));
    assert_eq!(cards[0].author.as_deref(), Some("Dante Alighieri"));
    assert_eq!(cards[0].language, "it");
    assert_eq!((cards[2].language.as_str(), cards[2].shared, cards[2].progress), ("", false, None));
}

#[test]
fn dialogs_say_what_is_going_on() {
    assert_eq!(import_started(false), "Importing\u{2026} (you can keep browsing or open a book meanwhile)");
    assert_eq!(import_started(true), "Importing folder\u{2026} (you can keep browsing or open a book meanwhile)");
    assert_eq!(
        import_progress(3, 12),
        "Importing folder\u{2026} 3/12 (you can keep browsing or open a book meanwhile)"
    );
    assert_eq!(import_ended("a.epub", None), "Imported a.epub");
    assert_eq!(import_ended("a.epub", Some("no zip")), "Import failed: a.epub: no zip");
    assert_eq!(nearby_message(false, 3), Some("Enable LAN sharing in Settings to discover nearby devices."));
    assert_eq!(nearby_message(true, 0), Some("Searching for devices\u{2026} make sure LAN sharing is on for them too."));
    assert_eq!(nearby_message(true, 1), None);
    let offer = |title: &str, author: Option<&str>| SharedBook {
        title: title.to_string(),
        author: author.map(String::from),
        content_hash: "h".to_string(),
        size: 1,
    };
    let books = vec![offer("Inferno", Some("Dante")), offer("Emma", None), offer("Vita Nova", Some("Dante"))];
    assert_eq!(peer_books_shown(&books, "DANTE"), vec![0, 2]);
    assert_eq!(peer_books_shown(&books, ""), vec![0, 1, 2]);
    assert!(peer_books_shown(&books, "zzz").is_empty());
    assert_eq!(no_peer_books_message(0), "This device isn't sharing any books right now.");
    assert_eq!(no_peer_books_message(3), "No books match your search.");
    assert_eq!(
        import_question(&books[0], "Desk", "1.5"),
        "Import \u{201c}Inferno\u{201d} by Dante from Desk? (1.5 MB)"
    );
    assert_eq!(import_question(&books[1], "Desk", "0.0"), "Import \u{201c}Emma\u{201d} from Desk? (0.0 MB)");
}

fn index() -> NodeIndex {
    let mut index = NodeIndex::new();
    index.record(0, 1);
    index.record(10, 2);
    index.record(30, 3);
    index
}

#[test]
fn books_open_where_they_were_left() {
    assert_eq!(window_title(Some("Emma"), Some("Austen")), "Emma \u{2014} Austen");
    assert_eq!(window_title(None, None), "Untitled \u{2014} ");
    let mut b = book("Emma", None, None, 1);
    let index = index();
    assert_eq!(opening_offset(&vec![book("Emma", None, None, 1)], "/books/Emma.wld", &index), None);
    b.last_position_node_id = Some(3);
    let mut gone = book("Gone", None, None, 1);
    gone.last_position_node_id = Some(8);
    let library = vec![b, gone];
    assert_eq!(opening_offset(&library, "/books/Emma.wld", &index), Some(30));
    assert_eq!(opening_offset(&library, "/books/Gone.wld", &index), None);
    assert_eq!(opening_offset(&library, "/books/Other.wld", &index), None);
    assert_eq!(position_to_save(&index, 40, 12), Some((2, 0.25f64.to_bits() as i64)));
    assert_eq!(position_to_save(&index, 0, 12), Some((2, 0)));
    assert_eq!(position_to_save(&NodeIndex::new(), 40, 12), None);
}

#[test]
fn keys_move_the_page_unless_they_are_typed() {
    let mut bindings = defaults();
    apply(&mut bindings, Action::NextChapter, KeyBinding { keyval: 110, modifiers: 4 });
    apply(&mut bindings, Action::PrevChapter, KeyBinding { keyval: 112, modifiers: 4 });
    apply(&mut bindings, Action::ScrollUp, KeyBinding { keyval: 117, modifiers: 0 });
    apply(&mut bindings, Action::PageDown, KeyBinding { keyval: 100, modifiers: 0 });
    apply(&mut bindings, Action::BackToLibrary, KeyBinding { keyval: 98, modifiers: 0 });
    let (index, chapters) = (index(), vec![0, 30]);
    let press = |typing: bool, key: u32, modifiers: u32| key_pressed(typing, &bindings, key, modifiers, &index, &chapters, 12);
    assert_eq!(press(false, 110, 4), KeyEffect::ShowOffset(Some(30)));
    assert_eq!(press(false, 112, 4), KeyEffect::ShowOffset(Some(0)));
    assert_eq!(press(true, 110, 4), KeyEffect::Nothing);
    assert_eq!(press(false, 110, 0), KeyEffect::Nothing);
    assert_eq!(press(false, 117, 0), KeyEffect::ScrollBy(-80));
    assert_eq!(press(false, 100, 0), KeyEffect::PageBy(1));
    assert_eq!(press(false, 98, 0), KeyEffect::BackToLibrary);
}

#[test]
fn hits_are_shown_with_their_terms() {
    let hit = SearchHit {
        node_id: 4,
        ordinal: 1,
        node_type: "paragraph".to_string(),
        snippet: "a \u{ab}raven\u{bb} & more".to_string(),
    };
    let rows = search_rows(&vec![hit]);
    assert_eq!(rows.len(), 1);
    assert_eq!((rows[0].node_id, rows[0].node_type.as_str()), (4, "paragraph"));
    assert_eq!(rows[0].markup, "a <b>raven</b> &amp; more");
    assert_eq!(rows[0].terms, ["raven"]);
}

fn note(kind: &str, selected: Option<&str>, comment: Option<&str>, asset_id: Option<i64>) -> UserAnnotation {
    UserAnnotation {
        id: 1,
        node_id: 1,
        start_offset: 0,
        end_offset: 4,
        selected_text: selected.map(String::from),
        annotation_type: kind.to_string(),
        comment: comment.map(String::from),
        asset_id,
        author_name: String::new(),
        author_id: None,
        device_id: None,
        created_at: String::new(),
        updated_at: String::new(),
    }
}

#[test]
fn annotations_show_what_they_hold() {
    let text = annotation_popover(&note("text_note", Some("word"), Some("mine"), Some(3)));
    assert_eq!((text.text.as_deref(), text.is_comment, text.editable, text.playable), (Some("mine"), true, true, None));
    let mark = annotation_popover(&note("highlight", Some("word"), None, None));
    assert_eq!((mark.text.as_deref(), mark.is_comment, mark.editable), (Some("\u{201c}word\u{201d}"), false, false));
    let voice = annotation_popover(&note("voice_note", None, None, Some(3)));
    assert_eq!((voice.text, voice.playable), (None, Some(3)));
    assert_eq!(annotation_tooltip(&note("highlight", Some("word"), Some("mine"), None)), "mine");
    assert_eq!(annotation_tooltip(&note("highlight", Some("word"), None, None)), "word");
    assert_eq!(annotation_tooltip(&note("voice_note", None, None, None)), "voice_note");
    assert_eq!(comment_to_save("  a note "), Some("a note".to_string()));
    assert_eq!(comment_to_save(" \t"), None);
    assert_eq!(recording_label(0), "Recording\u{2026} 0:00");
    assert_eq!(recording_label(75), "Recording\u{2026} 1:15");
    assert_eq!(recording_label(609), "Recording\u{2026} 10:09");
    assert_eq!(voice_file_name(-7), "weland-voice-note--7.ogg");
}

#[test]
fn annotations_of_all_books_are_listed() {
    let entry = |title: &str, comment: &str| LibraryAnnotation {
        book_title: title.to_string(),
        book_path: format!("/books/{title}.wld"),
        annotation: note("text_note", Some("word"), Some(comment), None),
    };
    let all = vec![entry("Emma", "dry wit"), entry("Inferno", "the wood")];
    let rows = library_annotation_rows(&all, "WOOD");
    assert_eq!(rows.len(), 1);
    assert_eq!((rows[0].book_title.as_str(), rows[0].book_path.as_str()), ("Inferno", "/books/Inferno.wld"));
    assert_eq!((rows[0].kind.as_str(), rows[0].snippet.as_str()), ("Note", "the wood"));
    assert_eq!(library_annotation_rows(&all, "").len(), 2);
    assert_eq!(library_annotation_rows(&all, "emma").len(), 1);
    assert!(library_annotation_rows(&all, "zzz").is_empty());
    assert_eq!(no_library_annotations_message(0), "No annotations in your library yet.");
    assert_eq!(no_library_annotations_message(2), "No annotations match your search.");
}

#[test]
fn looked_up_words_can_be_saved_once() {
    let entry = |definition: &str| DictionaryEntry { word: "raven".to_string(), definition: definition.to_string() };
    let found: Vec<DictionaryEntry> = ["<i>a bird</i>", "2", "3", "4", "5", "6"].into_iter().map(entry).collect();
    let fresh = word_lookup("raven", &found, &vec![]);
    assert_eq!(fresh.definitions.len(), 5);
    assert_eq!(fresh.to_save.as_deref(), Some("a bird"));
    assert!(!fresh.saved);
    let saved = VocabEntry {
        id: 1,
        word: "Raven".to_string(),
        definition: "a bird".to_string(),
        context_before: String::new(),
        context_after: String::new(),
        book_title: "Emma".to_string(),
        added_at: 0,
    };
    assert!(word_lookup("raven", &found, &vec![saved]).saved);
    let unknown = word_lookup("xyzzy", &vec![], &vec![]);
    assert!(unknown.definitions.is_empty() && unknown.to_save.is_none());
}

#[test]
fn shortcuts_are_changed_one_at_a_time() {
    let mut page = ShortcutsPage { bindings: defaults(), remapping: None };
    assert_eq!(page.press(97, 0), Remap::NotRemapping);
    page.start(Action::ScrollDown);
    assert_eq!(page.press(0xffe1, 0), Remap::Waiting);
    assert_eq!(page.press(0xff1b, 0), Remap::Cancelled);
    assert_eq!(page.bindings.get(Action::ScrollDown), Action::ScrollDown.default_binding());
    assert_eq!(page.press(97, 0), Remap::NotRemapping);
    let taken = Action::PageDown.default_binding();
    page.start(Action::ScrollDown);
    assert_eq!(page.press(taken.keyval, taken.modifiers), Remap::Bound(Action::ScrollDown, taken));
    assert_eq!(page.remapping, None);
    assert_eq!(page.bindings.get(Action::ScrollDown), taken);
    page.start(Action::PageUp);
    let bound = KeyBinding { keyval: 98, modifiers: 4 };
    assert_eq!(page.press(98, 4 | 16), Remap::Bound(Action::PageUp, bound));
}

fn number(bits: i64) -> f64 {
    f64::from_bits(bits as u64)
}

fn bits(x: f64) -> i64 {
    if x < 0.0 {
        -((-x).to_bits() as i64)
    } else {
        x.to_bits() as i64
    }
}

#[test]
fn settings_round_trip_preserves_unrelated_fields() {
    let mut settings = Settings::new();
    assert!(settings.author_name.is_none() && settings.reading_font.is_none());
    set_author_name(&mut settings, "Andrew".to_string());

    // A second, independent change of a different field group must not clobber author_name.
    assert_eq!(settings.author_name.as_deref(), Some("Andrew"));
    let mut reading = get_reading_settings(&settings);
    assert_eq!((reading.font.as_str(), number(reading.size_px)), ("literata", 17.0));
    assert_eq!((number(reading.leading), number(reading.verse_spacing)), (1.75, 2.0));
    reading.font = "literata".to_string();
    reading.size_px = bits(18.0);
    set_reading_settings(&mut settings, reading);

    assert_eq!(settings.author_name.as_deref(), Some("Andrew"));
    assert_eq!(settings.reading_font.as_deref(), Some("literata"));
    assert_eq!(settings.reading_size_px, Some(bits(18.0)));

    save_binding(&mut settings, Action::PageUp, KeyBinding { keyval: 98, modifiers: 4 });
    save_binding(&mut settings, Action::PageDown, KeyBinding { keyval: 99, modifiers: 4 });
    assert_eq!(settings.author_name.as_deref(), Some("Andrew"));
    assert_eq!(settings.reading_size_px, Some(bits(18.0)));
    let bindings = load(&settings.keybindings.unwrap_or_default());
    assert_eq!(bindings.get(Action::PageUp), KeyBinding { keyval: 98, modifiers: 4 });
    assert_eq!(bindings.get(Action::PageDown), KeyBinding { keyval: 99, modifiers: 4 });
}

#[test]
fn text_is_set_as_the_settings_ask() {
    for leading in [0.2, 1.3, 1.45, 1.6, 1.75, 1.9, 2.05, 2.2, 9.0, -3.0] {
        for spacing in [0.1, 0.5, 0.75, 1.1, 2.0, 3.3, 6.0, 70.0] {
            let mut settings = Settings::new();
            settings.reading_leading = Some(bits(leading));
            settings.reading_verse_spacing = Some(bits(spacing));
            settings.reading_size_px = Some(bits(leading * 10.0));
            settings.reading_show_verse_numbers = Some(leading > 1.0);
            let style = apply_settings(&settings);
            let scale = f64::clamp(leading, 1.3, 2.2) / 1.75;
            assert_eq!(number(style.size), (leading * 10.0).clamp(14.0, 24.0));
            assert_eq!(style.below_paragraph, (10.0 * scale).round() as i32);
            assert_eq!(style.below_blockquote, (8.0 * scale).round() as i32);
            assert_eq!(style.below_verse, (2.0 * scale).round() as i32);
            assert_eq!(style.above_verse, (f64::clamp(spacing, 0.5, 6.0) * 16.0).round() as i32);
            assert_eq!(style.show_verse_numbers, leading > 1.0);
        }
    }
    let style = apply_settings(&Settings::new());
    assert_eq!((style.family, number(style.size), style.below_paragraph), ("Literata", 17.0, 10));
    assert!(style.show_verse_numbers);
}

#[test]
fn measures_change_by_steps_within_their_ranges() {
    let steps = [(Measure::Size, 1.0, 14.0, 24.0), (Measure::Leading, 0.05, 1.3, 2.2), (Measure::VerseSpacing, 0.25, 0.5, 6.0)];
    for (measure, step, lo, hi) in steps {
        for start in [-4.0, 0.0, 1e-300, 0.01, 0.2, 0.3, 0.5, 0.6, 1.3, 1.7, 2.19, 5.9, 6.2, 13.5, 17.0, 23.4, 24.9, 40.0, 1023.0, 1e9] {
            for up in [true, false] {
                let mut settings = Settings::new();
                match measure {
                    Measure::Size => settings.reading_size_px = Some(bits(start)),
                    Measure::Leading => settings.reading_leading = Some(bits(start)),
                    Measure::VerseSpacing => settings.reading_verse_spacing = Some(bits(start)),
                }
                let expected = f64::clamp(if up { start + step } else { start - step }, lo, hi);
                assert_eq!(number(step_measure(&mut settings, measure, up)), expected, "{measure:?} {start} {up}");
            }
        }
    }
    let mut settings = Settings::new();
    let mut expected = 1.75f64;
    for k in 0..20 {
        let up = k % 3 != 0;
        expected = f64::clamp(if up { expected + 0.05 } else { expected + -0.05 }, 1.3, 2.2);
        assert_eq!(number(step_measure(&mut settings, Measure::Leading, up)), expected);
    }
    assert_eq!(settings.reading_leading, Some(bits(expected)));
}

#[test]
fn pictures_are_zoomed_within_limits() {
    for (w, h) in [(100, 100), (901, 10), (1800, 700), (333, 7777), (2147483647, 1), (1, 2147483647)] {
        let mut expected = (900.0 / w as f64).min(700.0 / h as f64).min(1.0);
        let mut scale = fit_scale(w, h).unwrap();
        assert_eq!(number(scale), expected);
        for k in 0..60 {
            let closer = k < 35;
            expected = (expected * if closer { 1.1 } else { 1.0 / 1.1 }).clamp(0.1, 4.0);
            scale = zoomed(scale, closer);
            assert_eq!(number(scale), expected);
            let side = |n: i32| (n as f64 * expected).round().max(1.0) as i32;
            assert_eq!(scaled_picture(w, h, scale), (side(w), side(h)));
        }
    }
    assert_eq!(fit_scale(0, 10), None);
    assert_eq!(fit_scale(10, -1), None);
    let actual = fit_scale(10, 10).unwrap();
    assert_eq!(number(set_scale(actual)), 1.0);
    assert_eq!(number(set_scale(fit_scale(333, 7777).unwrap())), 0.1);
    assert_eq!(number(set_scale(0.5f64.to_bits() as i64)), 0.5);
    assert_eq!(number(set_scale(9.0f64.to_bits() as i64)), 4.0);
}
