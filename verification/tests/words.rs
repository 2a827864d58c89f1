//! Looking words up, and keeping them.

use weland::dictionary::{
    context_around, decode_entity, entries_from_meanings, html_to_display_text, lookup_word, lookup_word_online,
    urlencoding_encode, ApiMeaning, DictionaryEntry,
};
use weland::exports::export_vocab_json;
use weland::json::Json;
use weland::persistence::{add_vocab_entry, next_free_id, remove_vocab_entry, VocabEntry};
use weland::vocab::{
    context_markup, empty_vocab_message, export_markdown, refresh_vocab_list, shown_definitions, vocab_matches_search,
    word_already_in_vocab,
};

#[test]
fn lookup_word_returns_empty_for_blank_input() {
    assert!(lookup_word("   ").is_none());
    assert!(lookup_word_online(" \n ").is_none());
}

#[test]
fn urlencoding_encode_escapes_reserved_characters() {
    assert_eq!(urlencoding_encode("hello world"), "hello%20world");
    assert_eq!(urlencoding_encode("safe-word_.~"), "safe-word_.~");
}

#[test]
fn other_characters_are_encoded_byte_by_byte() {
    assert_eq!(urlencoding_encode("caf\u{e9}/?#%"), "caf%C3%A9%2F%3F%23%25");
    assert_eq!(urlencoding_encode(""), "");
}

/// The bytes that an encoded text stands for.
fn decoded(text: &str) -> Vec<u8> {
    let bytes = text.as_bytes();
    let mut out = Vec::new();
    let mut i = 0;
    while i < bytes.len() {
        if bytes[i] == b'%' {
            out.push(u8::from_str_radix(&text[i + 1..i + 3], 16).unwrap());
            i += 3;
        } else {
            out.push(bytes[i]);
            i += 1;
        }
    }
    out
}

#[test]
fn encoded_text_can_be_decoded_again() {
    for text in ["caf\u{e9}/?#%", "\u{4f60}\u{597d}", "a%2Fb", "safe-word_.~", "\0\n\u{7f}", "\u{10ffff}"] {
        let encoded = urlencoding_encode(text);
        assert_eq!(decoded(&encoded), text.as_bytes());
        assert!(encoded.chars().all(|c| c == '%' || c.is_ascii_alphanumeric() || "-_.~".contains(c)));
        let reserved = text.bytes().filter(|b| !b.is_ascii_alphanumeric() && !b"-_.~".contains(b)).count();
        assert_eq!(encoded.matches('%').count(), reserved);
        assert_eq!(encoded.len(), text.len() + 2 * reserved);
    }
}

#[test]
fn words_are_looked_up_under_their_own_address() {
    assert_eq!(lookup_word("  Book ").as_deref(), Some("Book"));
    assert_eq!(
        lookup_word_online(" na\u{ef}ve word ").as_deref(),
        Some("https://api.dictionaryapi.dev/api/v2/entries/en/na%C3%AFve%20word")
    );
}

#[test]
fn answers_give_an_entry_for_each_definition() {
    let meanings = vec![
        ApiMeaning { part_of_speech: "noun".to_string(), definitions: vec!["a cat".to_string(), "a whip".to_string()] },
        ApiMeaning { part_of_speech: "".to_string(), definitions: vec!["to vomit".to_string()] },
    ];
    let entries = entries_from_meanings("cat", &meanings);
    let shown: Vec<(&str, &str)> = entries.iter().map(|e| (e.word.as_str(), e.definition.as_str())).collect();
    assert_eq!(shown, vec![("cat", "(noun) a cat"), ("cat", "(noun) a whip"), ("cat", "() to vomit")]);
}

#[test]
fn strips_simple_inline_tags() {
    assert_eq!(html_to_display_text("<p>A <b>bold</b> word.</p>"), "A bold word.");
}

#[test]
fn converts_list_items_to_bulleted_lines() {
    let html = "<p><b>Noun</b></p><ol><li>First sense.</li><li>Second sense.</li></ol>";
    let text = html_to_display_text(html);
    assert_eq!(text, "Noun\n\u{2022} First sense.\n\u{2022} Second sense.");
}

#[test]
fn decodes_numeric_and_named_entities() {
    assert_eq!(html_to_display_text("computer-assisted&#47;aided"), "computer-assisted/aided");
    assert_eq!(html_to_display_text("&lsqb;from 8th c.&rsqb;"), "[from 8th c.]");
    assert_eq!(html_to_display_text("Q&amp;A"), "Q&A");
}

#[test]
fn collapses_multiple_blank_lines() {
    let text = html_to_display_text("<p>One</p><p></p><p>Two</p>");
    assert_eq!(text, "One\n\nTwo");
}

#[test]
fn handles_real_cat_style_entry_without_panicking() {
    let html = "<p><b>Noun</b></p><ol><li>Terms relating to animals.</li><ol style=\"list-style-type:lower-alpha\"><li>(<i>countable</i>) A mammal.</li></ol></ol>";
    let text = html_to_display_text(html);
    assert!(text.contains("Terms relating to animals."));
    assert!(text.contains("A mammal."));
}

#[test]
fn nested_items_are_indented_and_loose_signs_are_text() {
    let html = "<OL><LI>one<ol><li>two</ol></ol><br>end";
    assert_eq!(html_to_display_text(html), "\u{2022} one\n  \u{2022} two\nend");
    assert_eq!(html_to_display_text("a < b"), "a < b");
    assert_eq!(html_to_display_text("R & D"), "R & D");
    assert_eq!(html_to_display_text("line  \r\n\n\n\nnext"), "line\n\nnext");
    assert_eq!(html_to_display_text(""), "");
}

#[test]
fn entities_that_are_not_known_stand_for_themselves() {
    assert_eq!(decode_entity("#x41"), "A");
    assert_eq!(decode_entity("#X2014"), "\u{2014}");
    assert_eq!(decode_entity("#+65"), "A");
    assert_eq!(decode_entity("#xD800"), "&#xD800;");
    assert_eq!(decode_entity("#x"), "&#x;");
    assert_eq!(decode_entity("#99999999999"), "&#99999999999;");
    assert_eq!(decode_entity("nbsp"), " ");
    assert_eq!(decode_entity("hellip"), "\u{2026}");
    assert_eq!(decode_entity("frobnicate"), "&frobnicate;");
}

#[test]
fn the_context_of_a_word_is_cut_at_white_space() {
    let text = "When the harvest was plenteous and his master was kind or careless.";
    let word_start = text.find("plenteous").unwrap();
    let word_end = word_start + "plenteous".len();
    let (before, after) = context_around(text, word_start, word_end);
    assert_eq!(before, "When the harvest was");
    assert_eq!(after, "and his master was kind or careless.");

    // A radius that runs past the start or the end is clamped.
    let (before, after) = context_around(text, 0, 4);
    assert_eq!(before, "");
    assert!(after.starts_with("the harvest"));

    // A radius that cuts a word drops what is left of it.
    let long = format!("{} word {}", "abcdefghi ".repeat(20), "jklmnopqr ".repeat(20));
    let at = long.find("word").unwrap();
    let (before, after) = context_around(&long, at, at + 4);
    assert_eq!(before, "abcdefghi ".repeat(9).trim());
    assert_eq!(after, "jklmnopqr ".repeat(9).trim());
    let unbroken = format!("{}(word){}", "a".repeat(200), "b".repeat(200));
    let at = unbroken.find("word").unwrap();
    assert_eq!(context_around(&unbroken, at, at + 4), (String::new(), String::new()), "no part of a cut word is kept");
}

#[test]
fn vocab_add_persists_context_and_remove_deletes_only_that_entry() {
    let mut entries: Vec<VocabEntry> = Vec::new();
    assert!(entries.is_empty());

    // Both are added within the same nanosecond.
    let now = 1_766_000_000_000_000_000;
    add_vocab_entry(&mut entries, now, "lenteous", "part of \"plenteous\"", "the harvest was p", "and his master was kind", "Robin Hood", 10);
    add_vocab_entry(&mut entries, now, "cat", "a small domesticated feline", "she had a", "sleeping on the sill", "Some Other Book", 10);

    assert_eq!(entries.len(), 2);
    assert_eq!(entries[0].word, "lenteous");
    assert_eq!(entries[0].context_before, "the harvest was p");
    assert_eq!(entries[0].context_after, "and his master was kind");
    assert_eq!(entries[0].book_title, "Robin Hood");
    assert_ne!(entries[0].id, entries[1].id, "each entry must get a distinct id");

    let first = entries[0].id;
    remove_vocab_entry(&mut entries, first);
    assert_eq!(entries.len(), 1);
    assert_eq!(entries[0].word, "cat");
}

#[test]
fn taken_ids_give_way_to_the_next_free_one() {
    let mut entries: Vec<VocabEntry> = [7, 8, 10, i64::MAX, i64::MIN].iter().map(|&id| word(id, "w", "", 0)).collect();
    assert_eq!(next_free_id(&entries, 6), 6);
    assert_eq!(next_free_id(&entries, 7), 9);
    assert_eq!(next_free_id(&entries, i64::MAX), i64::MIN + 1);
    add_vocab_entry(&mut entries, 7, "w", "", "", "", "", 1);
    add_vocab_entry(&mut entries, 7, "w", "", "", "", "", 1);
    assert_eq!(entries.iter().map(|e| e.id).collect::<Vec<i64>>(), vec![7, 8, 10, i64::MAX, i64::MIN, 9, 11]);
    remove_vocab_entry(&mut entries, 9);
    assert_eq!(entries.iter().map(|e| e.id).collect::<Vec<i64>>(), vec![7, 8, 10, i64::MAX, i64::MIN, 11]);
}

fn word(id: i64, word: &str, before: &str, added_at: i64) -> VocabEntry {
    VocabEntry {
        id,
        word: word.to_string(),
        definition: format!("what {word} means"),
        context_before: before.to_string(),
        context_after: String::new(),
        book_title: "Tom & Huck".to_string(),
        added_at,
    }
}

#[test]
fn saved_words_are_found_whatever_their_case() {
    let entries = vec![word(1, "Gripe", "", 0)];
    assert!(word_already_in_vocab(&entries, "gRIPE"));
    assert!(!word_already_in_vocab(&entries, "gripes"));
    assert!(word_already_in_vocab(&vec![word(2, "\u{c9}clair", "", 0)], "\u{e9}CLAIR"));
    assert!(!word_already_in_vocab(&vec![word(2, "\u{c9}clair", "", 0)], "eclair"));
    assert!(vocab_matches_search(&entries[0], ""));
    assert!(vocab_matches_search(&entries[0], "grip"));
    assert!(vocab_matches_search(&entries[0], "huck"));
    assert!(vocab_matches_search(&entries[0], "means"));
    assert!(!vocab_matches_search(&entries[0], "odyssey"));
}

#[test]
fn the_newest_word_comes_first() {
    let entries = vec![word(1, "one", "", 5), word(2, "two", "", 9), word(4, "four", "", 5), word(3, "three", "", 5)];
    assert_eq!(refresh_vocab_list(&entries, ""), vec![1, 2, 3, 0]);
    assert_eq!(refresh_vocab_list(&entries, "what t"), vec![1, 3]);
    assert_eq!(refresh_vocab_list(&entries, "nothing"), Vec::<usize>::new());
    assert!(empty_vocab_message("").starts_with("No saved words yet."));
    assert_eq!(empty_vocab_message("x"), "No saved words match your search.");
}

#[test]
fn words_are_exported_in_alphabetical_order() {
    let entries = vec![word(1, "Zeal", "full of", 0), word(2, "ardor", "", 0)];
    assert_eq!(
        export_markdown(&entries),
        "# Vocabulary\n\n## ardor\n\n*From:* Tom & Huck\n\nwhat ardor means\n\n---\n\n\
         ## Zeal\n\n*From:* Tom & Huck\n\n> \u{2026}full of **Zeal** \u{2026}\n\nwhat Zeal means\n\n---\n\n"
    );
    assert_eq!(context_markup(&entries[0]).as_deref(), Some("\u{2026}full of <b>Zeal</b> \u{2026}"));
    assert_eq!(context_markup(&entries[1]), None);
    match export_vocab_json(&entries) {
        Json::Array(rows) => {
            assert_eq!(rows.len(), 2);
            assert!(matches!(rows[0].get("word"), Some(Json::Text(t)) if t == "Zeal"));
            assert!(matches!(rows[1].get("id"), Some(Json::Unsigned(2))));
        }
        _ => panic!("an array is expected"),
    }
}

#[test]
fn at_most_five_definitions_are_shown() {
    let entries: Vec<DictionaryEntry> = (0..7)
        .map(|i| DictionaryEntry { word: "w".to_string(), definition: format!("<p>sense {i}</p>") })
        .collect();
    let shown = shown_definitions(&entries);
    assert_eq!(shown.len(), 5);
    assert_eq!(shown[4], "sense 4");
    assert_eq!(shown_definitions(&vec![]).len(), 0);
}
