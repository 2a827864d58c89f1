//! A book on the screen: its text, its annotations, its outline, and searching it.

use weland::annotation_list::{
    annotation_snippet, empty_list_message, export_annotations_markdown, export_library_annotations_markdown,
    kind_label, library_annotation_matches_search, listed_annotations, load_all_library_annotations,
    ordered_annotations, render_existing, tag_for, LibraryAnnotation, Mark,
};
use weland::annotations::{
    content_start_offset, create_annotation, find_annotation_at, find_annotation_near, handle_release, nearest_spot,
    node_at_offset, resolve_selection_anchor, selection_is_single_word, AnnotationIndex, ReleaseAction, Spot,
};
use weland::document::{
    active_span_tags, breakpoints, build_document, image_layout, Document, ImageLayout, Piece, SpanAttr, Style,
};
use weland::exports::{export_annotations_json, export_library_annotations_json};
use weland::json::Json;
use weland::node_index::{jump_chapter, NodeIndex};
use weland::persistence::LibraryEntry;
use weland::schema::{AstNode, TocEntry, UserAnnotation};
use weland::search::{
    escape_text, extract_terms, find_codepoint_range, flash_match, query_is_blank, snippet_markup,
};
use weland::toc::{chapter_offsets, outline, toc_indent, toc_target};

fn object(fields: Vec<(&str, Json)>) -> Json {
    Json::Object(fields.into_iter().map(|(k, v)| (k.to_string(), v)).collect())
}

fn span(start: u64, end: u64, ty: &str) -> Json {
    object(vec![
        ("start", Json::Unsigned(start)),
        ("end", Json::Unsigned(end)),
        ("type", Json::Text(ty.to_string())),
    ])
}

fn node(id: i64, node_type: &str, content: Option<&str>, attributes: Option<Json>) -> AstNode {
    AstNode {
        id,
        parent_id: None,
        ordinal: id,
        node_type: node_type.to_string(),
        content: content.map(String::from),
        attributes,
    }
}

fn book() -> Vec<AstNode> {
    vec![
        node(10, "heading", Some("Song"), Some(object(vec![("level", Json::Unsigned(1))]))),
        node(
            11,
            "verse_line",
            Some("Hw\u{e6}t! we"),
            Some(object(vec![
                ("stanza_start", Json::Bool(true)),
                ("verse_end", Json::Bool(true)),
                ("spans", Json::Array(vec![span(0, 5, "bold"), span(3, 8, "italic"), Json::Null])),
            ])),
        ),
        node(12, "image", None, Some(object(vec![("asset_id", Json::Unsigned(7))]))),
        node(13, "paragraph", Some("The end."), None),
    ]
}

/// The characters of a document; a separator and a picture take the place of one.
fn text_of(d: &Document) -> String {
    let mut out = String::new();
    for p in &d.pieces {
        match p {
            Piece::Run { text, .. } => out.push_str(text),
            _ => out.push('\u{fffc}'),
        }
    }
    out
}

#[test]
fn documents_are_made_of_styled_runs() {
    let nodes = book();
    let d = build_document(&nodes);
    let text = text_of(&d);
    assert_eq!(text, "Song\n\nHw\u{e6}t! we\n\n\u{fffc}\nThe end.\n");
    assert_eq!(d.char_count, text.chars().count());
    assert_eq!(d.index.boundaries(), vec![0, 5, 16, 18]);
    let runs: Vec<(String, Vec<Style>)> = d
        .pieces
        .iter()
        .filter_map(|p| match p {
            Piece::Run { text, styles } if styles.contains(&Style::Verse) => Some((text.clone(), styles.clone())),
            _ => None,
        })
        .collect();
    assert_eq!(
        runs,
        vec![
            ("Hw\u{e6}".to_string(), vec![Style::Verse, Style::Bold]),
            ("t!".to_string(), vec![Style::Verse, Style::Bold, Style::Italic]),
            (" we".to_string(), vec![Style::Verse, Style::Italic]),
        ]
    );
    assert!(d.pieces.iter().any(|p| matches!(p, Piece::Picture { asset_id: 7 })));
}

#[test]
fn lists_tables_and_breaks_stand_on_lines() {
    let item = |t: &str| object(vec![("text", Json::Text(t.to_string()))]);
    let row = |cells: &[&str]| Json::Array(cells.iter().map(|c| Json::Text(c.to_string())).collect());
    let nodes = vec![
        node(1, "list", Some("x"), Some(object(vec![("ordered", Json::Bool(true)), ("items", Json::Array(vec![item("a"), item("b")]))]))),
        node(2, "list", None, Some(object(vec![("items", Json::Array(vec![item("c")]))]))),
        node(3, "table", None, Some(object(vec![("rows", Json::Array(vec![row(&["p", "q"]), row(&["r"]), Json::Null]))]))),
        node(4, "thematic_break", None, None),
        node(5, "heading", Some("H"), Some(object(vec![("level", Json::Unsigned(3))]))),
        node(6, "footnote", Some("unseen"), None),
        node(7, "image", None, None),
    ];
    let d = build_document(&nodes);
    assert_eq!(
        text_of(&d),
        "1. a\n2. b\n\n\u{2022} c\n\np  |  q\nr\n\n\n\u{fffc}\nH\n"
    );
    assert!(d.pieces.iter().any(|p| matches!(p, Piece::Run { styles, .. } if styles == &vec![Style::Subheading])));
    assert_eq!(d.index.len(), 7);
}

fn attr(start: u64, end: u64, ty: &str) -> SpanAttr {
    SpanAttr { start, end, ty: ty.to_string() }
}

#[test]
fn stanza_and_line_numbers_are_both_dim() {
    let spans = vec![attr(0, 2, "stanza_number"), attr(2, 5, "line_number"), attr(5, 8, "bold")];
    assert_eq!(active_span_tags(0, &spans), vec![Style::Dim]);
    assert_eq!(active_span_tags(2, &spans), vec![Style::Dim]);
    assert_eq!(active_span_tags(5, &spans), vec![Style::Bold]);
    assert_eq!(active_span_tags(8, &spans), vec![]);
    assert_eq!(breakpoints(6, &spans), vec![0, 2, 5, 6]);
    assert_eq!(breakpoints(0, &spans), vec![0]);
}

#[test]
fn pictures_fit_the_column() {
    assert_eq!(image_layout(800, 400, 680), Some(ImageLayout { width: 200, height: 340, margin: 300 }));
    assert_eq!(image_layout(300, 600, 300), Some(ImageLayout { width: 300, height: 150, margin: 0 }));
    assert_eq!(image_layout(300, 10000, 1), Some(ImageLayout { width: 300, height: 1, margin: 0 }));
    assert_eq!(image_layout(0, 10, 10), None);
    assert_eq!(image_layout(10, 0, 10), None);
}

#[test]
fn marks_stay_anchored_and_offsets_are_monotonic() {
    let nodes = vec![
        node(1, "paragraph", Some("first node text"), None),
        node(2, "paragraph", Some("second node text, quite a bit longer than the first"), None),
        node(3, "paragraph", Some("third"), None),
    ];
    let d = build_document(&nodes);
    assert_eq!(d.index.len(), 3);
    assert!(!d.index.is_empty());
    let offsets = d.index.boundaries();
    assert_eq!(offsets[0], 0, "first mark must stay at the very start, not slide to the end");
    assert!(offsets[1] > offsets[0]);
    assert!(offsets[2] > offsets[1]);
    assert!(offsets[2] < d.char_count, "last mark must stay before its own node's text, not at the end");

    assert_eq!(d.index.percent_through(d.char_count, 1), Some(0));
    let p2 = d.index.percent_through(d.char_count, 2).unwrap();
    assert!(p2 > 0 && f64::from_bits(p2 as u64) < 1.0);
    assert_eq!(d.index.percent_through(d.char_count, 9), None);
    assert_eq!(d.index.percent_through(0, 2), Some(0));
    for total in [1, 3, 7, 100, 12345, 999_999, 1 << 40, (1 << 60) + 1] {
        let offset = offsets[1];
        let expected = (offset as f64 / total as f64).clamp(0.0, 1.0);
        assert_eq!(d.index.percent_through(total, 2), Some(expected.to_bits() as i64), "of {total}");
    }

    assert_eq!(d.index.topmost_visible_node_id(0), Some(1));
    assert_eq!(d.index.topmost_visible_node_id(offsets[1]), Some(2));
    assert_eq!(d.index.topmost_visible_node_id(offsets[2] - 1), Some(2));
    assert_eq!(NodeIndex::new().topmost_visible_node_id(5), None);
}

#[test]
fn jumps_go_from_chapter_to_chapter() {
    let mut index = NodeIndex::new();
    index.record(0, 1);
    index.record(10, 2);
    index.record(20, 3);
    let toc = |id: i64, target: Option<i64>| TocEntry {
        id,
        parent_id: None,
        ordinal: id,
        title: String::new(),
        target_node_id: target,
        href: None,
    };
    let chapters = chapter_offsets(&vec![toc(1, Some(3)), toc(2, None), toc(3, Some(1)), toc(4, Some(99))], &index);
    assert_eq!(chapters, vec![0, 20]);
    assert_eq!(jump_chapter(&index, &chapters, 12, true), Some(20));
    assert_eq!(jump_chapter(&index, &chapters, 12, false), Some(0));
    assert_eq!(jump_chapter(&index, &chapters, 20, true), None);
    assert_eq!(jump_chapter(&NodeIndex::new(), &chapters, 0, true), None);
}

#[test]
fn outlines_list_what_hangs_from_the_top() {
    let toc = |id: i64, parent_id: Option<i64>| TocEntry {
        id,
        parent_id,
        ordinal: id,
        title: String::new(),
        target_node_id: None,
        href: None,
    };
    // The third hangs below the last, the fourth below nothing that is there.
    let entries = vec![toc(1, None), toc(2, Some(1)), toc(3, Some(5)), toc(4, Some(9)), toc(5, None)];
    let rows: Vec<(usize, usize)> = outline(&entries).iter().map(|r| (r.place, r.depth)).collect();
    assert_eq!(rows, vec![(0, 0), (1, 1), (4, 0), (2, 1)]);
    assert_eq!(toc_target(Some(-3)), "-> Node #-3");
    assert_eq!(toc_target(None), "(unlinked)");
    assert_eq!(toc_indent(1), "    ");
}

fn test_annotation(annotation_type: &str, selected_text: Option<&str>, comment: Option<&str>, asset_id: Option<i64>) -> UserAnnotation {
    UserAnnotation {
        id: 1,
        node_id: 1,
        start_offset: 0,
        end_offset: 0,
        selected_text: selected_text.map(String::from),
        annotation_type: annotation_type.to_string(),
        comment: comment.map(String::from),
        asset_id,
        author_name: "Reader".to_string(),
        author_id: None,
        device_id: None,
        created_at: "2026-08-21 12:00:00".to_string(),
        updated_at: "2026-08-21 12:00:00".to_string(),
    }
}

fn on(node_id: i64, start: i64, end: i64, annotation_type: &str) -> UserAnnotation {
    UserAnnotation { node_id, start_offset: start, end_offset: end, ..test_annotation(annotation_type, None, None, None) }
}

#[test]
fn create_and_index_groups_by_node() {
    let mut highlight = on(10, 0, 12, "highlight");
    highlight.selected_text = Some("Robin Hood".to_string());
    let mut note = on(10, 20, 30, "text_note");
    note.comment = Some("first note".to_string());
    let mut voice_note = on(42, 0, 0, "voice_note");
    voice_note.asset_id = Some(5);

    let index = AnnotationIndex::load(vec![highlight, note, voice_note]);
    assert_eq!(index.for_node(10).len(), 2, "both annotations on node 10 must be grouped together");
    assert_eq!(index.for_node(10)[0].annotation_type, "highlight");
    assert_eq!(index.for_node(42).len(), 1);
    assert!(index.for_node(999_999).is_empty(), "a node with no annotations must return an empty slice, not panic");
    assert_eq!(index.for_node(42)[0].asset_id, Some(5));
    assert_eq!(index.for_node(42)[0].annotation_type, "voice_note");
}

#[test]
fn selections_within_a_node_become_anchors() {
    let nodes = book();
    let d = build_document(&nodes);
    let end = d.char_count;
    let text: Vec<char> = text_of(&d).chars().collect();
    // The verse line starts below the blank line above its stanza.
    let start = content_start_offset(&nodes[1], &d.index).unwrap();
    assert_eq!(start, 6);
    assert_eq!(node_at_offset(&d.index, end, 7), Some((1, 5, 16)));

    let words: String = text[start..start + 5].iter().collect();
    let anchor = resolve_selection_anchor(Some((start, start + 5)), &words, &nodes, &d.index, end).unwrap();
    assert_eq!((anchor.node_id, anchor.start_offset, anchor.end_offset), (11, 0, 5));
    assert_eq!(anchor.selected_text, "Hw\u{e6}t!");
    assert_eq!((anchor.buffer_start, anchor.buffer_end), (6, 11));

    let new = create_annotation(&anchor, "text_note", Some("listen".to_string()), None);
    assert_eq!((new.node_id, new.start_offset, new.end_offset), (11, 0, 5));
    assert_eq!(new.author_name, "Reader");
    assert_eq!(new.comment.as_deref(), Some("listen"));

    assert!(resolve_selection_anchor(None, "", &nodes, &d.index, end).is_none(), "nothing is selected");
    assert!(resolve_selection_anchor(Some((7, 7)), "", &nodes, &d.index, end).is_none());
    assert!(
        resolve_selection_anchor(Some((2, 8)), "", &nodes, &d.index, end).is_none(),
        "a selection that leaves its node has no anchor"
    );
    assert!(
        resolve_selection_anchor(Some((16, 17)), "", &nodes, &d.index, end).is_none(),
        "an image has no words to mark"
    );
}

#[test]
fn annotations_are_found_where_they_stand() {
    let nodes = book();
    let d = build_document(&nodes);
    let end = d.char_count;
    let annotations = AnnotationIndex::load(vec![on(11, 1, 3, "highlight"), on(13, 0, 3, "other"), on(13, 4, 7, "voice_note")]);
    let (hit, from, to) = find_annotation_at(8, &nodes, &d.index, end, &annotations).unwrap();
    assert_eq!((hit.node_id, from, to), (11, 7, 9));
    assert!(find_annotation_at(9, &nodes, &d.index, end, &annotations).is_none(), "the end is not part of it");
    assert!(find_annotation_at(5, &nodes, &d.index, end, &annotations).is_none(), "nor is the blank line above");

    // The second annotation of the last node covers the offset; the first one is nearer to the other click.
    let spots = vec![Spot { start_line: 3, end_line: 3, start_x: 10, end_x: 20 }, Spot { start_line: 3, end_line: 3, start_x: 50, end_x: 90 }];
    let near = |offset: usize, line: i32, x: i32| {
        find_annotation_near(offset, line, x, &spots, &nodes, &d.index, end, &annotations).map(|(a, from, to)| (a.start_offset, from, to))
    };
    assert_eq!(near(22, 3, 12), Some((4, 22, 25)), "the words that were clicked come first");
    assert_eq!(near(21, 3, 12), Some((0, 18, 21)));
    assert_eq!(near(21, 3, 49), Some((4, 22, 25)));
    assert_eq!(near(21, 8, 12), None);

    let painted: Vec<(Mark, i64, i64)> =
        render_existing(&nodes, &d.index, &annotations).iter().map(|p| (p.mark, p.start, p.end)).collect();
    assert_eq!(painted, vec![(Mark::Highlight, 7, 9), (Mark::VoiceNote, 22, 25)]);
    assert_eq!(tag_for("text_note"), Some(Mark::TextNote));
    assert_eq!(tag_for("other"), None);
}

#[test]
fn clicks_beside_an_annotation_find_the_nearest() {
    let spot = |start_line: i32, end_line: i32, start_x: i32, end_x: i32| Spot { start_line, end_line, start_x, end_x };
    let spots = vec![spot(1, 1, 100, 150), spot(1, 2, 300, 40), spot(3, 3, 0, 10), spot(1, 1, 100, 150)];
    assert_eq!(nearest_spot(&spots, 1, 120), Some(0));
    assert_eq!(nearest_spot(&spots, 1, 290), Some(1));
    assert_eq!(nearest_spot(&spots, 3, 500), Some(2));
    assert_eq!(nearest_spot(&spots, 9, 0), None);
    assert_eq!(nearest_spot(&vec![spot(1, 4, 90, 10)], 3, 500), Some(0), "a line in the middle is touched too");
}

#[test]
fn whole_words_are_looked_up_and_other_words_marked() {
    assert!(selection_is_single_word(true, true, 11, 11));
    assert!(!selection_is_single_word(true, true, 3, 11), "two words are not one");
    assert!(!selection_is_single_word(true, false, 11, 10), "part of a word is not one");
    assert_eq!(handle_release(true, true, true, true, true), ReleaseAction::LookUpWord);
    assert_eq!(handle_release(false, true, false, true, true), ReleaseAction::CreateAnnotation);
    assert_eq!(handle_release(false, true, false, false, true), ReleaseAction::Nothing);
    assert_eq!(handle_release(false, false, false, false, true), ReleaseAction::ViewAnnotation);
    assert_eq!(handle_release(true, false, false, false, true), ReleaseAction::Nothing);
}

#[test]
fn annotations_are_listed_in_reading_order() {
    let nodes = book();
    let mut note = on(10, 0, 4, "text_note");
    note.comment = Some("A Song".to_string());
    let index = AnnotationIndex::load(vec![on(13, 0, 3, "highlight"), note]);
    let rows = ordered_annotations(&nodes, &index);
    assert_eq!(rows.iter().map(|a| a.node_id).collect::<Vec<_>>(), vec![10, 13]);
    let index_of_one = AnnotationIndex::load(vec![on(10, 3, 4, "highlight"), on(10, 0, 4, "highlight"), on(10, 1, 2, "highlight"), on(10, 0, 1, "text_note")]);
    let forward = ordered_annotations(&nodes, &index_of_one);
    assert_eq!(forward.iter().map(|a| (a.start_offset, a.end_offset)).collect::<Vec<_>>(), vec![(0, 4), (0, 1), (1, 2), (3, 4)]);
    assert_eq!(listed_annotations(&nodes, &index, "song").len(), 1);
    assert_eq!(listed_annotations(&nodes, &index, "highl").len(), 1);
    assert_eq!(listed_annotations(&nodes, &index, "").len(), 2);
    assert_eq!(annotation_snippet(&rows[0]), "A Song");
    assert_eq!(annotation_snippet(&rows[1]), "");
    assert!(empty_list_message("").starts_with("No annotations yet"));
    assert_eq!(empty_list_message("x"), "No annotations match your search.");
    assert_eq!(kind_label("voice_note"), "Voice Note");
    assert_eq!(kind_label("bookmark"), "bookmark");
}

#[test]
fn annotation_markdown_export_includes_kind_quote_and_comment() {
    let annotations = vec![
        test_annotation("highlight", Some("a golden sentence"), None, None),
        test_annotation("text_note", Some("the passage"), Some("worth rereading"), None),
    ];
    let out = export_annotations_markdown("The Odyssey", &annotations);

    assert!(out.starts_with("# Annotations \u{2014} The Odyssey\n\n"));
    assert!(out.contains("## Highlight"));
    assert!(out.contains("> a golden sentence"));
    assert!(out.contains("## Note"));
    assert!(out.contains("> the passage"));
    assert!(out.contains("worth rereading"));
}

#[test]
fn annotation_markdown_export_flags_voice_note_audio_as_not_included() {
    let annotations = vec![test_annotation("voice_note", Some("a line worth remembering"), Some("transcribed thought"), Some(42))];
    let out = export_annotations_markdown("Beowulf", &annotations);

    assert!(out.contains("## Voice Note"));
    assert!(out.contains("transcribed thought"), "a captured transcript must still be included");
    assert!(out.contains("audio recording not included"), "must be explicit that the audio itself isn't in the export");
}

#[test]
fn annotation_json_export_round_trips_every_field() {
    let annotations = vec![test_annotation("highlight", Some("text"), None, None)];
    match export_annotations_json(&annotations) {
        Json::Array(parsed) => {
            assert_eq!(parsed.len(), 1);
            assert!(matches!(parsed[0].get("annotation_type"), Some(Json::Text(t)) if t == "highlight"));
            assert!(matches!(parsed[0].get("selected_text"), Some(Json::Text(t)) if t == "text"));
            assert!(matches!(parsed[0].get("comment"), Some(Json::Null)));
            assert!(matches!(parsed[0].get("created_at"), Some(Json::Text(t)) if t == "2026-08-21 12:00:00"));
            match &parsed[0] {
                Json::Object(fields) => assert_eq!(fields.len(), 13),
                _ => panic!("an object is expected"),
            }
        }
        _ => panic!("an array is expected"),
    }
}

fn library_annotation(book_title: &str, annotation_type: &str, selected_text: Option<&str>, comment: Option<&str>) -> LibraryAnnotation {
    LibraryAnnotation {
        book_title: book_title.to_string(),
        book_path: format!("/books/{book_title}.wld"),
        annotation: test_annotation(annotation_type, selected_text, comment, None),
    }
}

#[test]
fn library_annotation_search_matches_book_title_too() {
    let entry = library_annotation("The Odyssey", "highlight", Some("wine-dark sea"), None);
    assert!(library_annotation_matches_search(&entry, ""));
    assert!(library_annotation_matches_search(&entry, "odyssey"), "must match the book title, not just the annotation content");
    assert!(library_annotation_matches_search(&entry, "wine-dark"));
    assert!(!library_annotation_matches_search(&entry, "beowulf"));
}

#[test]
fn library_markdown_export_groups_by_book_alphabetically() {
    let entries = vec![
        library_annotation("The Poetic Edda", "highlight", Some("a"), None),
        library_annotation("Beowulf", "highlight", Some("b"), None),
        library_annotation("Beowulf", "text_note", Some("c"), Some("second Beowulf note")),
    ];
    let out = export_library_annotations_markdown(&entries);

    let beowulf_pos = out.find("## Beowulf").expect("must have a Beowulf section");
    let edda_pos = out.find("## The Poetic Edda").expect("must have a Poetic Edda section");
    assert!(beowulf_pos < edda_pos, "books must be grouped and sorted alphabetically, not left in input order");
    // Only one "## Beowulf" heading even though it has two annotations.
    assert_eq!(out.matches("## Beowulf").count(), 1, "a book with multiple annotations must get one section, not one per annotation");
    assert!(out.contains("second Beowulf note"));
}

#[test]
fn library_markdown_keeps_reading_order_within_a_book() {
    let placed = |title: &str, path: &str, node_id: i64, start_offset: i64, words: &str, created_at: &str| {
        let mut entry = library_annotation(title, "highlight", Some(words), None);
        entry.book_path = path.to_string();
        entry.annotation.node_id = node_id;
        entry.annotation.start_offset = start_offset;
        entry.annotation.created_at = created_at.to_string();
        entry
    };
    let out = export_library_annotations_markdown(&vec![
        placed("B", "/b", 5, 0, "late", "2026-01-01 00:00:00"),
        placed("B", "/b", 1, 0, "early", "2026-01-02 00:00:00"),
    ]);
    assert_eq!(out.matches("## B\n").count(), 1);
    assert!(out.find("> early").unwrap() < out.find("> late").unwrap());

    // Titles that differ in case alone, and two books of one title.
    let out = export_library_annotations_markdown(&vec![
        placed("foo", "/1", 1, 0, "one", "2026-01-03"),
        placed("Foo", "/2", 9, 0, "two", "2026-01-01"),
        placed("foo", "/0", 3, 7, "three", "2026-01-05"),
        placed("foo", "/1", 1, 4, "four", "2026-01-02"),
        placed("Foo", "/2", 2, 0, "five", "2026-01-04"),
    ]);
    assert_eq!(out.matches("## Foo\n").count(), 1);
    assert_eq!(out.matches("## foo\n").count(), 1);
    let places: Vec<usize> = ["> five", "> two", "> three", "> one", "> four"].iter().map(|w| out.find(w).unwrap()).collect();
    assert!(places.windows(2).all(|w| w[0] < w[1]));
}

#[test]
fn library_json_export_includes_book_title_flattened_with_annotation_fields() {
    let entries = vec![library_annotation("Beowulf", "highlight", Some("text"), None)];
    match export_library_annotations_json(&entries) {
        Json::Array(parsed) => {
            let row = &parsed[0];
            assert!(matches!(row.get("book_title"), Some(Json::Text(t)) if t == "Beowulf"));
            assert!(matches!(row.get("annotation_type"), Some(Json::Text(t)) if t == "highlight"));
            assert!(matches!(row.get("selected_text"), Some(Json::Text(t)) if t == "text"));
        }
        _ => panic!("an array is expected"),
    }
}

#[test]
fn load_all_library_annotations_aggregates_across_books() {
    let entry = |title: &str| LibraryEntry {
        path: format!("/books/{title}.wld"),
        title: title.to_string(),
        author: None,
        added_at: 0,
        last_opened_at: 0,
        last_position_node_id: None,
        last_position_percent: None,
        language: None,
        content_hash: None,
        shared: None,
    };
    let entries = vec![entry("Book A"), entry("Gone"), entry("Book B")];
    let loaded = vec![
        Some(vec![test_annotation("highlight", Some("highlight in A"), None, None)]),
        None,
        Some(vec![test_annotation("highlight", Some("note in B"), None, None)]),
    ];
    let all = load_all_library_annotations(&entries, &loaded);
    assert_eq!(all.len(), 2, "must aggregate one annotation from each of the two books");
    assert!(all.iter().any(|e| e.book_title == "Book A" && e.annotation.selected_text.as_deref() == Some("highlight in A")));
    assert!(all.iter().any(|e| e.book_title == "Book B" && e.annotation.selected_text.as_deref() == Some("note in B")));
    assert_eq!(all[1].book_path, "/books/Book B.wld");
}

#[test]
fn extract_terms_pulls_every_bracketed_match() {
    let snippet = "...\u{ab}Robin\u{bb} shot the \u{ab}arrow\u{bb}...";
    assert_eq!(extract_terms(snippet), vec!["Robin".to_string(), "arrow".to_string()]);
}

#[test]
fn extract_terms_handles_no_matches() {
    assert_eq!(extract_terms("no markers here"), Vec::<String>::new());
    assert_eq!(extract_terms("\u{ab}left open"), Vec::<String>::new());
}

#[test]
fn find_codepoint_range_is_case_insensitive() {
    assert_eq!(find_codepoint_range("Robin Hood was here", "hood"), Some((6, 10)));
}

#[test]
fn find_codepoint_range_returns_none_when_absent() {
    assert_eq!(find_codepoint_range("Robin Hood", "sherwood"), None);
    assert_eq!(find_codepoint_range("Robin Hood", ""), None);
}

#[test]
fn find_codepoint_range_counts_unicode_codepoints_not_bytes() {
    let (start, end) = find_codepoint_range("caf\u{e9} shop", "shop").unwrap();
    assert_eq!(start, 5);
    assert_eq!(end, 9);
    // Letters outside ASCII are matched whatever their case.
    assert_eq!(find_codepoint_range("L'\u{c9}t\u{e9}", "\u{e9}T\u{c9}"), Some((2, 5)));
}

#[test]
fn snippet_markup_bolds_matches_and_escapes_the_rest() {
    let out = snippet_markup("Tom & \u{ab}Robin\u{bb} <met>");
    assert_eq!(out, "Tom &amp; <b>Robin</b> &lt;met&gt;");
}

#[test]
fn snippet_markup_passes_through_plain_text_unchanged() {
    assert_eq!(snippet_markup("no matches here"), "no matches here");
}

#[test]
fn markup_holds_no_loose_signs() {
    assert_eq!(escape_text("\"it's\" \u{1}\u{9f}\n"), "&quot;it&#39;s&quot; &#x1;&#x9f;\n");
    assert_eq!(snippet_markup("a \u{ab}b & c"), "a b &amp; c");
    assert!(query_is_blank(" \t\u{3000}"));
    assert!(!query_is_blank(" a "));
}

#[test]
fn the_word_that_was_found_is_shown() {
    let nodes = book();
    let d = build_document(&nodes);
    let terms = vec!["missing".to_string(), "WE".to_string()];
    assert_eq!(flash_match(&nodes, &d.index, 11, &terms), Some((12, 14)));
    assert_eq!(flash_match(&nodes, &d.index, 12, &terms), None);
    assert_eq!(flash_match(&nodes, &d.index, 99, &terms), None);
}
