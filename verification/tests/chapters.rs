//! Chapters, package documents, and the paths between them.

use weland::compiler::{metadata_rows, BookRows};
use weland::dom::{
    is_whole_line_link, leading_number_len, parse_chapter_html, resolve_footnote, sanitize_metadata_text,
    starts_with_opening_quote, strip_pagebreak_markers, trailing_number_len, ChapterElement, TextCollector,
};
use weland::epub::{
    container_opf_path, find_entry, get_mime_type, get_parent_dir, normalize_decoded_path, normalize_zip_path, parse_nav_xhtml,
    parse_opf, parse_toc_ncx, resolve_relative_path, toc_of_document, EpubError,
};
use weland::html::HtmlDocument;
use weland::json::{parse_spans, spans_to_json, Json};
use weland::order::{stable_order, SortKey};
use weland::schema::Span;
use weland::text::{join_texts, split_text, split_words, trim_text};
use weland::toolkit::{export_markdown, format_markdown_spans, ExportFormat};

fn elements(body: &str) -> Vec<ChapterElement> {
    parse_chapter_html(&format!("<html><body>{body}</body></html>"), "text/ch1.xhtml").1
}

fn span(start: usize, end: usize, span_type: &str, href: Option<&str>) -> Span {
    Span { start, end, span_type: span_type.to_string(), href: href.map(String::from) }
}

#[test]
fn headings_have_levels_and_anchors() {
    match &elements("<h3 id=\"top\">A <i>b</i></h3>")[..] {
        [ChapterElement::Heading { level, text, spans, element_ids, own_id }] => {
            assert_eq!(*level, 3);
            assert_eq!(text, "A b");
            assert_eq!((spans[0].start, spans[0].end, spans[0].span_type.as_str()), (2, 3, "italic"));
            assert!(element_ids.iter().any(|i| i == "top"));
            assert!(*own_id);
        }
        _ => panic!("one heading is expected"),
    }
}

#[test]
fn lists_keep_their_items() {
    match &elements("<ol><li>one<ul><li>deep</li></ul></li><li>two</li></ol>")[..] {
        [ChapterElement::List { ordered, items, .. }] => {
            assert!(*ordered);
            assert_eq!(items.len(), 2);
            assert_eq!(items[0].text, "one");
            assert_eq!(items[1].text, "two");
            let sublist = items[0].sublist.as_ref().unwrap();
            assert!(!sublist.ordered);
            assert_eq!(sublist.items[0].text, "deep");
            assert!(items[1].sublist.is_none());
        }
        _ => panic!("one list is expected"),
    }
}

#[test]
fn tables_keep_their_cells() {
    match &elements("<table><tr><th>a</th><th>b</th></tr><tr><td>c</td><td> d  e </td></tr></table>")[..] {
        [ChapterElement::Table { rows, .. }] => {
            assert_eq!(rows, &vec![vec!["a".to_string(), "b".to_string()], vec!["c".to_string(), "d e".to_string()]]);
        }
        _ => panic!("one table is expected"),
    }
}

#[test]
fn images_and_breaks_are_elements() {
    let found = elements("<img src=\"a.png\" alt=\"A\" title=\"T\"/><hr/>");
    match &found[..] {
        [ChapterElement::Image { src, alt, caption, .. }, ChapterElement::ThematicBreak { .. }] => {
            assert_eq!((src.as_str(), alt.as_str(), caption.as_str()), ("a.png", "A", "T"));
        }
        _ => panic!("an image and a break are expected"),
    }
}

#[test]
fn notes_are_found_by_their_anchors() {
    let html = "<html><body><p>See<a href=\"#n1\" class=\"noteref\">1</a>.</p><aside id=\"n1\"><p>1. The note.</p></aside></body></html>";
    let (document, found) = parse_chapter_html(html, "c.xhtml");
    match &found[0] {
        ChapterElement::Paragraph { footnotes, .. } => {
            assert_eq!(footnotes.len(), 1);
            assert_eq!((footnotes[0].anchor_id.as_str(), footnotes[0].label.as_str()), ("n1", "1"));
            let note = resolve_footnote(&document, &footnotes[0].anchor_id, &footnotes[0].label).unwrap();
            assert!(note.text.contains("The note."));
            assert_eq!(note.anchor_id, "n1");
        }
        _ => panic!("a paragraph is expected"),
    }
    assert!(resolve_footnote(&document, "absent", "2").is_none());
    assert!(resolve_footnote(&HtmlDocument::parse("<p id=\"e\"></p>".to_string()), "e", "1").is_none());

    // An anchor is first read as a selector, and only then as it stands.
    let document = HtmlDocument::parse("<p id=\"x.y\">as it stands</p><p id=\"x\" class=\"y\">selected</p>".to_string());
    assert_eq!(resolve_footnote(&document, "x.y", "1").map(|n| n.text), Some("selected".to_string()));
    let document = HtmlDocument::parse("<p name=\"1a\">named</p>".to_string());
    assert_eq!(resolve_footnote(&document, "1a", "1").map(|n| n.text), Some("named".to_string()));
}

#[test]
fn page_markers_leave_no_trace() {
    let html = "<p>be<span epub:type=\"pagebreak\" id=\"p7\">7</span>fore</p>";
    let cleaned = strip_pagebreak_markers(html);
    assert!(!cleaned.contains(">7<"), "{cleaned}");
    assert!(strip_pagebreak_markers("<p>plain</p>") == "<p>plain</p>");
}

#[test]
fn verse_lines_are_told_from_prose() {
    assert!(starts_with_opening_quote("\u{201c}Hail\u{201d}"));
    assert!(!starts_with_opening_quote("Hail"));
    assert_eq!(leading_number_len("12 Arms"), Some(2));
    assert_eq!(leading_number_len("Arms"), None);
    assert_eq!(trailing_number_len("the man 15"), Some(2));
    assert!(is_whole_line_link(4, &vec![span(0, 4, "link", Some("x"))]));
    assert!(!is_whole_line_link(5, &vec![span(0, 4, "link", Some("x"))]));
}

#[test]
fn collected_text_is_its_words() {
    let mut c = TextCollector::new();
    c.feed_text("  two \n\t words  ");
    c.feed_line_break();
    c.feed_text("more ");
    assert_eq!(c.finish(), ("two words\nmore".to_string(), 14));
}

#[test]
fn metadata_is_freed_of_markup() {
    assert_eq!(sanitize_metadata_text("<p>One</p><p>Two <b>bold</b></p>"), "One\n\nTwo bold");
    assert_eq!(sanitize_metadata_text("  plain text "), "plain text");
}

#[test]
fn paths_are_brought_to_normal_form() {
    assert_eq!(normalize_zip_path("/OEBPS/./text/../a%20b.xhtml?x#y"), "OEBPS/a b.xhtml");
    assert_eq!(normalize_zip_path("..\\..\\x"), "x");
    assert_eq!(normalize_decoded_path("/a/./b/../c%20d\\e?x#y"), "a/c%20d/e");
    assert_eq!(normalize_decoded_path("a//b/"), "a/b");
    assert_eq!(normalize_decoded_path("#a/b"), "");
    assert_eq!(resolve_relative_path("OEBPS/text", "../img/a.png"), "OEBPS/img/a.png");
    assert_eq!(resolve_relative_path("", "a.xhtml#top"), "a.xhtml#top");
    assert_eq!(resolve_relative_path("d", "a.xhtml#"), "d/a.xhtml");
    assert_eq!(get_parent_dir("a/b/c.xhtml"), "a/b");
    assert_eq!(get_parent_dir("c.xhtml"), "");
    let names = vec![Some("x/A.png".to_string()), None, Some("x/a.png".to_string())];
    assert_eq!(find_entry(&names, "x/a.png"), Some(2));
    assert_eq!(find_entry(&names, "X/./a.PNG"), Some(0));
    assert_eq!(find_entry(&names, "y"), None);
}

#[test]
fn files_have_types() {
    assert_eq!(get_mime_type("a/COVER.JPeG"), "image/jpeg");
    assert_eq!(get_mime_type("x.svg"), "image/svg+xml");
    assert_eq!(get_mime_type("x.m4a"), "audio/mp4");
    assert_eq!(get_mime_type("x.txt"), "text/plain");
    assert_eq!(get_mime_type("x.unheardof"), "application/octet-stream");
}

#[test]
fn containers_name_their_package() {
    assert_eq!(
        container_opf_path("<container><rootfile full-path=\"/a/./p.opf\"/></container>").ok().as_deref(),
        Some("a/p.opf")
    );
    assert!(matches!(container_opf_path("<container/>"), Err(EpubError::NoRootfile)));
    assert!(matches!(container_opf_path("<container>"), Err(EpubError::ContainerXml(_))));
    assert!(matches!(parse_opf("<package>", ""), Err(EpubError::PackageXml(_))));
}

#[test]
fn packages_list_their_parts() {
    let opf = "<package><metadata><title>T &amp; <i>U</i></title><creator>C</creator><date> 2020 </date></metadata>\
        <manifest><item id=\"n\" href=\"nav.xhtml\" media-type=\"application/xhtml+xml\" properties=\"nav\"/>\
        <item id=\"c\" href=\"i/cover.png\" media-type=\"image/png\" properties=\"cover-image\"/>\
        <item id=\"a\" href=\"a.xhtml\" media-type=\"application/xhtml+xml\"/></manifest>\
        <spine><itemref idref=\"a\"/><itemref idref=\"zz\"/></spine></package>";
    let p = match parse_opf(opf, "OEBPS") {
        Ok(p) => p,
        Err(_) => panic!("the package is well-formed"),
    };
    assert_eq!(p.metadata.title, "T & <i>U</i>");
    assert_eq!(p.metadata.language, "en");
    assert_eq!(p.metadata.date.as_deref(), Some("2020"));
    assert_eq!(p.metadata.cover_href.as_deref(), Some("OEBPS/i/cover.png"));
    assert_eq!(p.metadata.toc_href.as_deref(), Some("OEBPS/nav.xhtml"));
    assert_eq!(p.spine_paths, vec!["OEBPS/a.xhtml".to_string()]);
    assert_eq!(p.manifest.len(), 3);

    let twice = "<package><manifest><item id=\"a\" href=\"old.xhtml\" media-type=\"x\"/>\
        <item id=\"b\" href=\"b.xhtml\" media-type=\"x\"/><item id=\"a\" href=\"new.xhtml\" media-type=\"x\"/></manifest>\
        <spine><itemref idref=\"a\"/></spine></package>";
    let again = match parse_opf(twice, "") {
        Ok(p) => p,
        Err(_) => panic!("the package is well-formed"),
    };
    assert_eq!(again.manifest.iter().map(|i| i.href.as_str()).collect::<Vec<_>>(), ["b.xhtml", "new.xhtml"]);
    assert_eq!(again.spine_paths, vec!["new.xhtml".to_string()]);

    let rows = metadata_rows(&p.metadata, "1.2", "ff");
    assert_eq!(rows[0], ("title".to_string(), "T & U".to_string()));
    assert_eq!(rows[rows.len() - 1], ("source_epub_sha256".to_string(), "ff".to_string()));
}

#[test]
fn tables_of_contents_keep_their_levels() {
    let nav = "<html><body><nav><ol><li><a href=\"c1.xhtml\">One</a><ol><li><a href=\"c1.xhtml#b\">B</a></li></ol></li>\
        <li><a></a></li></ol></nav></body></html>";
    let toc = parse_nav_xhtml(nav, "t");
    assert_eq!(toc.len(), 1);
    assert_eq!((toc[0].title.as_str(), toc[0].href.as_str()), ("One", "t/c1.xhtml"));
    assert_eq!(toc[0].children[0].href, "t/c1.xhtml#b");

    let ncx = "<ncx><navMap><navPoint><navLabel><text>N</text></navLabel><content src=\"x.xhtml\"/></navPoint></navMap></ncx>";
    assert_eq!(parse_toc_ncx(ncx, "")[0].title, "N");
    assert_eq!(parse_toc_ncx("<ncx>", "").len(), 0);
    assert_eq!(toc_of_document("d/toc.ncx", ncx)[0].href, "d/x.xhtml");
    assert_eq!(toc_of_document("d/nav.xhtml", nav)[0].href, "d/c1.xhtml");
}

#[test]
fn the_navigation_marked_as_contents_comes_first() {
    let nav = |attributes: &str, title: &str| format!("<nav {attributes}><ol><li><a href=\"x\">{title}</a></li></ol></nav>");
    let first = |navs: &[String]| parse_nav_xhtml(&format!("<html><body>{}</body></html>", navs.concat()), "")[0].title.clone();
    let landmarks = nav("epub:type=\"landmarks\"", "landmarks");
    let called = nav("id=\"toc\"", "called");
    let typed = nav("epub:type=\"toc\"", "typed");
    assert_eq!(first(&[landmarks.clone(), called.clone(), typed.clone()]), "typed");
    assert_eq!(first(&[landmarks.clone(), called.clone()]), "called");
    assert_eq!(first(&[landmarks.clone(), nav("id=\"other\"", "other")]), "landmarks");
    assert_eq!(first(&[typed, nav("epub:type=\"toc\"", "again")]), "typed");
}

#[test]
fn entries_without_links_have_their_own_words() {
    let toc = parse_nav_xhtml("<nav><ol><li> Part <i>One</i><ol><li>Chapter</li></ol> and more</li></ol></nav>", "");
    assert_eq!(toc.len(), 1);
    assert_eq!(toc[0].title, "Part One and more");
    assert_eq!(toc[0].children[0].title, "Chapter");
    assert_eq!(toc[0].href, "");
}

#[test]
fn white_space_is_collapsed_across_inline_elements() {
    let text = |body: &str| match &elements(&format!("<p>{body}</p>"))[..] {
        [ChapterElement::Paragraph { text, .. }] => text.clone(),
        _ => panic!("one paragraph is expected"),
    };
    assert_eq!(text("a <em> b</em>"), "a b");
    assert_eq!(text("a<em> b </em> c"), "a b c");
    assert_eq!(text(" <b> <i> a </i> </b> <u> b</u> "), "a b");
    assert_eq!(text("a <br/> b"), "a\nb");
    assert_eq!(text("a <em><br/></em> b"), "a\nb");
    assert_eq!(text("a<br/> <br/> b <br/>"), "a\nb");
    match &elements("<p>a <em> b </em> c</p>")[..] {
        [ChapterElement::Paragraph { spans, .. }] => assert_eq!((spans[0].start, spans[0].end), (2, 3)),
        _ => panic!("one paragraph is expected"),
    }
}

#[test]
fn the_last_element_with_an_id_claims_it() {
    let html = "<html><body><p id=\"x\">First</p><p id=\"x\">Second</p></body></html>";
    let (document, found) = parse_chapter_html(html, "c.xhtml");
    let mut rows = BookRows::new();
    rows.add_chapter("c.xhtml", &document, &found, &vec![]);
    assert_eq!(rows.anchor_target("c.xhtml", "x"), Some(1));
    assert_eq!(rows.chapter_start("c.xhtml"), Some(0));
    assert_eq!(rows.target_of("c.xhtml#x"), Some(1));
    assert_eq!(rows.target_of("c.xhtml#none"), Some(0), "an anchor that is not there leads to the chapter");
    assert_eq!(rows.target_of("d.xhtml"), None);
    assert_eq!(rows.node_counts(), vec![("paragraph".to_string(), 2)]);
}

#[test]
fn the_first_element_inside_claims_the_id_of_a_wrapper() {
    let html = "<html><body><p>Before</p><section id=\"s\"><p>One</p><p id=\"y\">Two</p></section>\
                <p id=\"z\">Three</p><section id=\"z\"><p>Four</p></section>\
                <section id=\"w\"><p>Five</p><p id=\"w\">Six</p></section></body></html>";
    let (document, found) = parse_chapter_html(html, "c.xhtml");
    let mut rows = BookRows::new();
    rows.add_chapter("c.xhtml", &document, &found, &vec![]);
    assert_eq!(rows.anchor_target("c.xhtml", "s"), Some(1));
    assert_eq!(rows.anchor_target("c.xhtml", "y"), Some(2));
    assert_eq!(rows.anchor_target("c.xhtml", "z"), Some(3), "what has an id of its own keeps it");
    assert_eq!(rows.anchor_target("c.xhtml", "w"), Some(6), "and takes it from a wrapper");
}

#[test]
fn svg_images_are_pictures() {
    let address = |body: &str| match &elements(body)[..] {
        [ChapterElement::Image { src, .. }] => src.clone(),
        _ => panic!("one image is expected"),
    };
    assert_eq!(address("<svg><image xlink:href=\"cover.jpg\"/></svg>"), "cover.jpg");
    assert_eq!(address("<svg><image href=\"plain.jpg\"/></svg>"), "plain.jpg");
    assert_eq!(address("<svg><image href=\"plain.jpg\" xlink:href=\"linked.jpg\"/></svg>"), "linked.jpg");
    assert_eq!(elements("<svg><image width=\"1\"/></svg>").len(), 0);
}

#[test]
fn spans_survive_json() {
    let spans = vec![span(0, 2, "bold", None), span(1, 3, "link", Some("http://x"))];
    let attributes = Json::Object(vec![("spans".to_string(), spans_to_json(&spans))]);
    let back = parse_spans(Some(&attributes));
    assert_eq!(back.len(), 2);
    assert_eq!((back[1].start, back[1].end, back[1].href.as_deref()), (1, 3, Some("http://x")));
    let torn = Json::Object(vec![("spans".to_string(), Json::Array(vec![spans_to_json(&spans), Json::Null]))]);
    assert_eq!(parse_spans(Some(&torn)).len(), 0);
    assert_eq!(parse_spans(None).len(), 0);
}

#[test]
fn spans_become_markdown() {
    let spans = vec![span(0, 2, "bold", None), span(3, 5, "link", Some("u")), span(3, 9, "code", None)];
    assert_eq!(format_markdown_spans("ab cd", &spans), "**ab** [cd](u)");
    assert_eq!(format_markdown_spans("ab cd", &vec![]), "ab cd");
    // What closes at a place stands before what opens there.
    let touching = vec![span(1, 2, "code", None), span(0, 1, "link", Some("u"))];
    assert_eq!(format_markdown_spans("ab", &touching), "[a](u)`b`");
    let touching = vec![span(2, 3, "bold", None), span(1, 2, "strikethrough", None), span(0, 1, "italic", None)];
    assert_eq!(format_markdown_spans("abc", &touching), "*a*~~b~~**c**");
    assert_eq!(export_markdown(None, Some("A"), &vec![]), "");
    assert_eq!(ExportFormat::Json.label(), "JSON");
}

#[test]
fn equals_stay_in_their_order() {
    let key = |t: &str| SortKey::Text(t.to_string());
    assert_eq!(stable_order(&vec![key("b"), key("a"), key("b"), key("a")], false), vec![1, 3, 0, 2]);
    assert_eq!(stable_order(&vec![key("b"), key("a"), key("b")], true), vec![0, 2, 1]);
    let mixed = |t: &str, u: &str, v: &str, m: i64, n: i64| SortKey::Mixed(t.to_string(), u.to_string(), v.to_string(), m, n);
    let keys = vec![
        mixed("a", "b", "c", 2, 1),
        mixed("a", "b", "c", 1, 9),
        mixed("a", "b", "b", 7, 7),
        mixed("a", "a", "z", 8, 8),
        mixed("", "z", "z", 9, 9),
        mixed("a", "b", "c", 1, 8),
    ];
    assert_eq!(stable_order(&keys, false), vec![4, 3, 2, 5, 1, 0]);
    assert_eq!(stable_order(&keys, true), vec![0, 1, 5, 2, 3, 4]);
    assert_eq!(stable_order(&vec![SortKey::Numbers(1, 2), SortKey::Numbers(1, 1), SortKey::Number(5)], false), vec![2, 1, 0]);
}

#[test]
fn texts_are_split_and_joined() {
    assert_eq!(split_text("a,,b", ','), vec!["a", "", "b"]);
    assert_eq!(join_texts(&split_text("a,,b", ','), ","), "a,,b");
    assert_eq!(split_words(" a \u{2003}b\n"), vec!["a", "b"]);
    assert_eq!(trim_text("\u{a0} x \n"), "x");
    assert_eq!(trim_text(&trim_text(" y ")), "y");
}
