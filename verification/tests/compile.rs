//! Compiling whole EPUB files, and exporting what comes of it.

use std::io::{Cursor, Write};

use weland::book::{compile_epub, CompiledBook};
use weland::dom::extract_text_and_spans;
use weland::epub::EpubError;
use weland::exports::export_json;
use weland::html::parse_fragment_nodes;
use weland::json::Json;
use weland::schema::AstNode;
use weland::toc::outline;
use weland::toolkit::{asset_file_name, cover_file_name, export_markdown, export_text};
use weland::tree::named;
use zip::write::SimpleFileOptions;
use zip::ZipWriter;

const COVER_PNG_BYTES: &[u8] = &[0x89, 0x50, 0x4E, 0x47, 0x0D, 0x0A, 0x1A, 0x0A, 0x00, 0x01, 0x02, 0x03];
const DIAGRAM_PNG_BYTES: &[u8] = &[0x89, 0x50, 0x4E, 0x47, 0x0D, 0x0A, 0x1A, 0x0A, 0xAA, 0xBB, 0xCC, 0xDD];

/// A zip archive with these entries; the first is stored, the others are deflated.
fn archive(entries: &[(&str, &[u8])]) -> Vec<u8> {
    let mut zip = ZipWriter::new(Cursor::new(Vec::new()));
    for (i, (name, data)) in entries.iter().enumerate() {
        let method = if i == 0 { zip::CompressionMethod::Stored } else { zip::CompressionMethod::Deflated };
        zip.start_file(*name, SimpleFileOptions::default().compression_method(method)).unwrap();
        zip.write_all(data).unwrap();
    }
    zip.finish().unwrap().into_inner()
}

fn fixture_epub() -> Vec<u8> {
    archive(&[
        ("mimetype", b"application/epub+zip" as &[u8]),
        ("META-INF/container.xml", br#"<?xml version="1.0" encoding="UTF-8"?>
<container version="1.0" xmlns="urn:oasis:names:tc:opendocument:xmlns:container">
  <rootfiles>
    <rootfile full-path="OEBPS/package.opf" media-type="application/oebps-package+xml"/>
  </rootfiles>
</container>"# as &[u8]),
        ("OEBPS/package.opf", br#"<?xml version="1.0" encoding="UTF-8"?>
<package xmlns="http://www.idpf.org/2007/opf" version="3.0" unique-identifier="pub-id">
  <metadata xmlns:dc="http://purl.org/dc/elements/1.1/">
    <dc:identifier id="pub-id">urn:uuid:12345678-1234-5678-1234-567812345678</dc:identifier>
    <dc:title>The Principles of Weland</dc:title>
    <dc:creator>Jane Doe</dc:creator>
    <dc:language>en</dc:language>
    <dc:description>A comprehensive guide to next-generation ebook architectures.</dc:description>
    <dc:publisher>Weland Press</dc:publisher>
    <dc:date>2026-08-13</dc:date>
    <meta name="cover" content="cover-image-id"/>
  </metadata>
  <manifest>
    <item id="nav" href="nav.xhtml" media-type="application/xhtml+xml" properties="nav"/>
    <item id="cover-image-id" href="images/cover.png" media-type="image/png" properties="cover-image"/>
    <item id="chapter1" href="text/ch1.xhtml" media-type="application/xhtml+xml"/>
    <item id="chapter2" href="text/ch2.xhtml" media-type="application/xhtml+xml"/>
    <item id="img-diagram" href="images/diagram.png" media-type="image/png"/>
  </manifest>
  <spine>
    <itemref idref="chapter1"/>
    <itemref idref="chapter2"/>
  </spine>
</package>"# as &[u8]),
        ("OEBPS/images/cover.png", COVER_PNG_BYTES as &[u8]),
        ("OEBPS/images/diagram.png", DIAGRAM_PNG_BYTES as &[u8]),
        ("OEBPS/nav.xhtml", br#"<?xml version="1.0" encoding="utf-8"?>
<!DOCTYPE html>
<html xmlns="http://www.w3.org/1999/xhtml" xmlns:epub="http://www.idpf.org/2007/ops">
<head><title>TOC</title></head>
<body>
  <nav epub:type="toc" id="toc">
    <h1>Table of Contents</h1>
    <ol>
      <li><a href="text/ch1.xhtml">1. Introduction to Weland</a></li>
      <li><a href="text/ch2.xhtml">2. Deep Dive: Performance</a></li>
    </ol>
  </nav>
</body>
</html>"# as &[u8]),
        ("OEBPS/text/ch1.xhtml", br##"<?xml version="1.0" encoding="utf-8"?>
<!DOCTYPE html>
<html xmlns="http://www.w3.org/1999/xhtml">
<head><title>Chapter 1</title></head>
<body>
  <h1>Introduction to Weland</h1>
  <p>The <em>future</em> of <strong>digital publishing</strong> is here with <a href="https://example.com">open standards</a>.</p>
  <hr/>
  <p>Here is a second paragraph referencing a footnote<a href="#fn1" class="noteref">1</a> for details.</p>
  <blockquote>Knowledge is power in the digital age.</blockquote>
  <ul>
    <li>Fast random access</li>
    <li>Full-text search</li>
  </ul>
  <table>
    <tr><th>Feature</th><th>Status</th></tr>
    <tr><td>AST Storage</td><td>Active</td></tr>
    <tr><td>FTS5 Index</td><td>Enabled</td></tr>
  </table>
  <aside id="fn1">
    <p>1. Weland is an SQLite-backed binary standard.</p>
  </aside>
</body>
</html>"## as &[u8]),
        ("OEBPS/text/ch2.xhtml", br#"<?xml version="1.0" encoding="utf-8"?>
<!DOCTYPE html>
<html xmlns="http://www.w3.org/1999/xhtml">
<head><title>Chapter 2</title></head>
<body>
  <h2>Deep Dive: Performance</h2>
  <p>Look at this architectural diagram:</p>
  <img src="../images/diagram.png" alt="Architecture Diagram" title="Figure 1.1"/>
  <p>Inline code like <code>SELECT * FROM ast_nodes;</code> is fast.</p>
</body>
</html>"# as &[u8]),
    ])
}

fn dedup_epub() -> Vec<u8> {
    archive(&[
        ("mimetype", b"application/epub+zip" as &[u8]),
        ("META-INF/container.xml", br#"<?xml version="1.0"?>
<container version="1.0" xmlns="urn:oasis:names:tc:opendocument:xmlns:container">
  <rootfiles><rootfile full-path="content.opf" media-type="application/oebps-package+xml"/></rootfiles>
</container>"# as &[u8]),
        ("content.opf", br#"<?xml version="1.0"?>
<package xmlns="http://www.idpf.org/2007/opf" version="2.0" unique-identifier="id">
  <metadata xmlns:dc="http://purl.org/dc/elements/1.1/">
    <dc:title>Asset Dedup Test</dc:title>
    <dc:creator>Author</dc:creator>
    <meta name="cover" content="shared-img"/>
  </metadata>
  <manifest>
    <item id="shared-img" href="img.png" media-type="image/png"/>
    <item id="ch1" href="ch1.xhtml" media-type="application/xhtml+xml"/>
    <item id="ch2" href="ch2.xhtml" media-type="application/xhtml+xml"/>
  </manifest>
  <spine>
    <itemref idref="ch1"/>
    <itemref idref="ch2"/>
  </spine>
</package>"# as &[u8]),
        ("img.png", b"UNIQUE_IMAGE_CONTENT_BYTES_123456" as &[u8]),
        ("ch1.xhtml", br#"<html><body><img src="img.png" alt="First use"/></body></html>"# as &[u8]),
        ("ch2.xhtml", br#"<html><body><img src="img.png" alt="Second use"/></body></html>"# as &[u8]),
    ])
}

fn ncx_epub() -> Vec<u8> {
    archive(&[
        ("mimetype", b"application/epub+zip" as &[u8]),
        ("META-INF/container.xml", br#"<?xml version="1.0"?>
<container version="1.0" xmlns="urn:oasis:names:tc:opendocument:xmlns:container">
  <rootfiles><rootfile full-path="OEBPS/content.opf" media-type="application/oebps-package+xml"/></rootfiles>
</container>"# as &[u8]),
        ("OEBPS/content.opf", br#"<?xml version="1.0"?>
<package xmlns="http://www.idpf.org/2007/opf" version="2.0" unique-identifier="id">
  <metadata xmlns:dc="http://purl.org/dc/elements/1.1/">
    <dc:title>EPUB 2 NCX Test</dc:title>
    <dc:creator>Author</dc:creator>
  </metadata>
  <manifest>
    <item id="ncx" href="toc.ncx" media-type="application/x-dtbncx+xml"/>
    <item id="ch1" href="ch1.xhtml" media-type="application/xhtml+xml"/>
  </manifest>
  <spine toc="ncx">
    <itemref idref="ch1"/>
  </spine>
</package>"# as &[u8]),
        ("OEBPS/toc.ncx", br#"<?xml version="1.0" encoding="UTF-8"?>
<ncx xmlns="http://www.daisy.org/z3986/2005/ncx/" version="2005-1">
  <navMap>
    <navPoint id="np-1" playOrder="1">
      <navLabel><text>Chapter 1: Foundations</text></navLabel>
      <content src="ch1.xhtml#chap1"/>
      <navPoint id="np-1-1" playOrder="2">
        <navLabel><text>1.1 Architecture</text></navLabel>
        <content src="ch1.xhtml#arch"/>
      </navPoint>
      <navPoint id="np-1-2" playOrder="3">
        <navLabel><text>1.2 Storage Model</text></navLabel>
        <content src="ch1.xhtml#storage"/>
      </navPoint>
    </navPoint>
  </navMap>
</ncx>"# as &[u8]),
        ("OEBPS/ch1.xhtml", br#"<!DOCTYPE html>
<html>
<body>
  <h1 id="chap1">Chapter 1: Foundations</h1>
  <p>Overview of the system.</p>
  <h2 id="arch">1.1 Architecture</h2>
  <p>System components and interfaces.</p>
  <h2 id="storage">1.2 Storage Model</h2>
  <p>SQLite AST representation.</p>
</body>
</html>"# as &[u8]),
    ])
}

fn html_meta_epub() -> Vec<u8> {
    archive(&[
        ("mimetype", b"application/epub+zip" as &[u8]),
        ("META-INF/container.xml", br#"<?xml version="1.0"?>
<container version="1.0" xmlns="urn:oasis:names:tc:opendocument:xmlns:container">
  <rootfiles><rootfile full-path="content.opf" media-type="application/oebps-package+xml"/></rootfiles>
</container>"# as &[u8]),
        ("content.opf", br#"<?xml version="1.0"?>
<package xmlns="http://www.idpf.org/2007/opf" version="2.0" unique-identifier="id">
  <metadata xmlns:dc="http://purl.org/dc/elements/1.1/">
    <dc:title><b>The</b> <i>Weland</i> Guide &amp; Reference</dc:title>
    <dc:creator><span class="author">Alice &amp; Bob</span></dc:creator>
    <dc:description><p>This is paragraph 1 of the description.</p><p>This is paragraph 2 with <b>bold text</b> and &lt;encoded markup&gt;.</p></dc:description>
  </metadata>
  <manifest>
    <item id="ch1" href="ch1.xhtml" media-type="application/xhtml+xml"/>
  </manifest>
  <spine>
    <itemref idref="ch1"/>
  </spine>
</package>"# as &[u8]),
        ("ch1.xhtml", br#"<html><body><h1>Hello World</h1><p>Test content.</p></body></html>"# as &[u8]),
    ])
}

fn coverless_epub() -> Vec<u8> {
    archive(&[
        ("mimetype", b"application/epub+zip" as &[u8]),
        ("META-INF/container.xml", br#"<?xml version="1.0"?>
<container version="1.0" xmlns="urn:oasis:names:tc:opendocument:xmlns:container">
  <rootfiles><rootfile full-path="content.opf" media-type="application/oebps-package+xml"/></rootfiles>
</container>"# as &[u8]),
        ("content.opf", br#"<?xml version="1.0"?>
<package xmlns="http://www.idpf.org/2007/opf" version="3.0" unique-identifier="id">
  <metadata xmlns:dc="http://purl.org/dc/elements/1.1/">
    <dc:title>No Cover Here</dc:title>
    <dc:creator>Anonymous</dc:creator>
  </metadata>
  <manifest>
    <item id="ch1" href="ch1.xhtml" media-type="application/xhtml+xml"/>
  </manifest>
  <spine>
    <itemref idref="ch1"/>
  </spine>
</package>"# as &[u8]),
        ("ch1.xhtml", br#"<html><body><h1>Hello</h1><p>No pictures in this one.</p></body></html>"# as &[u8]),
    ])
}

fn compile(data: Vec<u8>) -> CompiledBook {
    match compile_epub(data, "0.1.0") {
        Ok(book) => book,
        Err(_) => panic!("the archive must compile"),
    }
}

fn metadata<'a>(book: &'a CompiledBook, key: &str) -> Option<&'a str> {
    book.metadata.iter().rev().find(|(k, _)| k == key).map(|(_, v)| v.as_str())
}

/// The nodes as they are read back from a book file, where ids count from one.
fn nodes(book: CompiledBook) -> Vec<AstNode> {
    book.rows
        .nodes
        .into_iter()
        .map(|n| AstNode {
            id: n.ordinal as i64 + 1,
            parent_id: n.parent.map(|p| p as i64 + 1),
            ordinal: n.ordinal as i64,
            node_type: n.node_type,
            content: n.content,
            attributes: Some(n.attributes),
        })
        .collect()
}

fn field<'a>(j: &'a Json, name: &str) -> &'a Json {
    j.get(name).unwrap_or(&Json::Null)
}

fn text(j: &Json) -> Option<&str> {
    match j {
        Json::Text(t) => Some(t.as_str()),
        _ => None,
    }
}

fn number(j: &Json) -> u64 {
    match j {
        Json::Unsigned(n) => *n,
        _ => panic!("a number is expected"),
    }
}

fn items(j: &Json) -> &Vec<Json> {
    match j {
        Json::Array(items) => items,
        _ => panic!("an array is expected"),
    }
}

/// The text and spans of the first paragraph of a fragment.
fn paragraph(html: &str) -> weland::dom::TextAndSpans {
    let nodes = parse_fragment_nodes(html);
    let p = (0..nodes.len()).find(|&i| named(&nodes, i, "p")).unwrap();
    extract_text_and_spans(&nodes, p)
}

#[test]
fn test_span_extraction_and_whitespace_normalization() {
    let html = r#"<p>   Hello,   <em>world</em>!  Here is   <strong>bold text</strong> and <a href="https://rust-lang.org">Rust</a>.   </p>"#;
    let res = paragraph(html);

    assert_eq!(res.text, "Hello, world! Here is bold text and Rust.");

    // Check spans
    let em_span = res.spans.iter().find(|s| s.span_type == "italic").unwrap();
    let bold_span = res.spans.iter().find(|s| s.span_type == "bold").unwrap();
    let link_span = res.spans.iter().find(|s| s.span_type == "link").unwrap();

    // Verify exact slice match
    let chars: Vec<char> = res.text.chars().collect();
    let em_text: String = chars[em_span.start..em_span.end].iter().collect();
    let bold_text: String = chars[bold_span.start..bold_span.end].iter().collect();
    let link_text: String = chars[link_span.start..link_span.end].iter().collect();

    assert_eq!(em_text, "world");
    assert_eq!(bold_text, "bold text");
    assert_eq!(link_text, "Rust");
    assert_eq!(link_span.href.as_deref(), Some("https://rust-lang.org"));
}

#[test]
fn test_multibyte_unicode_and_nested_spans() {
    let html = r#"<p>  Café ☕ <strong><em>délicieux</em></strong> et <code>let x = "🦀";</code>!  </p>"#;
    let res = paragraph(html);

    assert_eq!(res.text, "Café ☕ délicieux et let x = \"🦀\";!");

    let chars: Vec<char> = res.text.chars().collect();

    // Check italic span inside bold
    let em_span = res.spans.iter().find(|s| s.span_type == "italic").unwrap();
    let bold_span = res.spans.iter().find(|s| s.span_type == "bold").unwrap();
    let code_span = res.spans.iter().find(|s| s.span_type == "code").unwrap();

    let em_text: String = chars[em_span.start..em_span.end].iter().collect();
    let bold_text: String = chars[bold_span.start..bold_span.end].iter().collect();
    let code_text: String = chars[code_span.start..code_span.end].iter().collect();

    assert_eq!(em_text, "délicieux");
    assert_eq!(bold_text, "délicieux");
    assert_eq!(code_text, "let x = \"🦀\";");
}

#[test]
fn test_end_to_end_epub_compilation() {
    let book = compile(fixture_epub());
    let stats = book.stats(0, 0);

    assert_eq!(stats.title, "The Principles of Weland");
    assert_eq!(stats.author, "Jane Doe");
    assert_eq!(stats.chapter_count, 2);
    assert!(stats.total_nodes > 0);
    assert_eq!(stats.asset_count, 2);

    assert_eq!(metadata(&book, "title"), Some("The Principles of Weland"));
    assert_eq!(metadata(&book, "author"), Some("Jane Doe"));
    assert_eq!(metadata(&book, "language"), Some("en"));
    assert!(metadata(&book, "cover_asset_id").is_some());

    for (idx, row) in book.rows.nodes.iter().enumerate() {
        assert_eq!(row.ordinal, idx);
    }

    let node_types: Vec<&str> = book.rows.nodes.iter().map(|r| r.node_type.as_str()).collect();
    assert!(node_types.contains(&"heading"));
    assert!(node_types.contains(&"paragraph"));
    assert!(node_types.contains(&"thematic_break"));
    assert!(node_types.contains(&"blockquote"));
    assert!(node_types.contains(&"list"));
    assert!(node_types.contains(&"table"));
    assert!(node_types.contains(&"image"));
    assert!(node_types.contains(&"footnote"));

    let footnote_node = book.rows.nodes.iter().find(|r| r.node_type == "footnote").unwrap();
    assert!(footnote_node.parent.is_some(), "Footnote must have a parent");

    assert!(book.rows.nodes.iter().any(|r| r.content.as_deref().is_some_and(|c| c.contains("Weland"))));

    assert_eq!(book.toc.len(), 2, "TOC should contain 2 entries");
    assert_eq!(book.toc[0].title, "1. Introduction to Weland");
    assert_eq!(book.toc[1].title, "2. Deep Dive: Performance");
    assert!(book.toc[0].target.is_some(), "TOC entry must point to a target node");
    assert!(book.toc[1].target.is_some(), "TOC entry must point to a target node");

    let (title, author) = (book.title.clone(), book.author.clone());
    let md_content = export_markdown(Some(&title), Some(&author), &nodes(book));
    assert!(md_content.contains("# The Principles of Weland"));
    assert!(md_content.contains("*by Jane Doe*"));
}

#[test]
fn test_asset_deduplication() {
    let book = compile(dedup_epub());
    let stats = book.stats(0, 0);
    assert_eq!(stats.asset_count, 1, "Duplicate assets must be deduplicated by SHA-256");
    assert_eq!(book.assets.len(), 1);
    assert_eq!(stats.total_asset_bytes, b"UNIQUE_IMAGE_CONTENT_BYTES_123456".len());
    assert_eq!(book.assets[0].id, 1);
    assert_eq!(book.assets[0].mime_type, "image/png");
    assert_eq!(metadata(&book, "cover_asset_id"), Some("1"));
}

#[test]
fn test_epub2_ncx_hierarchical_toc() {
    let book = compile(ncx_epub());
    assert_eq!(book.stats(0, 0).toc_count, 3, "TOC should contain 3 hierarchical items");

    let rows = &book.toc;
    assert_eq!(rows.len(), 3);

    assert_eq!(rows[0].parent, None, "Root TOC item must have no parent");
    assert_eq!(rows[0].title, "Chapter 1: Foundations");
    assert!(rows[0].target.is_some(), "Root item must point to target node");

    assert_eq!(rows[1].parent, Some(0), "Child 1 must have the root as its parent");
    assert_eq!(rows[1].title, "1.1 Architecture");
    assert!(rows[1].target.is_some(), "Child 1 must point to target node");

    assert_eq!(rows[2].parent, Some(0), "Child 2 must have the root as its parent");
    assert_eq!(rows[2].title, "1.2 Storage Model");
    assert!(rows[2].target.is_some(), "Child 2 must point to target node");

    assert_ne!(rows[0].target, rows[1].target);
    assert_ne!(rows[1].target, rows[2].target);
}

#[test]
fn metadata_html_is_sanitized() {
    let book = compile(html_meta_epub());
    let title = metadata(&book, "title").unwrap();
    let author = metadata(&book, "author").unwrap();
    let description = metadata(&book, "description").unwrap();

    assert_eq!(title, "The Weland Guide & Reference");
    assert_eq!(author, "Alice & Bob");
    assert!(!description.contains("<p>"), "Description must not contain raw HTML tags");
    assert!(!description.contains("<b>"), "Description must not contain raw HTML tags");
    assert!(description.contains("This is paragraph 1 of the description."));
    assert!(description.contains("This is paragraph 2 with bold text and <encoded markup>."));
}

#[test]
fn test_extract_all_assets_writes_correct_bytes() {
    let book = compile(fixture_epub());
    assert_eq!(book.assets.len(), 2, "Should hold exactly the cover + diagram assets");
    assert!(book.assets.iter().any(|a| a.data == COVER_PNG_BYTES), "Cover bytes should round-trip exactly");
    assert!(book.assets.iter().any(|a| a.data == DIAGRAM_PNG_BYTES), "Diagram bytes should round-trip exactly");
    for a in &book.assets {
        let name = asset_file_name(a.id, &a.hash, &a.mime_type);
        assert!(name.starts_with("asset_") && name.ends_with(".png"), "Unexpected asset file name: {name}");
    }
}

#[test]
fn test_extract_cover_only_writes_single_cover_file() {
    let book = compile(fixture_epub());
    let id = weland::media::parse_id(metadata(&book, "cover_asset_id").unwrap()).unwrap();
    let covers: Vec<_> = book.assets.iter().filter(|a| a.id == id).collect();
    assert_eq!(covers.len(), 1);
    assert_eq!(cover_file_name(&covers[0].mime_type), "cover.png");
    assert_eq!(covers[0].data, COVER_PNG_BYTES);
}

#[test]
fn test_extract_cover_only_errors_without_cover() {
    let book = compile(coverless_epub());
    assert!(metadata(&book, "cover_asset_id").is_none(), "a book without a cover names none");
}

#[test]
fn test_export_json_structure_and_spans() {
    let exported = export_json(&nodes(compile(fixture_epub())));
    let nodes = items(&exported);
    assert!(!nodes.is_empty());

    let heading = nodes
        .iter()
        .find(|n| text(field(n, "node_type")) == Some("heading") && text(field(n, "content")) == Some("Introduction to Weland"))
        .expect("Heading node should be present");
    assert_eq!(number(field(field(heading, "attributes"), "level")), 1);

    let paragraph = nodes
        .iter()
        .find(|n| text(field(n, "content")).is_some_and(|c| c.contains("digital publishing")))
        .expect("Formatted paragraph node should be present");
    let chars: Vec<char> = text(field(paragraph, "content")).unwrap().chars().collect();
    let spans = items(field(field(paragraph, "attributes"), "spans"));
    let slice = |s: &Json| -> String {
        chars[number(field(s, "start")) as usize..number(field(s, "end")) as usize].iter().collect()
    };

    let italic = spans.iter().find(|s| text(field(s, "type")) == Some("italic")).expect("italic span missing");
    assert_eq!(slice(italic), "future");
    let bold = spans.iter().find(|s| text(field(s, "type")) == Some("bold")).expect("bold span missing");
    assert_eq!(slice(bold), "digital publishing");
    let link = spans.iter().find(|s| text(field(s, "type")) == Some("link")).expect("link span missing");
    assert_eq!(slice(link), "open standards");
    assert_eq!(text(field(link, "href")), Some("https://example.com"));

    let image = nodes.iter().find(|n| text(field(n, "node_type")) == Some("image")).expect("Image node should be present");
    assert!(matches!(field(image, "content"), Json::Null));
    assert_eq!(text(field(field(image, "attributes"), "alt")), Some("Architecture Diagram"));
    assert!(number(field(field(image, "attributes"), "asset_id")) > 0);
}

#[test]
fn test_export_text_is_plain_no_markup() {
    let content = export_text(&nodes(compile(fixture_epub())));

    assert!(content.contains("Introduction to Weland"));
    assert!(content.contains("digital publishing"));
    assert!(content.contains("Knowledge is power in the digital age."));
    assert!(content.contains("Fast random access"));

    assert!(!content.contains("*future*"), "Text export should not apply Markdown italics");
    assert!(!content.contains("**digital publishing**"), "Text export should not apply Markdown bold");
    assert!(!content.contains('#'), "Text export should not contain Markdown heading markers");
    assert!(!content.contains("!["), "Text export should not contain Markdown image syntax");

    assert!(!content.contains("Architecture Diagram"));
}

#[test]
fn test_export_markdown_formatting() {
    let book = compile(fixture_epub());
    let (title, author) = (book.title.clone(), book.author.clone());
    let content = export_markdown(Some(&title), Some(&author), &nodes(book));

    assert!(content.contains("# The Principles of Weland"));
    assert!(content.contains("*by Jane Doe*"));

    assert!(content.contains("# Introduction to Weland"));
    assert!(content.contains("## Deep Dive: Performance"));

    assert!(content.contains("*future*"));
    assert!(content.contains("**digital publishing**"));
    assert!(content.contains("[open standards](https://example.com)"));
    assert!(content.contains("`SELECT * FROM ast_nodes;`"));

    assert!(content.contains("> Knowledge is power in the digital age."));
    assert!(content.contains("- ") && content.contains("Fast random access"));
    assert!(content.contains("| Feature | Status |"));
    assert!(content.contains("| --- | --- |"));
    assert!(content.contains("| AST Storage | Active |"));
    assert!(content.contains("![Architecture Diagram](asset:"));
}

#[test]
fn entries_are_found_whatever_the_case_of_their_names() {
    let container = br#"<container><rootfiles><rootfile full-path="Content.OPF"/></rootfiles></container>"#;
    let opf = br#"<package><metadata><title>Case</title></metadata><manifest>
        <item id="c" href="CH%201.xhtml" media-type="application/xhtml+xml"/></manifest>
        <spine><itemref idref="c"/></spine></package>"#;
    let book = compile(archive(&[
        ("meta-inf/CONTAINER.xml", container as &[u8]),
        ("content.opf", opf as &[u8]),
        ("ch 1.XHTML", b"<html><body><p>Found.</p></body></html>" as &[u8]),
    ]));
    assert_eq!(book.title, "Case");
    assert_eq!(book.author, "Unknown Author");
    assert_eq!(metadata(&book, "language"), Some("en"));
    assert_eq!(book.rows.nodes.len(), 1);
    assert_eq!(book.rows.nodes[0].content.as_deref(), Some("Found."));
    assert!(book.skipped.is_empty());
}

#[test]
fn chapters_that_cannot_be_read_are_skipped_and_named() {
    let container = br#"<container><rootfile full-path="p.opf"/></container>"#;
    let opf = br#"<package><manifest>
        <item id="a" href="a.xhtml" media-type="x"/><item id="b" href="b.xhtml" media-type="x"/>
        <item id="c" href="c.xhtml" media-type="x"/></manifest>
        <spine><itemref idref="a"/><itemref idref="b"/><itemref idref="c"/></spine></package>"#;
    let book = compile(archive(&[
        ("META-INF/container.xml", container as &[u8]),
        ("p.opf", opf as &[u8]),
        ("b.xhtml", b"\xff\xfe" as &[u8]),
        ("c.xhtml", b"<html><body><h1>Last</h1></body></html>" as &[u8]),
    ]));
    assert_eq!(book.chapter_count, 3);
    assert_eq!(book.skipped.len(), 2);
    assert_eq!(book.skipped[0].0, "a.xhtml");
    assert_eq!(book.skipped[0].1, "File not found in EPUB archive: a.xhtml");
    assert_eq!(book.skipped[1].0, "b.xhtml");
    assert!(book.skipped[1].1.starts_with("UTF-8 decode error in b.xhtml: "));
    // Without a table of contents the headings make one.
    assert_eq!(book.toc.len(), 1);
    assert_eq!(book.toc[0].title, "Last");
    assert_eq!(book.toc[0].target, Some(0));
    assert_eq!(book.toc[0].href, None);
}

#[test]
fn files_that_are_no_packages_are_refused() {
    assert!(matches!(compile_epub(b"no archive".to_vec(), "0"), Err(EpubError::Archive(_))));
    let empty = archive(&[("mimetype", b"application/epub+zip" as &[u8])]);
    assert!(matches!(
        compile_epub(empty, "0"),
        Err(EpubError::Container(weland::epub::ReadError::NotFound))
    ));
    let broken = archive(&[("META-INF/container.xml", b"<container>" as &[u8])]);
    assert!(matches!(compile_epub(broken, "0"), Err(EpubError::ContainerXml(_))));
    let rootless = archive(&[("META-INF/container.xml", b"<container/>" as &[u8])]);
    assert!(matches!(compile_epub(rootless, "0"), Err(EpubError::NoRootfile)));
    let container = br#"<container><rootfile full-path="p.opf"/></container>"# as &[u8];
    let missing = archive(&[("META-INF/container.xml", container)]);
    match compile_epub(missing, "0") {
        Err(EpubError::PackageDocument(path, weland::epub::ReadError::NotFound)) => assert_eq!(path, "p.opf"),
        _ => panic!("the package document is missing"),
    }
    let torn = archive(&[("META-INF/container.xml", container), ("p.opf", b"<package>" as &[u8])]);
    assert!(matches!(compile_epub(torn, "0"), Err(EpubError::PackageXml(_))));
}

#[test]
fn metadata_rows_name_the_version_and_the_source() {
    let data = coverless_epub();
    let hash = weland::compiler::sha256_hex(&data);
    let book = compile(data);
    assert_eq!(metadata(&book, "weland_version"), Some("0.1.0"));
    assert_eq!(metadata(&book, "source_epub_sha256"), Some(hash.as_str()));
    assert_eq!(weland::compiler::sha256_hex(&b"abc".to_vec()), "ba7816bf8f01cfea414140de5dae2223b00361a396177a9cb410ff61f20015ad");
}

#[test]
fn outlines_follow_the_tree_of_a_compiled_book() {
    let book = compile(ncx_epub());
    let entries: Vec<weland::schema::TocEntry> = book
        .toc
        .into_iter()
        .map(|t| weland::schema::TocEntry {
            id: t.ordinal as i64 + 1,
            parent_id: t.parent.map(|p| p as i64 + 1),
            ordinal: t.ordinal as i64,
            title: t.title,
            target_node_id: t.target.map(|n| n as i64 + 1),
            href: t.href,
        })
        .collect();
    let rows = outline(&entries);
    assert_eq!(rows.iter().map(|r| (r.place, r.depth)).collect::<Vec<_>>(), vec![(0, 0), (1, 1), (2, 1)]);
}

#[test]
fn entries_whose_bytes_are_damaged_cannot_be_read() {
    let mut data = archive(&[("META-INF/container.xml", b"<container><rootfile full-path='p.opf'/></container>" as &[u8])]);
    let at = data.windows(8).position(|w| w == b"rootfile").unwrap();
    data[at] = b'x';
    match compile_epub(data, "0") {
        Err(EpubError::Container(e)) => {
            assert!(matches!(e, weland::epub::ReadError::Unreadable(_)));
            assert_ne!(e.message("META-INF/container.xml"), "");
        }
        _ => panic!("the container document is damaged"),
    }
}
