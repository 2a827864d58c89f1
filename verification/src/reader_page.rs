//! The reading page: what it is called, where it opens, how it answers to keys, and what its
//! panels and popovers show.

use vstd::prelude::*;

use crate::annotation_list::{
    annotation_snippet, kind_label, label_of, library_annotation_matches_search, library_view,
    matches_filter, LibraryAnnotation, LibraryAnnotationView,
};
use crate::bookshelf::find_last_position;
use crate::dictionary::{display_text, html_to_display_text, DictionaryEntry};
use crate::keybindings::{action_for_key, place, pressed, Action, Bindings};
use crate::node_index::{
    chapter_target, fraction_bits, jump_chapter, mark_from, topmost, NodeIndex,
};
use crate::persistence::{entries_view, entry_at_path, vocab_view, LibraryEntry, VocabEntry};
use crate::schema::{opt_str, opt_text, AnnotationView, SearchHit, UserAnnotation};
use crate::search::{extract_terms, markup_from, snippet_markup, terms_from};
use crate::text::{
    contains, decimal, lower_text, lowercase, push_decimal, push_signed, same_text, signed_decimal,
    texts, trim_text, trimmed,
};
use crate::toolkit::text_of_option;
use crate::vocab::{is_saved, shown_definitions, word_already_in_vocab, SHOWN_DEFINITIONS};

verus! {

// ---------------------------------------------------------------------------
// Opening
// ---------------------------------------------------------------------------

/// The title of a book, as its metadata give it.
pub open spec fn book_title(title: Option<Seq<char>>) -> Seq<char> {
    match title {
        Some(t) => t,
        None => "Untitled"@,
    }
}

/// The title of the window that shows a book.
pub fn window_title(title: Option<&str>, author: Option<&str>) -> (r: String)
    ensures
        r@ == book_title(opt_str(title)) + " \u{2014} "@ + text_of_option(opt_str(author)),
{
    let mut out = match title {
        Some(t) => t.to_owned(),
        None => "Untitled".to_owned(),
    };
    out.append(" \u{2014} ");
    let ghost before = out@;
    if let Some(a) = author {
        out.append(a);
    }
    assert(out@ =~= before + text_of_option(opt_str(author)));
    out
}

/// The offset at which a book opens: where it was left, if that is still part of it.
pub fn opening_offset(
    entries: &Vec<LibraryEntry>,
    path: &str,
    index: &NodeIndex,
) -> (r: Option<usize>)
    ensures
        r == (match entry_at_path(entries_view(entries@), path@, 0) {
            Some(i) => match entries_view(entries@)[i].last_position_node_id {
                Some(id) => mark_from(index@, id, 0),
                None => None,
            },
            None => None,
        }),
{
    match find_last_position(entries, path) {
        Some(id) => index.mark_for_node(id),
        None => None,
    }
}

/// What is saved of a page whose first line starts at an offset: the node there, and how far
/// through the text it stands.
pub fn position_to_save(
    index: &NodeIndex,
    total: usize,
    top_offset: usize,
) -> (r: Option<(i64, i64)>)
    ensures
        match r {
            Some((id, percent)) => topmost(index@, top_offset as int) == Some(id) && (mark_from(
                index@,
                id,
                0,
            ) matches Some(offset) && percent == fraction_bits(offset as nat, total as nat)),
            None => match topmost(index@, top_offset as int) {
                Some(id) => mark_from(index@, id, 0) is None,
                None => true,
            },
        },
{
    match index.topmost_visible_node_id(top_offset) {
        Some(id) => match index.percent_through(total, id) {
            Some(percent) => Some((id, percent)),
            None => None,
        },
        None => None,
    }
}

// ---------------------------------------------------------------------------
// Keys
// ---------------------------------------------------------------------------

/// What a key does to the page.
#[derive(Clone, Copy, Debug, PartialEq, Eq, Structural)]
pub enum KeyEffect {
    /// The key is left to whatever it was typed into.
    Nothing,
    /// The page moves by so many pixels.
    ScrollBy(i32),
    /// The page moves by nine tenths of its height, so many times.
    PageBy(i32),
    /// The page moves to an offset, or stays where it is.
    ShowOffset(Option<usize>),
    ToggleSidebar,
    BackToLibrary,
}

/// Where the page moves from an offset to the next chapter, or to the one before.
pub open spec fn chapter_jump(
    marks: Seq<(i64, usize)>,
    chapters: Seq<usize>,
    top: int,
    forward: bool,
) -> Option<usize> {
    match topmost(marks, top) {
        None => None,
        Some(id) => match mark_from(marks, id, 0) {
            None => None,
            Some(current) => chapter_target(chapters, current as int, forward),
        },
    }
}

/// What an action does to a page whose first line starts at `top`.
pub open spec fn effect_of(
    action: Action,
    marks: Seq<(i64, usize)>,
    chapters: Seq<usize>,
    top: int,
) -> KeyEffect {
    match action {
        Action::ScrollDown => KeyEffect::ScrollBy(80),
        Action::ScrollUp => KeyEffect::ScrollBy((-80) as i32),
        Action::PageDown => KeyEffect::PageBy(1),
        Action::PageUp => KeyEffect::PageBy((-1) as i32),
        Action::NextChapter => KeyEffect::ShowOffset(chapter_jump(marks, chapters, top, true)),
        Action::PrevChapter => KeyEffect::ShowOffset(chapter_jump(marks, chapters, top, false)),
        Action::ToggleSidebar => KeyEffect::ToggleSidebar,
        Action::BackToLibrary => KeyEffect::BackToLibrary,
    }
}

/// What a key does to a page whose first line starts at `top_offset`. A key that is typed into a
/// field of text does nothing to the page, nor does one that no action has.
pub fn key_pressed(
    typing: bool,
    bindings: &Bindings,
    key: u32,
    modifiers: u32,
    index: &NodeIndex,
    chapters: &Vec<usize>,
    top_offset: usize,
) -> (r: KeyEffect)
    requires
        bindings.wf(),
    ensures
        typing ==> r == KeyEffect::Nothing,
        (forall|a: Action| #[trigger] bindings.of(a) != pressed(key, modifiers)) ==> r
            == KeyEffect::Nothing,
        forall|a: Action|
            !typing && #[trigger] bindings.of(a) == pressed(key, modifiers) && (forall|b: Action|
                #[trigger]
                place(b) < place(a) ==> bindings.of(b) != pressed(key, modifiers)) ==> r == effect_of(
                a,
                index@,
                chapters@,
                top_offset as int,
            ),
{
    if typing {
        return KeyEffect::Nothing;
    }
    let found = action_for_key(bindings, key, modifiers);
    proof {
        assert forall|a: Action|
            #[trigger] bindings.of(a) == pressed(key, modifiers) && (forall|b: Action| #[trigger]
                place(b) < place(a) ==> bindings.of(b) != pressed(key, modifiers)) implies found
            == Some(a) by {
            assert(found is Some);
            let other = found->0;
            assert(!(place(other) < place(a)));
            assert(!(place(a) < place(other)));
        }
    }
    match found {
        None => KeyEffect::Nothing,
        Some(action) => match action {
            Action::ScrollDown => KeyEffect::ScrollBy(80),
            Action::ScrollUp => KeyEffect::ScrollBy(-80),
            Action::PageDown => KeyEffect::PageBy(1),
            Action::PageUp => KeyEffect::PageBy(-1),
            Action::NextChapter => KeyEffect::ShowOffset(
                jump_chapter(index, chapters, top_offset, true),
            ),
            Action::PrevChapter => KeyEffect::ShowOffset(
                jump_chapter(index, chapters, top_offset, false),
            ),
            Action::ToggleSidebar => KeyEffect::ToggleSidebar,
            Action::BackToLibrary => KeyEffect::BackToLibrary,
        },
    }
}

// ---------------------------------------------------------------------------
// The search panel
// ---------------------------------------------------------------------------

/// A place in the book that was found.
pub struct SearchRow {
    pub node_id: i64,
    pub node_type: String,
    /// The text around the place, with what was found in bold.
    pub markup: String,
    /// What was found there.
    pub terms: Vec<String>,
}

impl SearchRow {
    /// The row shows the hit.
    pub open spec fn shows(&self, hit: SearchHit) -> bool {
        &&& self.node_id == hit.node_id
        &&& self.node_type@ == hit.node_type@
        &&& self.markup@ == markup_from(hit.snippet@, 0)
        &&& texts(self.terms@) == terms_from(hit.snippet@, 0)
    }
}

/// The places that were found, in the order in which they were found.
pub fn search_rows(hits: &Vec<SearchHit>) -> (r: Vec<SearchRow>)
    ensures
        r@.len() == hits@.len(),
        forall|i: int| 0 <= i < r@.len() ==> (#[trigger] r@[i]).shows(hits@[i]),
{
    let mut out: Vec<SearchRow> = Vec::new();
    let mut k: usize = 0;
    while k < hits.len()
        invariant
            k <= hits@.len(),
            out@.len() == k,
            forall|i: int| 0 <= i < k ==> (#[trigger] out@[i]).shows(hits@[i]),
        decreases hits@.len() - k,
    {
        let hit = &hits[k];
        let row = SearchRow {
            node_id: hit.node_id,
            node_type: hit.node_type.clone(),
            markup: snippet_markup(hit.snippet.as_str()),
            terms: extract_terms(hit.snippet.as_str()),
        };
        out.push(row);
        k += 1;
    }
    out
}

// ---------------------------------------------------------------------------
// Annotations
// ---------------------------------------------------------------------------

/// What a popover shows of an annotation.
pub struct AnnotationPopover {
    /// The comment, or else the annotated words in quotation marks.
    pub text: Option<String>,
    /// The text is the reader's own.
    pub is_comment: bool,
    /// The comment can be edited.
    pub editable: bool,
    /// The recording that can be played.
    pub playable: Option<i64>,
}

/// The text that a popover shows of an annotation.
pub open spec fn popover_text(a: AnnotationView) -> Option<Seq<char>> {
    match a.comment {
        Some(c) => Some(c),
        None => match a.selected_text {
            Some(t) => Some("\u{201c}"@ + t + "\u{201d}"@),
            None => None,
        },
    }
}

/// What a popover shows of an annotation: text notes can be edited, and voice notes that have a
/// recording can be played.
pub fn annotation_popover(a: &UserAnnotation) -> (r: AnnotationPopover)
    ensures
        opt_text(r.text) == popover_text(a@),
        r.is_comment == a@.comment is Some,
        r.editable == (a@.annotation_type == "text_note"@),
        r.playable == (if a@.annotation_type == "voice_note"@ {
            a@.asset_id
        } else {
            None
        }),
{
    let text = match &a.comment {
        Some(c) => Some(c.clone()),
        None => match &a.selected_text {
            Some(t) => {
                let mut quoted = "\u{201c}".to_owned();
                quoted.append(t.as_str());
                quoted.append("\u{201d}");
                Some(quoted)
            },
            None => None,
        },
    };
    AnnotationPopover {
        text,
        is_comment: a.comment.is_some(),
        editable: same_text(a.annotation_type.as_str(), "text_note"),
        playable: if same_text(a.annotation_type.as_str(), "voice_note") {
            a.asset_id
        } else {
            None
        },
    }
}

/// What is shown of an annotation under the pointer: its comment, or else the annotated words, or
/// else its kind.
pub fn annotation_tooltip(a: &UserAnnotation) -> (r: String)
    ensures
        r@ == (match a@.comment {
            Some(c) => c,
            None => match a@.selected_text {
                Some(t) => t,
                None => a@.annotation_type,
            },
        }),
{
    match &a.comment {
        Some(c) => c.clone(),
        None => match &a.selected_text {
            Some(t) => t.clone(),
            None => a.annotation_type.clone(),
        },
    }
}

/// The comment to save of what was typed; nothing where that is only white space.
pub fn comment_to_save(text: &str) -> (r: Option<String>)
    ensures
        opt_text(r) == (if trimmed(text@).len() == 0 {
            None
        } else {
            Some(trimmed(text@))
        }),
{
    let t = trim_text(text);
    if t.as_str().is_empty() {
        None
    } else {
        Some(t)
    }
}

/// A number below a hundred in two digits.
pub open spec fn two_digits(n: nat) -> Seq<char> {
    if n < 10 {
        "0"@ + decimal(n)
    } else {
        decimal(n)
    }
}

/// What is shown while a voice note is recorded: the minutes and seconds so far.
pub fn recording_label(seconds: u32) -> (r: String)
    ensures
        r@ == "Recording\u{2026} "@ + decimal((seconds / 60) as nat) + ":"@ + two_digits(
            (seconds % 60) as nat,
        ),
{
    let mut out = "Recording\u{2026} ".to_owned();
    push_decimal(&mut out, (seconds / 60) as u64);
    out.append(":");
    let ghost before = out@;
    if seconds % 60 < 10 {
        out.append("0");
    }
    push_decimal(&mut out, (seconds % 60) as u64);
    assert(out@ =~= before + two_digits((seconds % 60) as nat));
    out
}

/// The name of the file from which a recording is played.
pub fn voice_file_name(asset_id: i64) -> (r: String)
    ensures
        r@ == "weland-voice-note-"@ + signed_decimal(asset_id as int) + ".ogg"@,
{
    let mut out = "weland-voice-note-".to_owned();
    push_signed(&mut out, asset_id);
    out.append(".ogg");
    out
}

/// An annotation in the list of those of all books.
pub struct AnnotationRow {
    pub book_title: String,
    pub book_path: String,
    pub kind: String,
    pub snippet: String,
}

/// The mathematical view of an [`AnnotationRow`].
#[verifier::ext_equal]
pub struct AnnotationRowView {
    pub book_title: Seq<char>,
    pub book_path: Seq<char>,
    pub kind: Seq<char>,
    pub snippet: Seq<char>,
}

impl View for AnnotationRow {
    type V = AnnotationRowView;

    open spec fn view(&self) -> AnnotationRowView {
        AnnotationRowView {
            book_title: self.book_title@,
            book_path: self.book_path@,
            kind: self.kind@,
            snippet: self.snippet@,
        }
    }
}

/// The rows as mathematical values.
pub open spec fn rows_view(rows: Seq<AnnotationRow>) -> Seq<AnnotationRowView> {
    rows.map_values(|r: AnnotationRow| r@)
}

/// What was typed occurs in the title of the book or in the annotation, whatever its case.
pub open spec fn row_matches(e: LibraryAnnotationView, text: Seq<char>) -> bool {
    contains(lowercase(e.book_title), lowercase(text)) || matches_filter(e.annotation, lowercase(text))
}

/// How an annotation of the library is listed.
pub open spec fn row_of(e: LibraryAnnotationView) -> AnnotationRowView {
    AnnotationRowView {
        book_title: e.book_title,
        book_path: e.book_path,
        kind: label_of(e.annotation.annotation_type),
        snippet: match e.annotation.comment {
            Some(c) => c,
            None => text_of_option(e.annotation.selected_text),
        },
    }
}

/// The rows for those of the first `n` annotations that match what was typed.
pub open spec fn rows_among(entries: Seq<LibraryAnnotationView>, text: Seq<char>, n: int) -> Seq<
    AnnotationRowView,
>
    decreases n,
{
    if n <= 0 {
        Seq::empty()
    } else if row_matches(entries[n - 1], text) {
        rows_among(entries, text, n - 1).push(row_of(entries[n - 1]))
    } else {
        rows_among(entries, text, n - 1)
    }
}

/// The annotations of all books that match what was typed, as they are listed.
pub fn library_annotation_rows(
    entries: &Vec<LibraryAnnotation>,
    text: &str,
) -> (r: Vec<AnnotationRow>)
    ensures
        rows_view(r@) == rows_among(library_view(entries@), text@, entries@.len() as int),
{
    let wanted = lower_text(text);
    let mut out: Vec<AnnotationRow> = Vec::new();
    let mut k: usize = 0;
    assert(rows_view(out@) =~= rows_among(library_view(entries@), text@, 0));
    while k < entries.len()
        invariant
            k <= entries@.len(),
            wanted@ == lowercase(text@),
            rows_view(out@) == rows_among(library_view(entries@), text@, k as int),
        decreases entries@.len() - k,
    {
        let e = &entries[k];
        assert(library_view(entries@)[k as int] == e@);
        let ghost before = out@;
        if library_annotation_matches_search(e, wanted.as_str()) {
            let row = AnnotationRow {
                book_title: e.book_title.clone(),
                book_path: e.book_path.clone(),
                kind: kind_label(e.annotation.annotation_type.as_str()).to_owned(),
                snippet: annotation_snippet(&e.annotation),
            };
            out.push(row);
            assert(rows_view(out@) =~= rows_view(before).push(row@));
            assert(row@ =~= row_of(e@));
        }
        k += 1;
    }
    out
}

/// What is said in place of a list of annotations that is empty: the library may have none at all.
pub fn no_library_annotations_message(in_library: usize) -> (r: &'static str)
    ensures
        r@ == (if in_library == 0 {
            "No annotations in your library yet."@
        } else {
            "No annotations match your search."@
        }),
{
    if in_library == 0 {
        "No annotations in your library yet."
    } else {
        "No annotations match your search."
    }
}

// ---------------------------------------------------------------------------
// Looking words up
// ---------------------------------------------------------------------------

/// What a popover shows of a word that was looked up.
pub struct WordLookup {
    /// The first definitions, none where the word was not found.
    pub definitions: Vec<String>,
    /// The definition to save with the word.
    pub to_save: Option<String>,
    /// The word is in the vocabulary already.
    pub saved: bool,
}

/// What a popover shows of a word that was looked up.
pub fn word_lookup(
    word: &str,
    found: &Vec<DictionaryEntry>,
    vocab: &Vec<VocabEntry>,
) -> (r: WordLookup)
    ensures
        r.definitions@.len() == if found@.len() < SHOWN_DEFINITIONS {
            found@.len() as int
        } else {
            SHOWN_DEFINITIONS as int
        },
        forall|i: int|
            0 <= i < r.definitions@.len() ==> (#[trigger] r.definitions@[i])@ == display_text(
                found@[i].definition@,
            ),
        opt_text(r.to_save) == (if found@.len() > 0 {
            Some(display_text(found@[0].definition@))
        } else {
            None
        }),
        r.saved == is_saved(vocab_view(vocab@), word@),
{
    let definitions = shown_definitions(found);
    let to_save = if found.len() > 0 {
        Some(html_to_display_text(found[0].definition.as_str()))
    } else {
        None
    };
    let saved = word_already_in_vocab(vocab, word);
    WordLookup { definitions, to_save, saved }
}

} // verus!
