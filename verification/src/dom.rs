//! Chapters: text and inline spans of HTML trees, and the block elements a chapter is made of.

use vstd::prelude::*;

use crate::html::{
    css_first, document_nodes, fragment_nodes, parse_fragment_nodes, select_first, HtmlDocument,
};
use crate::schema::{opt_text, spans_view, Span, SpanView};
use crate::text::{
    ascii_lowercase, char_pos, chars_of, contains, contains_char, contains_text, find_char,
    find_from, find_pos, is_space, is_white, join, join_texts, lemma_char_pos, lemma_find_from,
    lemma_trim_end, lemma_words_push, lower_text, lowercase, same_text, same_text_ignoring_case,
    split_words, text_of, texts, trim_end, trim_text, trimmed, trimming_is_idempotent, words,
};
use crate::tree::{
    attr, attr_in, attr_in_namespace, attr_of, end_of, end_within, is_named, named, node_end,
    nodes_view, parent, parent_of, subtree_end, text_between, text_in, texts_between, texts_in,
    AttrView, NodeView, TreeAttr, TreeNode, TreeValue, ValueView,
};

verus! {

/// Normalized text of a subtree with its inline formatting spans.
pub struct TextAndSpans {
    pub text: String,
    pub spans: Vec<Span>,
}

/// The mathematical view of a [`TextAndSpans`].
#[verifier::ext_equal]
pub struct TextView {
    pub text: Seq<char>,
    pub spans: Seq<SpanView>,
}

impl View for TextAndSpans {
    type V = TextView;

    open spec fn view(&self) -> TextView {
        TextView { text: self.text@, spans: spans_view(self.spans@) }
    }
}

// ---------------------------------------------------------------------------
// Collapsing white space
// ---------------------------------------------------------------------------

/// Collects text, with each run of white space collapsed to one space.
pub struct TextCollector {
    pub chars: Vec<char>,
    pub pending_space: bool,
}

/// The mathematical view of a [`TextCollector`].
#[verifier::ext_equal]
pub struct CollectorView {
    pub chars: Seq<char>,
    pub pending: bool,
}

impl View for TextCollector {
    type V = CollectorView;

    open spec fn view(&self) -> CollectorView {
        CollectorView { chars: self.chars@, pending: self.pending_space }
    }
}

/// White space is ' ' or '\n', and no two such characters stand side by side.
pub open spec fn collapsed(s: Seq<char>) -> bool {
    &&& forall|i: int|
        0 <= i < s.len() && is_space(#[trigger] s[i]) ==> s[i] == ' ' || s[i] == '\n'
    &&& forall|i: int, j: int|
        0 <= i && j == i + 1 && j < s.len() && is_space(#[trigger] s[i]) ==> !is_space(
            #[trigger] s[j],
        )
}

impl CollectorView {
    /// Nothing collected.
    pub open spec fn empty() -> CollectorView {
        CollectorView { chars: Seq::empty(), pending: false }
    }

    /// After a space that was still to come has been written.
    pub open spec fn flush(self) -> CollectorView {
        if self.pending && self.chars.len() > 0 {
            CollectorView { chars: self.chars.push(' '), pending: false }
        } else {
            self
        }
    }

    /// The text ends in a character that is not white space.
    pub open spec fn ends_in_word(self) -> bool {
        self.chars.len() > 0 && !is_space(self.chars.last())
    }

    /// After one more character. White space is only remembered, and only behind a word; it is
    /// written, as one space, in front of the next character.
    pub open spec fn feed_char(self, c: char) -> CollectorView {
        if is_space(c) {
            CollectorView { chars: self.chars, pending: self.pending || self.ends_in_word() }
        } else {
            let before = if self.pending {
                self.chars.push(' ')
            } else {
                self.chars
            };
            CollectorView { chars: before.push(c), pending: false }
        }
    }

    /// After the characters of a text.
    pub open spec fn feed(self, text: Seq<char>) -> CollectorView
        decreases text.len(),
    {
        if text.len() == 0 {
            self
        } else {
            self.feed(text.drop_last()).feed_char(text.last())
        }
    }

    /// After a line break, which takes the place of a space before it, written or still to come;
    /// it is not written at the front nor behind another break.
    pub open spec fn line_break(self) -> CollectorView {
        if self.chars.len() == 0 || self.chars.last() == '\n' {
            CollectorView { chars: self.chars, pending: false }
        } else if self.chars.last() == ' ' {
            CollectorView { chars: self.chars.drop_last().push('\n'), pending: false }
        } else {
            CollectorView { chars: self.chars.push('\n'), pending: false }
        }
    }

    /// What every collector keeps: no white space at the front, and none inside but single
    /// spaces and line feeds; a space is to come only behind a word.
    pub open spec fn tidy(self) -> bool {
        &&& self.pending ==> self.ends_in_word()
        &&& self.chars.len() > 0 ==> !is_space(self.chars[0])
        &&& collapsed(self.chars)
    }
}

impl TextCollector {
    pub fn new() -> (r: Self)
        ensures
            r@ == CollectorView::empty(),
    {
        TextCollector { chars: Vec::new(), pending_space: false }
    }

    /// Current character index in the normalized string.
    pub fn char_len(&self) -> (r: usize)
        ensures
            r == self@.chars.len(),
    {
        self.chars.len()
    }

    /// Writes a space that is still to come, so that it stands before an inline element opens.
    pub fn flush_pending_space(&mut self)
        ensures
            final(self)@ == old(self)@.flush(),
    {
        if self.pending_space && self.chars.len() > 0 {
            self.chars.push(' ');
            self.pending_space = false;
        }
    }

    /// Feeds a piece of raw text, collapsing white space.
    pub fn feed_text(&mut self, text: &str)
        ensures
            final(self)@ == old(self)@.feed(text@),
    {
        let v = chars_of(text);
        let ghost start = self@;
        let mut i: usize = 0;
        assert(text@.take(0).len() == 0);
        while i < v.len()
            invariant
                v@ == text@,
                i <= v@.len(),
                self@ == start.feed(text@.take(i as int)),
            decreases v@.len() - i,
        {
            let ghost before = self@;
            let c: char = v[i];
            if is_white(c) {
                let n: usize = self.chars.len();
                if n > 0 && !is_white(self.chars[n - 1]) {
                    self.pending_space = true;
                }
            } else {
                if self.pending_space {
                    self.chars.push(' ');
                    self.pending_space = false;
                }
                self.chars.push(c);
            }
            assert(self@ =~= before.feed_char(c));
            i += 1;
            assert(text@.take(i as int).drop_last() == text@.take(i - 1));
        }
        assert(text@.take(i as int) == text@);
    }

    /// Inserts an explicit line break.
    pub fn feed_line_break(&mut self)
        ensures
            final(self)@ == old(self)@.line_break(),
    {
        self.pending_space = false;
        let n: usize = self.chars.len();
        if n == 0 || self.chars[n - 1] == '\n' {
            return;
        }
        if self.chars[n - 1] == ' ' {
            self.chars.pop();
        }
        self.chars.push('\n');
    }

    /// The collected text without white space at its end, and its length.
    pub fn finish(self) -> (r: (String, usize))
        ensures
            r.0@ == trim_end(self@.chars),
            r.1 == r.0@.len(),
    {
        let mut n: usize = self.chars.len();
        assert(self.chars@.take(n as int) == self.chars@);
        while n > 0 && is_white(self.chars[n - 1])
            invariant
                n <= self.chars@.len(),
                trim_end(self.chars@) == trim_end(self.chars@.take(n as int)),
            decreases n,
        {
            assert(self.chars@.take(n as int).drop_last() == self.chars@.take(n - 1));
            n -= 1;
        }
        (text_of(&self.chars, 0, n), n)
    }
}

// ---------------------------------------------------------------------------
// Text and spans of a subtree
// ---------------------------------------------------------------------------

/// The lowercase name of an element; empty for any other node.
pub open spec fn tag_of(n: NodeView) -> Seq<char> {
    match n.value {
        ValueView::Element { name, .. } => lowercase(name),
        _ => Seq::empty(),
    }
}

/// The element's class says that it is a reference to a note.
pub open spec fn has_note_class(n: NodeView) -> bool {
    attr(n, "class"@) matches Some(c) && (contains(c, "footnote"@) || contains(c, "noteref"@))
}

/// The element has an `href` with a fragment.
pub open spec fn has_fragment_href(n: NodeView) -> bool {
    attr(n, "href"@) matches Some(h) && h.contains('#')
}

/// The element's name is this one, up to the case of ASCII letters.
pub open spec fn is_named_ignoring_case(n: NodeView, tag: Seq<char>) -> bool {
    n.value matches ValueView::Element { name, .. } && ascii_lowercase(name) == ascii_lowercase(tag)
}

/// Among the siblings from `lo` up to `hi` stands a link with a fragment.
pub open spec fn has_fragment_link(d: Seq<NodeView>, lo: int, hi: int) -> bool
    decreases hi - lo,
{
    lo < hi && ((is_named_ignoring_case(d[lo], "a"@) && has_fragment_href(d[lo]))
        || has_fragment_link(d, node_end(d, lo, hi), hi))
}

/// A decimal digit or one of the customary note signs.
pub open spec fn is_marker_char(c: char) -> bool {
    is_digit(c) || c == '*' || c == '\u{2020}' || c == '\u{2021}' || c == '\u{a7}' || c == '\u{b6}'
}

/// An ASCII digit.
pub open spec fn is_digit(c: char) -> bool {
    48 <= c as u32 <= 57
}

/// One to three digits or note signs, white space aside.
pub open spec fn is_marker_text(s: Seq<char>) -> bool {
    let t = trimmed(s);
    &&& 0 < t.len() <= 3
    &&& forall|i: int| 0 <= i < t.len() ==> is_marker_char(#[trigger] t[i])
}

/// The element whose subtree is `i..e` is a note reference, which is no part of the text: a `sup`
/// of a note class or around a link with a fragment, or such a link of a note class or made of
/// nothing but a note sign.
pub open spec fn is_note_reference(d: Seq<NodeView>, i: int, e: int) -> bool {
    ||| tag_of(d[i]) == "sup"@ && (has_note_class(d[i]) || has_fragment_link(d, i + 1, e))
    ||| tag_of(d[i]) == "a"@ && has_fragment_href(d[i]) && (has_note_class(d[i]) || is_marker_text(
        text_in(d, i, e),
    ))
}

/// The kind of span that an element stands for.
pub open spec fn span_kind(tag: Seq<char>) -> Option<Seq<char>> {
    if tag == "em"@ || tag == "i"@ {
        Some("italic"@)
    } else if tag == "strong"@ || tag == "b"@ {
        Some("bold"@)
    } else if tag == "code"@ || tag == "tt"@ || tag == "kbd"@ || tag == "samp"@ {
        Some("code"@)
    } else if tag == "s"@ || tag == "strike"@ || tag == "del"@ {
        Some("strikethrough"@)
    } else if tag == "u"@ || tag == "ins"@ {
        Some("underline"@)
    } else if tag == "mark"@ {
        Some("highlight"@)
    } else if tag == "small"@ {
        Some("small"@)
    } else if tag == "sub"@ {
        Some("subscript"@)
    } else if tag == "sup"@ {
        Some("superscript"@)
    } else {
        None
    }
}

/// The span that an element puts on the characters `start..end`.
pub open spec fn span_for(n: NodeView, start: int, end: int) -> Option<SpanView> {
    let tag = tag_of(n);
    if start >= end {
        None
    } else if tag == "a"@ {
        match attr(n, "href"@) {
            Some(h) => Some(SpanView { start, end, span_type: "link"@, href: Some(h) }),
            None => None,
        }
    } else {
        match span_kind(tag) {
            Some(kind) => Some(SpanView { start, end, span_type: kind, href: None }),
            None => None,
        }
    }
}

/// How far the extraction of a subtree has come.
#[verifier::ext_equal]
pub struct WalkView {
    pub col: CollectorView,
    pub spans: Seq<SpanView>,
}

/// The extraction after the siblings from `lo` up to `hi`.
pub open spec fn walked(
    d: Seq<NodeView>,
    lo: int,
    hi: int,
    stop_at_lists: bool,
    w: WalkView,
) -> WalkView
    decreases hi - lo,
{
    if lo >= hi {
        w
    } else {
        let e = node_end(d, lo, hi);
        let tag = tag_of(d[lo]);
        let after = match d[lo].value {
            ValueView::Text(t) => WalkView { col: w.col.feed(t), spans: w.spans },
            ValueView::Element { .. } => {
                if stop_at_lists && (tag == "ul"@ || tag == "ol"@) {
                    w
                } else if tag == "br"@ {
                    WalkView { col: w.col.line_break(), spans: w.spans }
                } else if is_note_reference(d, lo, e) {
                    w
                } else {
                    let start = WalkView { col: w.col.flush(), spans: w.spans };
                    let inner = walked(d, lo + 1, e, stop_at_lists, start);
                    match span_for(d[lo], start.col.chars.len() as int, inner.col.chars.len() as int) {
                        Some(span) => WalkView { col: inner.col, spans: inner.spans.push(span) },
                        None => inner,
                    }
                }
            },
            ValueView::Other => w,
        };
        walked(d, e, hi, stop_at_lists, after)
    }
}

/// The spans cut off at `len`, those without a character left out.
pub open spec fn clipped(spans: Seq<SpanView>, len: int) -> Seq<SpanView>
    decreases spans.len(),
{
    if spans.len() == 0 {
        Seq::empty()
    } else {
        let s = spans.last();
        let end = if s.end > len {
            len
        } else {
            s.end
        };
        let rest = clipped(spans.drop_last(), len);
        if s.start < len && s.start < end {
            rest.push(SpanView { end, ..s })
        } else {
            rest
        }
    }
}

/// The text and spans of the subtree of node `i`.
pub open spec fn extracted(d: Seq<NodeView>, i: int, stop_at_lists: bool) -> TextView {
    let w = walked(
        d,
        i + 1,
        subtree_end(d, i),
        stop_at_lists,
        WalkView { col: CollectorView::empty(), spans: Seq::empty() },
    );
    let text = trim_end(w.col.chars);
    TextView { text, spans: clipped(w.spans, text.len() as int) }
}

fn is_digit_char(c: char) -> (r: bool)
    ensures
        r == is_digit(c),
{
    let n: u32 = c as u32;
    48 <= n && n <= 57
}

fn marker_text(s: &str) -> (r: bool)
    ensures
        r == is_marker_text(s@),
{
    let t = trim_text(s);
    let v = chars_of(t.as_str());
    if v.len() == 0 || v.len() > 3 {
        return false;
    }
    let mut i: usize = 0;
    while i < v.len()
        invariant
            v@ == trimmed(s@),
            i <= v@.len() <= 3,
            0 < v@.len(),
            forall|j: int| 0 <= j < i ==> is_marker_char(#[trigger] v@[j]),
        decreases v@.len() - i,
    {
        let c: char = v[i];
        if !(is_digit_char(c) || c == '*' || c == '\u{2020}' || c == '\u{2021}' || c == '\u{a7}'
            || c == '\u{b6}') {
            assert(!is_marker_char(trimmed(s@)[i as int]));
            return false;
        }
        i += 1;
    }
    true
}

fn note_class(nodes: &Vec<TreeNode>, i: usize) -> (r: bool)
    requires
        i < nodes@.len(),
    ensures
        r == has_note_class(nodes_view(nodes@)[i as int]),
{
    match attr_of(nodes, i, "class") {
        Some(c) => contains_text(c, "footnote") || contains_text(c, "noteref"),
        None => false,
    }
}

fn fragment_href(nodes: &Vec<TreeNode>, i: usize) -> (r: bool)
    requires
        i < nodes@.len(),
    ensures
        r == has_fragment_href(nodes_view(nodes@)[i as int]),
{
    match attr_of(nodes, i, "href") {
        Some(h) => contains_char(h, '#'),
        None => false,
    }
}

pub fn named_ignoring_case(nodes: &Vec<TreeNode>, i: usize, tag: &str) -> (r: bool)
    requires
        i < nodes@.len(),
    ensures
        r == is_named_ignoring_case(nodes_view(nodes@)[i as int], tag@),
{
    match &nodes[i].value {
        TreeValue::Element { name, .. } => same_text_ignoring_case(name.as_str(), tag),
        _ => false,
    }
}

fn fragment_link(nodes: &Vec<TreeNode>, lo: usize, hi: usize) -> (r: bool)
    requires
        lo <= hi <= nodes@.len(),
    ensures
        r == has_fragment_link(nodes_view(nodes@), lo as int, hi as int),
{
    let mut k: usize = lo;
    while k < hi
        invariant
            lo <= k <= hi <= nodes@.len(),
            has_fragment_link(nodes_view(nodes@), lo as int, hi as int) == has_fragment_link(
                nodes_view(nodes@),
                k as int,
                hi as int,
            ),
        decreases hi - k,
    {
        if named_ignoring_case(nodes, k, "a") && fragment_href(nodes, k) {
            return true;
        }
        k = end_within(nodes, k, hi);
    }
    false
}

fn note_reference(nodes: &Vec<TreeNode>, i: usize, e: usize, tag: &str) -> (r: bool)
    requires
        i < e <= nodes@.len(),
        tag@ == tag_of(nodes_view(nodes@)[i as int]),
    ensures
        r == is_note_reference(nodes_view(nodes@), i as int, e as int),
{
    if same_text(tag, "sup") && (note_class(nodes, i) || fragment_link(nodes, i + 1, e)) {
        return true;
    }
    same_text(tag, "a") && fragment_href(nodes, i) && (note_class(nodes, i) || marker_text(
        text_between(nodes, i, e).as_str(),
    ))
}

fn span_kind_of(tag: &str) -> (r: Option<String>)
    ensures
        match r {
            Some(kind) => span_kind(tag@) == Some(kind@),
            None => span_kind(tag@) is None,
        },
{
    if same_text(tag, "em") || same_text(tag, "i") {
        Some("italic".to_owned())
    } else if same_text(tag, "strong") || same_text(tag, "b") {
        Some("bold".to_owned())
    } else if same_text(tag, "code") || same_text(tag, "tt") || same_text(tag, "kbd") || same_text(
        tag,
        "samp",
    ) {
        Some("code".to_owned())
    } else if same_text(tag, "s") || same_text(tag, "strike") || same_text(tag, "del") {
        Some("strikethrough".to_owned())
    } else if same_text(tag, "u") || same_text(tag, "ins") {
        Some("underline".to_owned())
    } else if same_text(tag, "mark") {
        Some("highlight".to_owned())
    } else if same_text(tag, "small") {
        Some("small".to_owned())
    } else if same_text(tag, "sub") {
        Some("subscript".to_owned())
    } else if same_text(tag, "sup") {
        Some("superscript".to_owned())
    } else {
        None
    }
}

fn make_span(
    nodes: &Vec<TreeNode>,
    i: usize,
    tag: &str,
    start: usize,
    end: usize,
) -> (r: Option<Span>)
    requires
        i < nodes@.len(),
        tag@ == tag_of(nodes_view(nodes@)[i as int]),
    ensures
        match r {
            Some(s) => span_for(nodes_view(nodes@)[i as int], start as int, end as int) == Some(s@),
            None => span_for(nodes_view(nodes@)[i as int], start as int, end as int) is None,
        },
{
    if start >= end {
        None
    } else if same_text(tag, "a") {
        match attr_of(nodes, i, "href") {
            Some(h) => Some(
                Span { start, end, span_type: "link".to_owned(), href: Some(h.to_owned()) },
            ),
            None => None,
        }
    } else {
        match span_kind_of(tag) {
            Some(kind) => Some(Span { start, end, span_type: kind, href: None }),
            None => None,
        }
    }
}

fn walk(
    nodes: &Vec<TreeNode>,
    lo: usize,
    hi: usize,
    stop_at_lists: bool,
    collector: &mut TextCollector,
    raw_spans: &mut Vec<Span>,
)
    requires
        lo <= hi <= nodes@.len(),
    ensures
        (WalkView { col: final(collector)@, spans: spans_view(final(raw_spans)@) }) == walked(
            nodes_view(nodes@),
            lo as int,
            hi as int,
            stop_at_lists,
            WalkView { col: old(collector)@, spans: spans_view(old(raw_spans)@) },
        ),
    decreases hi - lo,
{
    let ghost d = nodes_view(nodes@);
    let ghost start = WalkView { col: collector@, spans: spans_view(raw_spans@) };
    let mut k: usize = lo;
    while k < hi
        invariant
            lo <= k <= hi <= nodes@.len(),
            d == nodes_view(nodes@),
            walked(d, lo as int, hi as int, stop_at_lists, start) == walked(
                d,
                k as int,
                hi as int,
                stop_at_lists,
                WalkView { col: collector@, spans: spans_view(raw_spans@) },
            ),
        decreases hi - k,
    {
        let e = end_within(nodes, k, hi);
        match &nodes[k].value {
            TreeValue::Text(t) => {
                collector.feed_text(t.as_str());
            },
            TreeValue::Element { name, .. } => {
                let tag = lower_text(name.as_str());
                assert(tag@ == tag_of(d[k as int]));
                if stop_at_lists && (same_text(tag.as_str(), "ul") || same_text(tag.as_str(), "ol")) {
                } else if same_text(tag.as_str(), "br") {
                    collector.feed_line_break();
                } else if note_reference(nodes, k, e, tag.as_str()) {
                } else {
                    collector.flush_pending_space();
                    let first: usize = collector.char_len();
                    walk(nodes, k + 1, e, stop_at_lists, collector, raw_spans);
                    let last: usize = collector.char_len();
                    let ghost inner = raw_spans@;
                    if let Some(span) = make_span(nodes, k, tag.as_str(), first, last) {
                        raw_spans.push(span);
                        assert(spans_view(raw_spans@) == spans_view(inner).push(span@));
                    }
                }
            },
            TreeValue::Other => {},
        }
        k = e;
    }
}

fn clip_spans(raw: Vec<Span>, len: usize) -> (r: Vec<Span>)
    ensures
        spans_view(r@) == clipped(spans_view(raw@), len as int),
{
    let mut out: Vec<Span> = Vec::new();
    let mut i: usize = 0;
    let ghost all = spans_view(raw@);
    assert(all.take(0).len() == 0);
    while i < raw.len()
        invariant
            i <= raw@.len(),
            all == spans_view(raw@),
            spans_view(out@) == clipped(all.take(i as int), len as int),
        decreases raw@.len() - i,
    {
        let span = &raw[i];
        let end: usize = if span.end > len { len } else { span.end };
        let ghost before = out@;
        if span.start < len && span.start < end {
            let kept = Span {
                start: span.start,
                end,
                span_type: span.span_type.clone(),
                href: span.href.clone(),
            };
            out.push(kept);
            assert(spans_view(out@) == spans_view(before).push(kept@));
        }
        i += 1;
        assert(all.take(i as int).drop_last() == all.take(i - 1));
        assert(all.take(i as int).last() == span@);
    }
    assert(all.take(i as int) == all);
    out
}

fn extract_text_and_spans_opts(nodes: &Vec<TreeNode>, element: usize, stop_at_lists: bool) -> (r:
    TextAndSpans)
    requires
        element < nodes@.len(),
    ensures
        r@ == extracted(nodes_view(nodes@), element as int, stop_at_lists),
{
    let mut collector = TextCollector::new();
    let mut raw_spans: Vec<Span> = Vec::new();
    let e = end_of(nodes, element);
    assert(spans_view(raw_spans@) == Seq::<SpanView>::empty());
    walk(nodes, element + 1, e, stop_at_lists, &mut collector, &mut raw_spans);
    let (text, final_len) = collector.finish();
    let spans = clip_spans(raw_spans, final_len);
    TextAndSpans { text, spans }
}

/// Plain text of the subtree of a node, with white space collapsed, and its inline spans.
pub fn extract_text_and_spans(nodes: &Vec<TreeNode>, element: usize) -> (r: TextAndSpans)
    requires
        element < nodes@.len(),
    ensures
        r@ == extracted(nodes_view(nodes@), element as int, false),
{
    extract_text_and_spans_opts(nodes, element, false)
}

/// Same as [`extract_text_and_spans`], but without what nested `<ul>`/`<ol>` hold.
fn extract_list_item_text(nodes: &Vec<TreeNode>, element: usize) -> (r: TextAndSpans)
    requires
        element < nodes@.len(),
    ensures
        r@ == extracted(nodes_view(nodes@), element as int, true),
{
    extract_text_and_spans_opts(nodes, element, true)
}

// ---------------------------------------------------------------------------
// Verse
// ---------------------------------------------------------------------------

/// The longest text that can be a line of verse.
pub const SHORT_LEN: usize = 60;

/// The fewest lines that make a verse.
pub const MIN_RUN: usize = 3;

/// What the detection of verse looks at in one `<p>`.
pub struct VerseLine {
    pub parent: Option<usize>,
    pub is_short: bool,
    pub is_empty: bool,
    pub is_disqualifying: bool,
    pub starts_with_number: bool,
}

/// How many characters at the front of `s` are digits.
pub open spec fn leading_digits(s: Seq<char>) -> int
    decreases s.len(),
{
    if s.len() > 0 && is_digit(s[0]) {
        1 + leading_digits(s.drop_first())
    } else {
        0
    }
}

/// How many characters at the back of `s` are digits.
pub open spec fn trailing_digits(s: Seq<char>) -> int
    decreases s.len(),
{
    if s.len() > 0 && is_digit(s.last()) {
        1 + trailing_digits(s.drop_last())
    } else {
        0
    }
}

/// A straight, curly or angled quotation mark.
pub open spec fn is_quote(c: char) -> bool {
    c == '"' || c == '\'' || c == '\u{2018}' || c == '\u{2019}' || c == '\u{201c}' || c
        == '\u{201d}' || c == '\u{ab}' || c == '\u{bb}'
}

/// The text opens with a quotation mark.
pub open spec fn opens_with_quote(s: Seq<char>) -> bool {
    s.len() > 0 && is_quote(s[0])
}

/// One link covers the whole of a text of this length.
pub open spec fn has_whole_link(len: int, spans: Seq<SpanView>) -> bool {
    len > 0 && exists|i: int|
        0 <= i < spans.len() && (#[trigger] spans[i]).span_type == "link"@ && spans[i].start == 0
            && spans[i].end >= len
}

/// The entry belongs to a run of short lines: it is short, or has no text at all.
pub open spec fn in_run(l: VerseLine) -> bool {
    l.is_short || l.is_empty
}

/// Where the run that line `k` stands in begins.
pub open spec fn run_start(ls: Seq<VerseLine>, k: int) -> int
    decreases k,
{
    if 0 < k && in_run(ls[k - 1]) {
        run_start(ls, k - 1)
    } else {
        k
    }
}

/// Where the run that line `k` stands in ends.
pub open spec fn run_end(ls: Seq<VerseLine>, k: int) -> int
    decreases ls.len() - k,
{
    if k < ls.len() && in_run(ls[k]) {
        run_end(ls, k + 1)
    } else {
        k
    }
}

/// The number of short lines among `ls[lo..hi]`.
pub open spec fn short_lines(ls: Seq<VerseLine>, lo: int, hi: int) -> int
    decreases hi - lo,
{
    if lo >= hi {
        0
    } else {
        short_lines(ls, lo, hi - 1) + if ls[hi - 1].is_short {
            1int
        } else {
            0
        }
    }
}

/// The number of short lines among `ls[lo..hi]` that speak against verse.
pub open spec fn disqualifying_lines(ls: Seq<VerseLine>, lo: int, hi: int) -> int
    decreases hi - lo,
{
    if lo >= hi {
        0
    } else {
        disqualifying_lines(ls, lo, hi - 1) + if ls[hi - 1].is_short && ls[hi - 1].is_disqualifying {
            1int
        } else {
            0
        }
    }
}

/// The lines `ls[lo..hi]` are verse: enough of them are short, and less than half of those speak
/// against it.
pub open spec fn is_verse_run(ls: Seq<VerseLine>, lo: int, hi: int) -> bool {
    &&& short_lines(ls, lo, hi) >= MIN_RUN
    &&& 2 * disqualifying_lines(ls, lo, hi) < short_lines(ls, lo, hi)
}

/// Line `k` is a line of verse.
pub open spec fn is_verse_line(ls: Seq<VerseLine>, k: int) -> bool {
    ls[k].is_short && is_verse_run(ls, run_start(ls, k), run_end(ls, k))
}

/// Line `k` is the last line of its verse.
pub open spec fn is_verse_end(ls: Seq<VerseLine>, k: int) -> bool {
    is_verse_line(ls, k) && forall|m: int| k < m < run_end(ls, k) ==> !(#[trigger] ls[m]).is_short
}

/// The parent of the last short line of `ls[lo..k]`, and how many short lines in a row, up to
/// that one, have it.
pub open spec fn stanza_group(ls: Seq<VerseLine>, lo: int, k: int) -> (Option<usize>, int)
    decreases k - lo,
{
    if lo >= k {
        (None, 0)
    } else {
        let before = stanza_group(ls, lo, k - 1);
        let l = ls[k - 1];
        if !l.is_short {
            before
        } else if l.parent != before.0 {
            (l.parent, 1)
        } else {
            (l.parent, before.1 + 1)
        }
    }
}

/// Line `k` starts a stanza: it opens with a number, or has another parent than the line before,
/// unless that line stood alone.
pub open spec fn is_stanza_start(ls: Seq<VerseLine>, k: int) -> bool {
    let lo = run_start(ls, k);
    let group = stanza_group(ls, lo, k);
    &&& is_verse_line(ls, k)
    &&& ls[k].starts_with_number || (ls[k].parent != group.0 && (short_lines(ls, lo, k) == 0
        || group.1 >= 2))
}

/// Whether `text` opens with a quotation mark.
pub fn starts_with_opening_quote(text: &str) -> (r: bool)
    ensures
        r == opens_with_quote(text@),
{
    if text.unicode_len() == 0 {
        return false;
    }
    let c: char = text.get_char(0);
    c == '"' || c == '\'' || c == '\u{2018}' || c == '\u{2019}' || c == '\u{201c}' || c
        == '\u{201d}' || c == '\u{ab}' || c == '\u{bb}'
}

/// Whether a single link covers a text of this length.
pub fn is_whole_line_link(text_len: usize, spans: &Vec<Span>) -> (r: bool)
    ensures
        r == has_whole_link(text_len as int, spans_view(spans@)),
{
    if text_len == 0 {
        return false;
    }
    let mut i: usize = 0;
    while i < spans.len()
        invariant
            0 < text_len,
            i <= spans@.len(),
            forall|j: int|
                0 <= j < i ==> !((#[trigger] spans_view(spans@)[j]).span_type == "link"@
                    && spans_view(spans@)[j].start == 0 && spans_view(spans@)[j].end >= text_len),
        decreases spans@.len() - i,
    {
        assert(spans_view(spans@)[i as int] == spans@[i as int]@);
        if same_text(spans[i].span_type.as_str(), "link") && spans[i].start == 0 && spans[i].end
            >= text_len {
            return true;
        }
        i += 1;
    }
    false
}

/// The length of the number of one to four digits that `text` opens with.
pub fn leading_number_len(text: &str) -> (r: Option<usize>)
    ensures
        r == (if 1 <= leading_digits(text@) <= 4 {
            Some(leading_digits(text@) as usize)
        } else {
            None
        }),
        r matches Some(n) ==> n == leading_digits(text@),
{
    let v = chars_of(text);
    let mut n: usize = 0;
    assert(v@.skip(0) == v@);
    while n < v.len() && is_digit_char(v[n])
        invariant
            v@ == text@,
            n <= v@.len(),
            leading_digits(text@) == n + leading_digits(v@.skip(n as int)),
        decreases v@.len() - n,
    {
        assert(v@.skip(n as int)[0] == v@[n as int]);
        assert(v@.skip(n as int).drop_first() == v@.skip(n + 1));
        n += 1;
    }
    assert(n < v@.len() ==> v@.skip(n as int)[0] == v@[n as int]);
    if 1 <= n && n <= 4 {
        Some(n)
    } else {
        None
    }
}

/// The length of the number of one to four digits that `text` closes with.
pub fn trailing_number_len(text: &str) -> (r: Option<usize>)
    ensures
        r == (if 1 <= trailing_digits(text@) <= 4 {
            Some(trailing_digits(text@) as usize)
        } else {
            None
        }),
        r matches Some(n) ==> n == trailing_digits(text@) && n <= text@.len(),
{
    let v = chars_of(text);
    let total: usize = v.len();
    let mut n: usize = 0;
    assert(v@.take(v@.len() as int) == v@);
    while n < total && is_digit_char(v[total - 1 - n])
        invariant
            v@ == text@,
            total == v@.len(),
            n <= total,
            trailing_digits(text@) == n + trailing_digits(v@.take(total - n)),
        decreases total - n,
    {
        assert(v@.take(total - n).last() == v@[total - 1 - n]);
        assert(v@.take(total - n).drop_last() == v@.take(total - n - 1));
        n += 1;
    }
    assert(n < total ==> v@.take(total - n).last() == v@[total - 1 - n]);
    if 1 <= n && n <= 4 {
        Some(n)
    } else {
        None
    }
}

proof fn lemma_run_start(ls: Seq<VerseLine>, lo: int, k: int)
    requires
        0 <= lo <= k <= ls.len(),
        forall|m: int| lo <= m < k ==> in_run(#[trigger] ls[m]),
    ensures
        run_start(ls, k) == run_start(ls, lo),
        0 <= run_start(ls, lo) <= lo,
        forall|m: int| run_start(ls, lo) <= m < lo ==> in_run(#[trigger] ls[m]),
    decreases k,
{
    if lo < k {
        lemma_run_start(ls, lo, k - 1);
    } else if 0 < k && in_run(ls[k - 1]) {
        lemma_run_start(ls, k - 1, k - 1);
    }
}

proof fn lemma_run_end(ls: Seq<VerseLine>, k: int, j: int)
    requires
        0 <= k <= j <= ls.len(),
        forall|m: int| k <= m < j ==> in_run(#[trigger] ls[m]),
        j == ls.len() || !in_run(ls[j]),
    ensures
        run_end(ls, k) == j,
    decreases j - k,
{
    if k < j {
        lemma_run_end(ls, k + 1, j);
    }
}

proof fn lemma_no_short_front(ls: Seq<VerseLine>, lo: int, mid: int, hi: int)
    requires
        0 <= lo <= mid <= hi <= ls.len(),
        forall|m: int| lo <= m < mid ==> !(#[trigger] ls[m]).is_short,
    ensures
        short_lines(ls, lo, hi) == short_lines(ls, mid, hi),
        disqualifying_lines(ls, lo, hi) == disqualifying_lines(ls, mid, hi),
        stanza_group(ls, lo, hi) == stanza_group(ls, mid, hi),
    decreases hi - lo,
{
    if mid < hi {
        lemma_no_short_front(ls, lo, mid, hi - 1);
    } else if lo < mid {
        lemma_no_short_front(ls, lo, mid - 1, mid - 1);
    }
}

proof fn lemma_disqualifying_among_short(ls: Seq<VerseLine>, lo: int, hi: int)
    ensures
        0 <= disqualifying_lines(ls, lo, hi) <= short_lines(ls, lo, hi),
        lo <= hi ==> short_lines(ls, lo, hi) <= hi - lo,
    decreases hi - lo,
{
    if lo < hi {
        lemma_disqualifying_among_short(ls, lo, hi - 1);
    }
}

proof fn lemma_short_lines_positive(ls: Seq<VerseLine>, lo: int, k: int, hi: int)
    requires
        0 <= lo <= k < hi <= ls.len(),
        ls[k].is_short,
    ensures
        short_lines(ls, lo, hi) > 0,
    decreases hi - lo,
{
    lemma_disqualifying_among_short(ls, lo, hi - 1);
    if k < hi - 1 {
        lemma_short_lines_positive(ls, lo, k, hi - 1);
    }
}

/// Marks the lines of one run of short lines, `lines[start..end]`.
fn mark_run(
    lines: &Vec<VerseLine>,
    start: usize,
    end: usize,
    is_verse: &mut Vec<bool>,
    stanza_start: &mut Vec<bool>,
    verse_end: &mut Vec<bool>,
)
    requires
        start < end <= lines@.len(),
        lines@[start as int].is_short,
        forall|m: int| start <= m < end ==> in_run(#[trigger] lines@[m]),
        end == lines@.len() || !in_run(lines@[end as int]),
        forall|m: int| run_start(lines@, start as int) <= m < start ==> !(#[trigger] lines@[m]).is_short,
        old(is_verse)@.len() == lines@.len(),
        old(stanza_start)@.len() == lines@.len(),
        old(verse_end)@.len() == lines@.len(),
        forall|m: int| start <= m < end ==> !(#[trigger] old(is_verse)@[m]),
        forall|m: int| start <= m < end ==> !(#[trigger] old(stanza_start)@[m]),
        forall|m: int| start <= m < end ==> !(#[trigger] old(verse_end)@[m]),
    ensures
        final(is_verse)@.len() == lines@.len(),
        final(stanza_start)@.len() == lines@.len(),
        final(verse_end)@.len() == lines@.len(),
        forall|m: int|
            0 <= m < lines@.len() ==> #[trigger] final(is_verse)@[m] == (if start <= m < end {
                is_verse_line(lines@, m)
            } else {
                old(is_verse)@[m]
            }),
        forall|m: int|
            0 <= m < lines@.len() ==> #[trigger] final(stanza_start)@[m] == (if start <= m < end {
                is_stanza_start(lines@, m)
            } else {
                old(stanza_start)@[m]
            }),
        forall|m: int|
            0 <= m < lines@.len() ==> #[trigger] final(verse_end)@[m] == (if start <= m < end {
                is_verse_end(lines@, m)
            } else {
                old(verse_end)@[m]
            }),
{
    let ghost ls = lines@;
    let ghost lo = run_start(ls, start as int);
    proof {
        lemma_run_start(ls, start as int, start as int);
        lemma_no_short_front(ls, lo, start as int, end as int);
        assert forall|k: int| start <= k < end implies run_start(ls, k) == lo && run_end(ls, k)
            == end by {
            lemma_run_start(ls, start as int, k);
            lemma_run_end(ls, k, end as int);
        }
    }
    let mut short_count: usize = 0;
    let mut disqualified: usize = 0;
    let mut k: usize = start;
    while k < end
        invariant
            start <= k <= end <= lines@.len(),
            ls == lines@,
            short_count == short_lines(ls, start as int, k as int),
            disqualified == disqualifying_lines(ls, start as int, k as int),
            disqualified <= short_count <= k - start,
        decreases end - k,
    {
        if lines[k].is_short {
            short_count += 1;
            if lines[k].is_disqualifying {
                disqualified += 1;
            }
        }
        k += 1;
    }
    if !(short_count >= MIN_RUN && disqualified < short_count - disqualified) {
        assert(!is_verse_run(ls, lo, end as int));
        return ;
    }
    assert(is_verse_run(ls, lo, end as int));
    let ghost verse0 = is_verse@;
    let ghost stanza0 = stanza_start@;
    let ghost end0 = verse_end@;
    let mut last_short: usize = start;
    let mut last_parent: Option<usize> = None;
    let mut group_len: usize = 0;
    k = start;
    while k < end
        invariant
            start <= k <= end <= lines@.len(),
            ls == lines@,
            start <= last_short < end,
            last_short <= k,
            ls[start as int].is_short,
            ls[last_short as int].is_short,
            forall|m: int| last_short < m < k ==> !(#[trigger] ls[m]).is_short,
            lo == run_start(ls, start as int),
            0 <= lo <= start,
            forall|m: int| lo <= m < start ==> !(#[trigger] ls[m]).is_short,
            forall|m: int| start <= m < end ==> run_start(ls, m) == lo && run_end(ls, m) == end,
            is_verse_run(ls, lo, end as int),
            group_len <= k - start,
            (last_parent, group_len as int) == stanza_group(ls, start as int, k as int),
            is_verse@.len() == ls.len(),
            stanza_start@.len() == ls.len(),
            verse0.len() == ls.len(),
            stanza0.len() == ls.len(),
            forall|m: int| start <= m < end ==> !(#[trigger] verse0[m]),
            forall|m: int| start <= m < end ==> !(#[trigger] stanza0[m]),
            forall|m: int|
                0 <= m < ls.len() ==> #[trigger] is_verse@[m] == (if start <= m < k {
                    is_verse_line(ls, m)
                } else {
                    verse0[m]
                }),
            forall|m: int|
                0 <= m < ls.len() ==> #[trigger] stanza_start@[m] == (if start <= m < k {
                    is_stanza_start(ls, m)
                } else {
                    stanza0[m]
                }),
        decreases end - k,
    {
        proof {
            lemma_no_short_front(ls, lo, start as int, k as int);
            if start < k {
                lemma_short_lines_positive(ls, start as int, start as int, k as int);
            }
        }
        if lines[k].is_short {
            is_verse.set(k, true);
            last_short = k;
            let changed = lines[k].parent != last_parent;
            if changed {
                if k == start || group_len >= 2 || lines[k].starts_with_number {
                    stanza_start.set(k, true);
                }
                group_len = 0;
            } else if lines[k].starts_with_number {
                stanza_start.set(k, true);
            }
            group_len += 1;
            last_parent = lines[k].parent;
        }
        k += 1;
    }
    verse_end.set(last_short, true);
    assert forall|m: int| start <= m < end implies #[trigger] verse_end@[m] == is_verse_end(ls, m) by {
        if m == last_short {
        } else if m < last_short {
            assert(ls[last_short as int].is_short);
        }
    }
}

/// Flags, for each `<p>` in turn, the lines of verse, those that start a stanza, and those that
/// end a verse.
pub fn verse_flags(lines: &Vec<VerseLine>) -> (r: (Vec<bool>, Vec<bool>, Vec<bool>))
    ensures
        r.0@ == Seq::new(lines@.len(), |k: int| is_verse_line(lines@, k)),
        r.1@ == Seq::new(lines@.len(), |k: int| is_stanza_start(lines@, k)),
        r.2@ == Seq::new(lines@.len(), |k: int| is_verse_end(lines@, k)),
{
    let n: usize = lines.len();
    let mut is_verse: Vec<bool> = vec![false; n];
    let mut stanza_start: Vec<bool> = vec![false; n];
    let mut verse_end: Vec<bool> = vec![false; n];
    let ghost ls = lines@;
    let mut i: usize = 0;
    while i < n
        invariant
            i <= n == lines@.len(),
            ls == lines@,
            is_verse@.len() == n,
            stanza_start@.len() == n,
            verse_end@.len() == n,
            i < n && in_run(ls[i as int]) ==> forall|m: int|
                run_start(ls, i as int) <= m < i ==> !(#[trigger] ls[m]).is_short,
            forall|m: int| 0 <= m < i ==> #[trigger] is_verse@[m] == is_verse_line(ls, m),
            forall|m: int| 0 <= m < i ==> #[trigger] stanza_start@[m] == is_stanza_start(ls, m),
            forall|m: int| 0 <= m < i ==> #[trigger] verse_end@[m] == is_verse_end(ls, m),
            forall|m: int| i <= m < n ==> !(#[trigger] is_verse@[m]),
            forall|m: int| i <= m < n ==> !(#[trigger] stanza_start@[m]),
            forall|m: int| i <= m < n ==> !(#[trigger] verse_end@[m]),
        decreases n - i,
    {
        if lines[i].is_short {
            let start: usize = i;
            let mut j: usize = i;
            while j < n && (lines[j].is_short || lines[j].is_empty)
                invariant
                    start <= j <= n == lines@.len(),
                    ls == lines@,
                    forall|m: int| start <= m < j ==> in_run(#[trigger] ls[m]),
                decreases n - j,
            {
                j += 1;
            }
            mark_run(lines, start, j, &mut is_verse, &mut stanza_start, &mut verse_end);
            i = j;
        } else {
            i += 1;
        }
    }
    (is_verse, stanza_start, verse_end)
}

// ---------------------------------------------------------------------------
// Block elements
// ---------------------------------------------------------------------------

/// A reference to a note, found inside a block element.
pub struct FootnoteRef {
    pub anchor_id: String,
    pub label: String,
}

/// A resolved note.
pub struct ResolvedFootnote {
    pub anchor_id: String,
    pub label: String,
    pub text: String,
    pub spans: Vec<Span>,
}

/// An ordered or unordered list.
pub struct ListNode {
    pub ordered: bool,
    pub items: Vec<ListItem>,
}

/// A single `<li>`: its own text, without that of a nested list, and that list.
pub struct ListItem {
    pub text: String,
    pub spans: Vec<Span>,
    pub sublist: Option<Box<ListNode>>,
}

/// A block element of a chapter. It answers to `element_ids`, of which the first is its own where
/// `own_id` says so; the others are those of the elements around it.
pub enum ChapterElement {
    Heading {
        level: u8,
        text: String,
        spans: Vec<Span>,
        element_ids: Vec<String>,
        own_id: bool,
    },
    Paragraph {
        /// `paragraph`, `blockquote` or `verse_line`.
        node_type: String,
        text: String,
        spans: Vec<Span>,
        source_file: String,
        footnotes: Vec<FootnoteRef>,
        element_ids: Vec<String>,
        own_id: bool,
        /// For a verse line: it starts a new stanza.
        stanza_start: bool,
        /// For a verse line: it is the last line of its verse.
        verse_end: bool,
    },
    ThematicBreak { element_ids: Vec<String>, own_id: bool },
    Table {
        text: String,
        rows: Vec<Vec<String>>,
        source_file: String,
        element_ids: Vec<String>,
        own_id: bool,
    },
    Image {
        src: String,
        alt: String,
        caption: String,
        element_ids: Vec<String>,
        own_id: bool,
    },
    List {
        ordered: bool,
        text: String,
        spans: Vec<Span>,
        items: Vec<ListItem>,
        source_file: String,
        element_ids: Vec<String>,
        own_id: bool,
    },
}

/// The mathematical view of a [`FootnoteRef`].
#[verifier::ext_equal]
pub struct FootnoteView {
    pub anchor_id: Seq<char>,
    pub label: Seq<char>,
}

/// The mathematical view of a [`ResolvedFootnote`].
#[verifier::ext_equal]
pub struct NoteView {
    pub anchor_id: Seq<char>,
    pub label: Seq<char>,
    pub text: Seq<char>,
    pub spans: Seq<SpanView>,
}

/// The mathematical view of a [`ListNode`].
#[verifier::ext_equal]
pub struct ListView {
    pub ordered: bool,
    pub items: Seq<ItemView>,
}

/// The mathematical view of a [`ListItem`].
#[verifier::ext_equal]
pub struct ItemView {
    pub text: Seq<char>,
    pub spans: Seq<SpanView>,
    pub sublist: Option<Box<ListView>>,
}

/// The mathematical view of a [`ChapterElement`].
#[verifier::ext_equal]
pub enum ElementView {
    Heading {
        level: int,
        text: Seq<char>,
        spans: Seq<SpanView>,
        element_ids: Seq<Seq<char>>,
        own_id: bool,
    },
    Paragraph {
        node_type: Seq<char>,
        text: Seq<char>,
        spans: Seq<SpanView>,
        source_file: Seq<char>,
        footnotes: Seq<FootnoteView>,
        element_ids: Seq<Seq<char>>,
        own_id: bool,
        stanza_start: bool,
        verse_end: bool,
    },
    ThematicBreak { element_ids: Seq<Seq<char>>, own_id: bool },
    Table {
        text: Seq<char>,
        rows: Seq<Seq<Seq<char>>>,
        source_file: Seq<char>,
        element_ids: Seq<Seq<char>>,
        own_id: bool,
    },
    Image {
        src: Seq<char>,
        alt: Seq<char>,
        caption: Seq<char>,
        element_ids: Seq<Seq<char>>,
        own_id: bool,
    },
    List {
        ordered: bool,
        text: Seq<char>,
        spans: Seq<SpanView>,
        items: Seq<ItemView>,
        source_file: Seq<char>,
        element_ids: Seq<Seq<char>>,
        own_id: bool,
    },
}

impl View for FootnoteRef {
    type V = FootnoteView;

    open spec fn view(&self) -> FootnoteView {
        FootnoteView { anchor_id: self.anchor_id@, label: self.label@ }
    }
}

impl View for ResolvedFootnote {
    type V = NoteView;

    open spec fn view(&self) -> NoteView {
        NoteView {
            anchor_id: self.anchor_id@,
            label: self.label@,
            text: self.text@,
            spans: spans_view(self.spans@),
        }
    }
}

/// The view of one list item.
pub open spec fn item_view(i: ListItem) -> ItemView
    decreases i,
{
    ItemView {
        text: i.text@,
        spans: spans_view(i.spans@),
        sublist: match i.sublist {
            Some(l) => Some(Box::new(list_view(*l))),
            None => None,
        },
    }
}

/// The view of a list.
pub open spec fn list_view(l: ListNode) -> ListView
    decreases l,
{
    ListView { ordered: l.ordered, items: items_view(l.items@) }
}

/// The views of list items.
pub open spec fn items_view(items: Seq<ListItem>) -> Seq<ItemView>
    decreases items,
{
    if items.len() == 0 {
        Seq::empty()
    } else {
        items_view(items.drop_last()).push(item_view(items.last()))
    }
}

/// The texts of the cells of a table.
pub open spec fn rows_view(rows: Seq<Vec<String>>) -> Seq<Seq<Seq<char>>> {
    rows.map_values(|r: Vec<String>| texts(r@))
}

/// The views of note references.
pub open spec fn footnotes_view(notes: Seq<FootnoteRef>) -> Seq<FootnoteView> {
    notes.map_values(|f: FootnoteRef| f@)
}

impl View for ChapterElement {
    type V = ElementView;

    open spec fn view(&self) -> ElementView {
        match *self {
            ChapterElement::Heading { level, text, spans, element_ids, own_id } => ElementView::Heading {
                level: level as int,
                text: text@,
                spans: spans_view(spans@),
                element_ids: texts(element_ids@),
                own_id,
            },
            ChapterElement::Paragraph {
                node_type,
                text,
                spans,
                source_file,
                footnotes,
                element_ids,
                own_id,
                stanza_start,
                verse_end,
            } => ElementView::Paragraph {
                node_type: node_type@,
                text: text@,
                spans: spans_view(spans@),
                source_file: source_file@,
                footnotes: footnotes_view(footnotes@),
                element_ids: texts(element_ids@),
                own_id,
                stanza_start,
                verse_end,
            },
            ChapterElement::ThematicBreak { element_ids, own_id } => ElementView::ThematicBreak {
                element_ids: texts(element_ids@),
                own_id,
            },
            ChapterElement::Table { text, rows, source_file, element_ids, own_id } => ElementView::Table {
                text: text@,
                rows: rows_view(rows@),
                source_file: source_file@,
                element_ids: texts(element_ids@),
                own_id,
            },
            ChapterElement::Image { src, alt, caption, element_ids, own_id } => ElementView::Image {
                src: src@,
                alt: alt@,
                caption: caption@,
                element_ids: texts(element_ids@),
                own_id,
            },
            ChapterElement::List { ordered, text, spans, items, source_file, element_ids, own_id } =>
                ElementView::List {
                ordered,
                text: text@,
                spans: spans_view(spans@),
                items: items_view(items@),
                source_file: source_file@,
                element_ids: texts(element_ids@),
                own_id,
            },
        }
    }
}

/// The views of chapter elements.
pub open spec fn elements_view(elements: Seq<ChapterElement>) -> Seq<ElementView> {
    elements.map_values(|e: ChapterElement| e@)
}

/// Node `i` sits inside some list's `<li>`, no further out than the body.
pub open spec fn in_list_item(d: Seq<NodeView>, i: int) -> bool
    decreases i,
{
    match parent(d, i) {
        Some(p) => 0 <= p < i && (is_named_ignoring_case(d[p], "li"@) || (!is_named_ignoring_case(
            d[p],
            "body"@,
        ) && in_list_item(d, p))),
        None => false,
    }
}

/// Some ancestor of node `i` is an element of this name.
pub open spec fn has_ancestor(d: Seq<NodeView>, i: int, tag: Seq<char>) -> bool
    decreases i,
{
    match parent(d, i) {
        Some(p) => 0 <= p < i && (is_named(d[p], tag) || has_ancestor(d, p, tag)),
        None => false,
    }
}

/// The `id` of an element, or else its `name`.
pub open spec fn anchor_of(n: NodeView) -> Option<Seq<char>> {
    match attr(n, "id"@) {
        Some(id) => Some(id),
        None => attr(n, "name"@),
    }
}

/// The anchors of the ancestors of node `i` inside the body, innermost first.
pub open spec fn ancestor_ids(d: Seq<NodeView>, i: int) -> Seq<Seq<char>>
    decreases i,
{
    match parent(d, i) {
        Some(p) => if 0 <= p < i && !is_named_ignoring_case(d[p], "body"@) {
            match anchor_of(d[p]) {
                Some(id) => seq![id] + ancestor_ids(d, p),
                None => ancestor_ids(d, p),
            }
        } else {
            Seq::empty()
        },
        None => Seq::empty(),
    }
}

/// All anchors that lead to node `i`: its own, then those of its ancestors.
pub open spec fn anchors(d: Seq<NodeView>, i: int) -> Seq<Seq<char>> {
    match anchor_of(d[i]) {
        Some(id) => seq![id] + ancestor_ids(d, i),
        None => ancestor_ids(d, i),
    }
}

/// The level of a heading element.
pub open spec fn heading_level(n: NodeView) -> Option<int> {
    if is_named(n, "h1"@) {
        Some(1)
    } else if is_named(n, "h2"@) {
        Some(2)
    } else if is_named(n, "h3"@) {
        Some(3)
    } else if is_named(n, "h4"@) {
        Some(4)
    } else if is_named(n, "h5"@) {
        Some(5)
    } else if is_named(n, "h6"@) {
        Some(6)
    } else {
        None
    }
}

/// A block-level element that can stand inside another.
pub open spec fn is_block(n: NodeView) -> bool {
    ||| is_named(n, "div"@)
    ||| is_named(n, "p"@)
    ||| heading_level(n) is Some
    ||| is_named(n, "ul"@)
    ||| is_named(n, "ol"@)
    ||| is_named(n, "table"@)
    ||| is_named(n, "blockquote"@)
}

/// No block-level element is nested in node `i`.
pub open spec fn is_leaf(d: Seq<NodeView>, i: int) -> bool {
    forall|k: int| i < k < subtree_end(d, i) ==> !is_block(#[trigger] d[k])
}

/// The items of the list whose children are `lo..hi`.
pub open spec fn items_in(d: Seq<NodeView>, lo: int, hi: int) -> Seq<ItemView>
    decreases hi - lo,
{
    if lo >= hi {
        Seq::empty()
    } else {
        let e = node_end(d, lo, hi);
        let rest = items_in(d, e, hi);
        if is_named_ignoring_case(d[lo], "li"@) {
            let own = extracted(d, lo, true);
            let sublist = sublist_in(d, lo + 1, e);
            if own.text.len() > 0 || sublist is Some {
                let item = ItemView { text: own.text, spans: own.spans, sublist };
                seq![item] + rest
            } else {
                rest
            }
        } else {
            rest
        }
    }
}

/// The first list among the siblings `lo..hi`.
pub open spec fn sublist_in(d: Seq<NodeView>, lo: int, hi: int) -> Option<Box<ListView>>
    decreases hi - lo,
{
    if lo >= hi {
        None
    } else {
        let e = node_end(d, lo, hi);
        if is_named_ignoring_case(d[lo], "ul"@) || is_named_ignoring_case(d[lo], "ol"@) {
            Some(
                Box::new(
                    ListView {
                        ordered: is_named_ignoring_case(d[lo], "ol"@),
                        items: items_in(d, lo + 1, e),
                    },
                ),
            )
        } else {
            sublist_in(d, e, hi)
        }
    }
}

/// The text of a table cell: the words of its texts, a space between any two.
pub open spec fn cell_text(d: Seq<NodeView>, i: int) -> Seq<char> {
    join(words(join(texts_in(d, i, subtree_end(d, i)), " "@)), " "@)
}

/// The texts of the cells among the nodes `lo..hi`.
pub open spec fn cells_in(d: Seq<NodeView>, lo: int, hi: int) -> Seq<Seq<char>>
    decreases hi - lo,
{
    if lo >= hi {
        Seq::empty()
    } else if is_named(d[hi - 1], "th"@) || is_named(d[hi - 1], "td"@) {
        cells_in(d, lo, hi - 1).push(cell_text(d, hi - 1))
    } else {
        cells_in(d, lo, hi - 1)
    }
}

/// The rows among the nodes `lo..hi` that have cells.
pub open spec fn rows_in(d: Seq<NodeView>, lo: int, hi: int) -> Seq<Seq<Seq<char>>>
    decreases hi - lo,
{
    if lo >= hi {
        Seq::empty()
    } else {
        let before = rows_in(d, lo, hi - 1);
        let cells = cells_in(d, hi, subtree_end(d, hi - 1));
        if is_named(d[hi - 1], "tr"@) && cells.len() > 0 {
            before.push(cells)
        } else {
            before
        }
    }
}

/// The rows of a table as plain text.
pub open spec fn rows_text(rows: Seq<Seq<Seq<char>>>) -> Seq<char> {
    join(rows.map_values(|r: Seq<Seq<char>>| join(r, " "@)), " "@)
}

/// The note references among the nodes `lo..hi`: the links with a fragment that is not empty.
pub open spec fn notes_in(d: Seq<NodeView>, lo: int, hi: int) -> Seq<FootnoteView>
    decreases hi - lo,
{
    if lo >= hi {
        Seq::empty()
    } else {
        let i = hi - 1;
        let before = notes_in(d, lo, i);
        match attr(d[i], "href"@) {
            Some(h) => {
                let at = char_pos(h, '#', 0);
                if is_named(d[i], "a"@) && at + 1 < h.len() {
                    before.push(
                        FootnoteView {
                            anchor_id: h.skip(at + 1),
                            label: trimmed(text_in(d, i, subtree_end(d, i))),
                        },
                    )
                } else {
                    before
                }
            },
            None => before,
        }
    }
}

/// The parent of node `i`, where it is an element.
pub open spec fn element_parent(d: Seq<NodeView>, i: int) -> Option<usize> {
    match parent(d, i) {
        Some(p) => if d[p].value is Element {
            Some(p as usize)
        } else {
            None
        },
        None => None,
    }
}

/// What the detection of verse looks at in node `i`.
pub open spec fn verse_line(d: Seq<NodeView>, i: int) -> VerseLine {
    let t = extracted(d, i, false);
    VerseLine {
        parent: element_parent(d, i),
        is_short: 0 < t.text.len() <= SHORT_LEN,
        is_empty: t.text.len() == 0,
        is_disqualifying: opens_with_quote(t.text) || has_whole_link(t.text.len() as int, t.spans),
        starts_with_number: 1 <= leading_digits(t.text) <= 4,
    }
}

/// What the detection of verse looks at in each `<p>` among the nodes `lo..hi`.
pub open spec fn verse_lines(d: Seq<NodeView>, lo: int, hi: int) -> Seq<VerseLine>
    decreases hi - lo,
{
    if lo >= hi {
        Seq::empty()
    } else if is_named(d[hi - 1], "p"@) {
        verse_lines(d, lo, hi - 1).push(verse_line(d, hi - 1))
    } else {
        verse_lines(d, lo, hi - 1)
    }
}

/// The spans of a verse line: its numbers, at the front and at the back, get spans of their own.
pub open spec fn verse_spans(t: TextView) -> Seq<SpanView> {
    let lead = leading_digits(t.text);
    let trail = trailing_digits(t.text);
    let n = t.text.len() as int;
    let a = if 1 <= lead <= 4 {
        t.spans.push(SpanView { start: 0, end: lead, span_type: "stanza_number"@, href: None })
    } else {
        t.spans
    };
    if 1 <= trail <= 4 && trail < n {
        a.push(SpanView { start: n - trail, end: n, span_type: "line_number"@, href: None })
    } else {
        a
    }
}

/// The paragraph that node `i` is; in a chapter whose paragraphs are `lines`, it is number `p`.
pub open spec fn paragraph_at(
    d: Seq<NodeView>,
    i: int,
    path: Seq<char>,
    lines: Seq<VerseLine>,
    p: int,
) -> Option<ElementView> {
    let t = extracted(d, i, false);
    let numbered = is_named(d[i], "p"@) && 0 <= p < lines.len();
    let verse = numbered && is_verse_line(lines, p);
    if t.text.len() == 0 {
        None
    } else {
        Some(
            ElementView::Paragraph {
                node_type: if is_named(d[i], "blockquote"@) {
                    "blockquote"@
                } else if verse {
                    "verse_line"@
                } else {
                    "paragraph"@
                },
                text: t.text,
                spans: if verse {
                    verse_spans(t)
                } else {
                    t.spans
                },
                source_file: path,
                footnotes: notes_in(d, i + 1, subtree_end(d, i)),
                element_ids: anchors(d, i),
                own_id: anchor_of(d[i]) is Some,
                stanza_start: numbered && is_stanza_start(lines, p),
                verse_end: numbered && is_verse_end(lines, p),
            },
        )
    }
}

/// The namespace of the attributes with which SVG refers to other files.
pub const XLINK: &'static str = "http://www.w3.org/1999/xlink";

/// The address of the picture that an element shows: of its source, or else that of an SVG image,
/// which is a link or an ordinary reference.
pub open spec fn image_address(n: NodeView) -> Option<Seq<char>> {
    if attr(n, "src"@) is Some {
        attr(n, "src"@)
    } else if attr(n, "xlink:href"@) is Some {
        attr(n, "xlink:href"@)
    } else if attr_in(n, XLINK@, "href"@) is Some {
        attr_in(n, XLINK@, "href"@)
    } else {
        attr(n, "href"@)
    }
}

/// The text of an optional value; empty when there is none.
pub open spec fn or_empty(a: Option<Seq<char>>) -> Seq<char> {
    match a {
        Some(t) => t,
        None => Seq::empty(),
    }
}

/// The block element that node `i` is, if it is one.
pub open spec fn element_at(
    d: Seq<NodeView>,
    i: int,
    path: Seq<char>,
    lines: Seq<VerseLine>,
    p: int,
) -> Option<ElementView> {
    let n = d[i];
    let ids = anchors(d, i);
    let own = anchor_of(n) is Some;
    let t = extracted(d, i, false);
    if is_named(n, "img"@) || (is_named(n, "image"@) && has_ancestor(d, i, "svg"@)) {
        match image_address(n) {
            Some(src) => Some(
                ElementView::Image {
                    src,
                    alt: or_empty(attr(n, "alt"@)),
                    caption: or_empty(attr(n, "title"@)),
                    element_ids: ids,
                    own_id: own,
                },
            ),
            None => None,
        }
    } else if is_named(n, "hr"@) {
        Some(ElementView::ThematicBreak { element_ids: ids, own_id: own })
    } else if is_named(n, "table"@) {
        let rows = rows_in(d, i + 1, subtree_end(d, i));
        Some(
            ElementView::Table {
                text: rows_text(rows),
                rows,
                source_file: path,
                element_ids: ids,
                own_id: own,
            },
        )
    } else if heading_level(n) is Some {
        if t.text.len() > 0 {
            Some(
                ElementView::Heading {
                    level: heading_level(n)->0,
                    text: t.text,
                    spans: t.spans,
                    element_ids: ids,
                    own_id: own,
                },
            )
        } else {
            None
        }
    } else if is_named(n, "ul"@) || is_named(n, "ol"@) {
        if !in_list_item(d, i) && t.text.len() > 0 {
            Some(
                ElementView::List {
                    ordered: is_named(n, "ol"@),
                    text: t.text,
                    spans: t.spans,
                    items: items_in(d, i + 1, subtree_end(d, i)),
                    source_file: path,
                    element_ids: ids,
                    own_id: own,
                },
            )
        } else {
            None
        }
    } else if is_named(n, "div"@) {
        if is_leaf(d, i) && !in_list_item(d, i) {
            paragraph_at(d, i, path, lines, p)
        } else {
            None
        }
    } else if is_named(n, "blockquote"@) {
        if is_leaf(d, i) {
            paragraph_at(d, i, path, lines, p)
        } else {
            None
        }
    } else if is_named(n, "p"@) {
        paragraph_at(d, i, path, lines, p)
    } else {
        None
    }
}

/// The block elements among the nodes `lo..hi`, where the paragraphs of the chapter are `lines`.
pub open spec fn elements_in(
    d: Seq<NodeView>,
    lo: int,
    hi: int,
    path: Seq<char>,
    lines: Seq<VerseLine>,
) -> Seq<ElementView>
    decreases hi - lo,
{
    if lo >= hi {
        Seq::empty()
    } else {
        let before = elements_in(d, lo, hi - 1, path, lines);
        let p = verse_lines(d, lo, hi - 1).len() as int;
        match element_at(d, hi - 1, path, lines, p) {
            Some(e) => before.push(e),
            None => before,
        }
    }
}

/// Of the nodes before `hi` that `p` holds of, the one that the parser made first.
pub open spec fn earliest(d: Seq<NodeView>, p: spec_fn(int) -> bool, hi: int) -> Option<int>
    decreases hi,
{
    if hi <= 0 {
        None
    } else {
        let before = earliest(d, p, hi - 1);
        if !p(hi - 1) {
            before
        } else {
            match before {
                Some(b) => if d[hi - 1].rank < d[b].rank {
                    Some(hi - 1)
                } else {
                    before
                },
                None => Some(hi - 1),
            }
        }
    }
}

/// The body of a document.
pub open spec fn body(d: Seq<NodeView>) -> Option<int> {
    earliest(d, |k: int| is_named(d[k], "body"@) && parent(d, k) is Some, d.len() as int)
}

/// The block elements of a document.
pub open spec fn chapter(d: Seq<NodeView>, path: Seq<char>) -> Seq<ElementView> {
    match body(d) {
        Some(b) => {
            let e = subtree_end(d, b);
            elements_in(d, b + 1, e, path, verse_lines(d, b + 1, e))
        },
        None => Seq::empty(),
    }
}

/// Whether node `elem` sits inside some list's `<li>`.
pub fn is_nested_in_list_item(nodes: &Vec<TreeNode>, elem: usize) -> (r: bool)
    requires
        elem < nodes@.len(),
    ensures
        r == in_list_item(nodes_view(nodes@), elem as int),
{
    let ghost d = nodes_view(nodes@);
    let mut i: usize = elem;
    loop
        invariant
            i < nodes@.len(),
            d == nodes_view(nodes@),
            in_list_item(d, elem as int) == in_list_item(d, i as int),
        decreases i,
    {
        let p = match parent_of(nodes, i) {
            Some(p) => p,
            None => return false,
        };
        if named_ignoring_case(nodes, p, "li") {
            return true;
        }
        if named_ignoring_case(nodes, p, "body") {
            return false;
        }
        i = p;
    }
}

fn is_below(nodes: &Vec<TreeNode>, elem: usize, tag: &str) -> (r: bool)
    requires
        elem < nodes@.len(),
    ensures
        r == has_ancestor(nodes_view(nodes@), elem as int, tag@),
{
    let ghost d = nodes_view(nodes@);
    let mut i: usize = elem;
    loop
        invariant
            i < nodes@.len(),
            d == nodes_view(nodes@),
            has_ancestor(d, elem as int, tag@) == has_ancestor(d, i as int, tag@),
        decreases i,
    {
        let p = match parent_of(nodes, i) {
            Some(p) => p,
            None => return false,
        };
        if named(nodes, p, tag) {
            return true;
        }
        i = p;
    }
}

fn anchor_at(nodes: &Vec<TreeNode>, i: usize) -> (r: Option<String>)
    requires
        i < nodes@.len(),
    ensures
        opt_text(r) == anchor_of(nodes_view(nodes@)[i as int]),
{
    match attr_of(nodes, i, "id") {
        Some(id) => Some(id.to_owned()),
        None => match attr_of(nodes, i, "name") {
            Some(name) => Some(name.to_owned()),
            None => None,
        },
    }
}

/// Appends to `ids` the anchors of the ancestors of node `elem` inside the body, innermost first.
fn ancestor_element_ids(nodes: &Vec<TreeNode>, elem: usize, ids: &mut Vec<String>)
    requires
        elem < nodes@.len(),
    ensures
        texts(final(ids)@) == texts(old(ids)@) + ancestor_ids(nodes_view(nodes@), elem as int),
{
    let ghost d = nodes_view(nodes@);
    let ghost all = texts(ids@) + ancestor_ids(d, elem as int);
    let mut i: usize = elem;
    loop
        invariant
            i < nodes@.len(),
            d == nodes_view(nodes@),
            all == texts(old(ids)@) + ancestor_ids(d, elem as int),
            all == texts(ids@) + ancestor_ids(d, i as int),
        decreases i,
    {
        let p = match parent_of(nodes, i) {
            Some(p) => p,
            None => {
                assert(texts(ids@) + Seq::<Seq<char>>::empty() == texts(ids@));
                return ;
            },
        };
        if named_ignoring_case(nodes, p, "body") {
            assert(texts(ids@) + Seq::<Seq<char>>::empty() == texts(ids@));
            return ;
        }
        let ghost before = ids@;
        if let Some(id) = anchor_at(nodes, p) {
            ids.push(id);
            assert(texts(ids@) == texts(before).push(id@));
            assert(texts(ids@) + ancestor_ids(d, p as int) == texts(before) + (seq![id@]
                + ancestor_ids(d, p as int)));
        }
        i = p;
    }
}

fn anchors_at(nodes: &Vec<TreeNode>, i: usize) -> (r: Vec<String>)
    requires
        i < nodes@.len(),
    ensures
        texts(r@) == anchors(nodes_view(nodes@), i as int),
{
    let mut ids: Vec<String> = Vec::new();
    assert(texts(ids@) == Seq::<Seq<char>>::empty());
    if let Some(id) = anchor_at(nodes, i) {
        ids.push(id);
        assert(texts(ids@) == seq![id@]);
    }
    ancestor_element_ids(nodes, i, &mut ids);
    ids
}

fn level_of(nodes: &Vec<TreeNode>, i: usize) -> (r: Option<u8>)
    requires
        i < nodes@.len(),
    ensures
        match r {
            Some(l) => heading_level(nodes_view(nodes@)[i as int]) == Some(l as int),
            None => heading_level(nodes_view(nodes@)[i as int]) is None,
        },
{
    if named(nodes, i, "h1") {
        Some(1)
    } else if named(nodes, i, "h2") {
        Some(2)
    } else if named(nodes, i, "h3") {
        Some(3)
    } else if named(nodes, i, "h4") {
        Some(4)
    } else if named(nodes, i, "h5") {
        Some(5)
    } else if named(nodes, i, "h6") {
        Some(6)
    } else {
        None
    }
}

/// Whether node `elem` holds no nested block-level element.
pub fn is_leaf_content_div(nodes: &Vec<TreeNode>, elem: usize) -> (r: bool)
    requires
        elem < nodes@.len(),
    ensures
        r == is_leaf(nodes_view(nodes@), elem as int),
{
    let ghost d = nodes_view(nodes@);
    let e = end_of(nodes, elem);
    let mut k: usize = elem + 1;
    while k < e
        invariant
            elem < k <= e <= nodes@.len(),
            d == nodes_view(nodes@),
            e == subtree_end(d, elem as int),
            forall|m: int| elem < m < k ==> !is_block(#[trigger] d[m]),
        decreases e - k,
    {
        if named(nodes, k, "div") || named(nodes, k, "p") || level_of(nodes, k).is_some() || named(
            nodes,
            k,
            "ul",
        ) || named(nodes, k, "ol") || named(nodes, k, "table") || named(nodes, k, "blockquote") {
            assert(is_block(d[k as int]));
            return false;
        }
        k += 1;
    }
    true
}

fn find_sublist(nodes: &Vec<TreeNode>, lo: usize, hi: usize) -> (r: Option<Box<ListNode>>)
    requires
        lo <= hi <= nodes@.len(),
    ensures
        match r {
            Some(l) => sublist_in(nodes_view(nodes@), lo as int, hi as int) == Some(
                Box::new(list_view(*l)),
            ),
            None => sublist_in(nodes_view(nodes@), lo as int, hi as int) is None,
        },
    decreases hi - lo,
{
    let ghost d = nodes_view(nodes@);
    let mut k: usize = lo;
    while k < hi
        invariant
            lo <= k <= hi <= nodes@.len(),
            d == nodes_view(nodes@),
            sublist_in(d, lo as int, hi as int) == sublist_in(d, k as int, hi as int),
        decreases hi - k,
    {
        let e = end_within(nodes, k, hi);
        let ordered = named_ignoring_case(nodes, k, "ol");
        if ordered || named_ignoring_case(nodes, k, "ul") {
            let items = build_list_items(nodes, k + 1, e);
            return Some(Box::new(ListNode { ordered, items }));
        }
        k = e;
    }
    None
}

/// The items of the list whose children are the nodes from `lo` up to `hi`.
pub fn build_list_items(nodes: &Vec<TreeNode>, lo: usize, hi: usize) -> (r: Vec<ListItem>)
    requires
        lo <= hi <= nodes@.len(),
    ensures
        items_view(r@) == items_in(nodes_view(nodes@), lo as int, hi as int),
    decreases hi - lo,
{
    let ghost d = nodes_view(nodes@);
    let mut items: Vec<ListItem> = Vec::new();
    let mut k: usize = lo;
    while k < hi
        invariant
            lo <= k <= hi <= nodes@.len(),
            d == nodes_view(nodes@),
            items_in(d, lo as int, hi as int) == items_view(items@) + items_in(
                d,
                k as int,
                hi as int,
            ),
        decreases hi - k,
    {
        let e = end_within(nodes, k, hi);
        if named_ignoring_case(nodes, k, "li") {
            let own = extract_list_item_text(nodes, k);
            let sublist = find_sublist(nodes, k + 1, e);
            if !own.text.as_str().is_empty() || sublist.is_some() {
                let ghost before = items@;
                let item = ListItem { text: own.text, spans: own.spans, sublist };
                items.push(item);
                assert(items@.drop_last() == before);
                assert(items_view(items@) == items_view(before).push(item_view(item)));
                assert(items_view(items@) + items_in(d, e as int, hi as int) == items_view(before)
                    + (seq![item_view(item)] + items_in(d, e as int, hi as int)));
            }
        }
        k = e;
    }
    items
}

pub fn cell_text_of(nodes: &Vec<TreeNode>, i: usize) -> (r: String)
    requires
        i < nodes@.len(),
    ensures
        r@ == cell_text(nodes_view(nodes@), i as int),
{
    let parts = texts_between(nodes, i, end_of(nodes, i));
    let raw = join_texts(&parts, " ");
    let pieces = split_words(raw.as_str());
    join_texts(&pieces, " ")
}

fn table_cells(nodes: &Vec<TreeNode>, lo: usize, hi: usize) -> (r: Vec<String>)
    requires
        lo <= hi <= nodes@.len(),
    ensures
        texts(r@) == cells_in(nodes_view(nodes@), lo as int, hi as int),
{
    let mut out: Vec<String> = Vec::new();
    let mut k: usize = lo;
    while k < hi
        invariant
            lo <= k <= hi <= nodes@.len(),
            texts(out@) == cells_in(nodes_view(nodes@), lo as int, k as int),
        decreases hi - k,
    {
        if named(nodes, k, "th") || named(nodes, k, "td") {
            let ghost before = out@;
            let cell = cell_text_of(nodes, k);
            out.push(cell);
            assert(texts(out@) == texts(before).push(cell@));
        }
        k += 1;
    }
    out
}

fn table_rows(nodes: &Vec<TreeNode>, lo: usize, hi: usize) -> (r: Vec<Vec<String>>)
    requires
        lo <= hi <= nodes@.len(),
    ensures
        rows_view(r@) == rows_in(nodes_view(nodes@), lo as int, hi as int),
{
    let mut out: Vec<Vec<String>> = Vec::new();
    let mut k: usize = lo;
    while k < hi
        invariant
            lo <= k <= hi <= nodes@.len(),
            rows_view(out@) == rows_in(nodes_view(nodes@), lo as int, k as int),
        decreases hi - k,
    {
        if named(nodes, k, "tr") {
            let cells = table_cells(nodes, k + 1, end_of(nodes, k));
            if cells.len() > 0 {
                let ghost before = out@;
                out.push(cells);
                assert(rows_view(out@) == rows_view(before).push(texts(cells@)));
            }
        }
        k += 1;
    }
    out
}

fn table_text(rows: &Vec<Vec<String>>) -> (r: String)
    ensures
        r@ == rows_text(rows_view(rows@)),
{
    let mut lines: Vec<String> = Vec::new();
    let mut k: usize = 0;
    let ghost want = rows_view(rows@).map_values(|r: Seq<Seq<char>>| join(r, " "@));
    while k < rows.len()
        invariant
            k <= rows@.len(),
            want == rows_view(rows@).map_values(|r: Seq<Seq<char>>| join(r, " "@)),
            texts(lines@) == want.take(k as int),
        decreases rows@.len() - k,
    {
        let ghost before = lines@;
        let line = join_texts(&rows[k], " ");
        lines.push(line);
        assert(texts(lines@) == texts(before).push(line@));
        k += 1;
        assert(want.take(k as int) == want.take(k - 1).push(want[k - 1]));
    }
    assert(want.take(k as int) == want);
    join_texts(&lines, " ")
}

fn note_refs(nodes: &Vec<TreeNode>, lo: usize, hi: usize) -> (r: Vec<FootnoteRef>)
    requires
        lo <= hi <= nodes@.len(),
    ensures
        footnotes_view(r@) == notes_in(nodes_view(nodes@), lo as int, hi as int),
{
    let mut out: Vec<FootnoteRef> = Vec::new();
    let mut k: usize = lo;
    while k < hi
        invariant
            lo <= k <= hi <= nodes@.len(),
            footnotes_view(out@) == notes_in(nodes_view(nodes@), lo as int, k as int),
        decreases hi - k,
    {
        if let Some(h) = attr_of(nodes, k, "href") {
            if named(nodes, k, "a") {
                let v = chars_of(h);
                let at = find_char(&v, '#', 0);
                if at < v.len() && at + 1 < v.len() {
                    let ghost before = out@;
                    let anchor_id = text_of(&v, at + 1, v.len());
                    assert(v@.subrange(at + 1, v@.len() as int) == v@.skip(at + 1));
                    let raw = text_between(nodes, k, end_of(nodes, k));
                    let note = FootnoteRef { anchor_id, label: trim_text(raw.as_str()) };
                    out.push(note);
                    assert(footnotes_view(out@) == footnotes_view(before).push(note@));
                }
            }
        }
        k += 1;
    }
    out
}

fn verse_line_at(nodes: &Vec<TreeNode>, i: usize) -> (r: VerseLine)
    requires
        i < nodes@.len(),
    ensures
        r == verse_line(nodes_view(nodes@), i as int),
{
    let t = extract_text_and_spans(nodes, i);
    let len: usize = t.text.as_str().unicode_len();
    let parent = match parent_of(nodes, i) {
        Some(p) => match &nodes[p].value {
            TreeValue::Element { .. } => Some(p),
            _ => None,
        },
        None => None,
    };
    VerseLine {
        parent,
        is_short: len > 0 && len <= SHORT_LEN,
        is_empty: len == 0,
        is_disqualifying: starts_with_opening_quote(t.text.as_str()) || is_whole_line_link(
            len,
            &t.spans,
        ),
        starts_with_number: leading_number_len(t.text.as_str()).is_some(),
    }
}

fn collect_verse_lines(nodes: &Vec<TreeNode>, lo: usize, hi: usize) -> (r: Vec<VerseLine>)
    requires
        lo <= hi <= nodes@.len(),
    ensures
        r@ == verse_lines(nodes_view(nodes@), lo as int, hi as int),
{
    let mut out: Vec<VerseLine> = Vec::new();
    let mut k: usize = lo;
    while k < hi
        invariant
            lo <= k <= hi <= nodes@.len(),
            out@ == verse_lines(nodes_view(nodes@), lo as int, k as int),
        decreases hi - k,
    {
        if named(nodes, k, "p") {
            out.push(verse_line_at(nodes, k));
        }
        k += 1;
    }
    out
}

/// The flags of the `<p>` elements among the nodes from `lo` up to `hi`: verse, stanza start and
/// verse end.
pub fn detect_verse_paragraphs(nodes: &Vec<TreeNode>, lo: usize, hi: usize) -> (r: (
    Vec<bool>,
    Vec<bool>,
    Vec<bool>,
))
    requires
        lo <= hi <= nodes@.len(),
    ensures
        ({
            let ls = verse_lines(nodes_view(nodes@), lo as int, hi as int);
            &&& r.0@ == Seq::new(ls.len(), |k: int| is_verse_line(ls, k))
            &&& r.1@ == Seq::new(ls.len(), |k: int| is_stanza_start(ls, k))
            &&& r.2@ == Seq::new(ls.len(), |k: int| is_verse_end(ls, k))
        }),
{
    let lines = collect_verse_lines(nodes, lo, hi);
    verse_flags(&lines)
}

/// Lines of verse with the flags found for them.
struct FlaggedLines {
    lines: Ghost<Seq<VerseLine>>,
    is_verse: Vec<bool>,
    stanza_start: Vec<bool>,
    verse_end: Vec<bool>,
}

impl FlaggedLines {
    spec fn wf(&self) -> bool {
        &&& self.is_verse@ == Seq::new(self.lines@.len(), |k: int| is_verse_line(self.lines@, k))
        &&& self.stanza_start@ == Seq::new(
            self.lines@.len(),
            |k: int| is_stanza_start(self.lines@, k),
        )
        &&& self.verse_end@ == Seq::new(self.lines@.len(), |k: int| is_verse_end(self.lines@, k))
    }
}

fn add_verse_spans(t: TextAndSpans) -> (r: TextAndSpans)
    ensures
        r@ == (TextView { text: t@.text, spans: verse_spans(t@) }),
{
    let TextAndSpans { text, mut spans } = t;
    let ghost spans0 = spans@;
    if let Some(len) = leading_number_len(text.as_str()) {
        let span = Span { start: 0, end: len, span_type: "stanza_number".to_owned(), href: None };
        spans.push(span);
        assert(spans_view(spans@) == spans_view(spans0).push(span@));
    }
    let ghost spans1 = spans@;
    let total_len: usize = text.as_str().unicode_len();
    if let Some(len) = trailing_number_len(text.as_str()) {
        if len < total_len {
            let span = Span {
                start: total_len - len,
                end: total_len,
                span_type: "line_number".to_owned(),
                href: None,
            };
            spans.push(span);
            assert(spans_view(spans@) == spans_view(spans1).push(span@));
        }
    }
    TextAndSpans { text, spans }
}

fn make_paragraph(
    nodes: &Vec<TreeNode>,
    i: usize,
    path: &str,
    flagged: &FlaggedLines,
    p: usize,
) -> (r:
    Option<ChapterElement>)
    requires
        i < nodes@.len(),
        flagged.wf(),
    ensures
        match r {
            Some(e) => paragraph_at(nodes_view(nodes@), i as int, path@, flagged.lines@, p as int)
                == Some(e@),
            None => paragraph_at(nodes_view(nodes@), i as int, path@, flagged.lines@, p as int) is None,
        },
{
    let numbered = named(nodes, i, "p") && p < flagged.is_verse.len();
    let is_verse = numbered && flagged.is_verse[p];
    let t = extract_text_and_spans(nodes, i);
    if t.text.as_str().is_empty() {
        return None;
    }
    let node_type = if named(nodes, i, "blockquote") {
        "blockquote".to_owned()
    } else if is_verse {
        "verse_line".to_owned()
    } else {
        "paragraph".to_owned()
    };
    let t = if is_verse {
        add_verse_spans(t)
    } else {
        t
    };
    let e = end_of(nodes, i);
    let footnotes = note_refs(nodes, i + 1, e);
    Some(
        ChapterElement::Paragraph {
            node_type,
            text: t.text,
            spans: t.spans,
            source_file: path.to_owned(),
            footnotes,
            element_ids: anchors_at(nodes, i),
                own_id: anchor_at(nodes, i).is_some(),
            stanza_start: numbered && flagged.stanza_start[p],
            verse_end: numbered && flagged.verse_end[p],
        },
    )
}

fn attr_or_empty(nodes: &Vec<TreeNode>, i: usize, name: &str) -> (r: String)
    requires
        i < nodes@.len(),
    ensures
        r@ == or_empty(attr(nodes_view(nodes@)[i as int], name@)),
{
    match attr_of(nodes, i, name) {
        Some(v) => v.to_owned(),
        None => String::new(),
    }
}

fn address_of<'a>(nodes: &'a Vec<TreeNode>, i: usize) -> (r: Option<&'a str>)
    requires
        i < nodes@.len(),
    ensures
        match r {
            Some(v) => image_address(nodes_view(nodes@)[i as int]) == Some(v@),
            None => image_address(nodes_view(nodes@)[i as int]) is None,
        },
{
    let src = attr_of(nodes, i, "src");
    if src.is_some() {
        return src;
    }
    let written = attr_of(nodes, i, "xlink:href");
    if written.is_some() {
        return written;
    }
    let link = attr_in_namespace(nodes, i, XLINK, "href");
    if link.is_some() {
        return link;
    }
    attr_of(nodes, i, "href")
}

fn make_image(nodes: &Vec<TreeNode>, i: usize) -> (r: Option<ChapterElement>)
    requires
        i < nodes@.len(),
    ensures
        ({
            let n = nodes_view(nodes@)[i as int];
            match image_address(n) {
                Some(src) => r matches Some(e) && e@ == (ElementView::Image {
                    src,
                    alt: or_empty(attr(n, "alt"@)),
                    caption: or_empty(attr(n, "title"@)),
                    element_ids: anchors(nodes_view(nodes@), i as int),
                    own_id: anchor_of(n) is Some,
                }),
                None => r is None,
            }
        }),
{
    let src = match address_of(nodes, i) {
        Some(v) => v,
        None => return None,
    };
    Some(
        ChapterElement::Image {
            src: src.to_owned(),
            alt: attr_or_empty(nodes, i, "alt"),
            caption: attr_or_empty(nodes, i, "title"),
            element_ids: anchors_at(nodes, i),
                own_id: anchor_at(nodes, i).is_some(),
        },
    )
}

fn make_element(
    nodes: &Vec<TreeNode>,
    i: usize,
    path: &str,
    flagged: &FlaggedLines,
    p: usize,
) -> (r:
    Option<ChapterElement>)
    requires
        i < nodes@.len(),
        flagged.wf(),
    ensures
        match r {
            Some(e) => element_at(nodes_view(nodes@), i as int, path@, flagged.lines@, p as int)
                == Some(e@),
            None => element_at(nodes_view(nodes@), i as int, path@, flagged.lines@, p as int) is None,
        },
{
    if named(nodes, i, "img") || (named(nodes, i, "image") && is_below(nodes, i, "svg")) {
        make_image(nodes, i)
    } else if named(nodes, i, "hr") {
        Some(ChapterElement::ThematicBreak {
            element_ids: anchors_at(nodes, i),
            own_id: anchor_at(nodes, i).is_some(),
        })
    } else if named(nodes, i, "table") {
        let e = end_of(nodes, i);
        let rows = table_rows(nodes, i + 1, e);
        Some(
            ChapterElement::Table {
                text: table_text(&rows),
                rows,
                source_file: path.to_owned(),
                element_ids: anchors_at(nodes, i),
                own_id: anchor_at(nodes, i).is_some(),
            },
        )
    } else if let Some(level) = level_of(nodes, i) {
        let t = extract_text_and_spans(nodes, i);
        if t.text.as_str().is_empty() {
            None
        } else {
            Some(
                ChapterElement::Heading {
                    level,
                    text: t.text,
                    spans: t.spans,
                    element_ids: anchors_at(nodes, i),
                own_id: anchor_at(nodes, i).is_some(),
                },
            )
        }
    } else if named(nodes, i, "ul") || named(nodes, i, "ol") {
        if is_nested_in_list_item(nodes, i) {
            return None;
        }
        let t = extract_text_and_spans(nodes, i);
        if t.text.as_str().is_empty() {
            return None;
        }
        let e = end_of(nodes, i);
        Some(
            ChapterElement::List {
                ordered: named(nodes, i, "ol"),
                text: t.text,
                spans: t.spans,
                items: build_list_items(nodes, i + 1, e),
                source_file: path.to_owned(),
                element_ids: anchors_at(nodes, i),
                own_id: anchor_at(nodes, i).is_some(),
            },
        )
    } else if named(nodes, i, "div") {
        if !is_leaf_content_div(nodes, i) || is_nested_in_list_item(nodes, i) {
            return None;
        }
        make_paragraph(nodes, i, path, flagged, p)
    } else if named(nodes, i, "blockquote") {
        if !is_leaf_content_div(nodes, i) {
            return None;
        }
        make_paragraph(nodes, i, path, flagged, p)
    } else if named(nodes, i, "p") {
        make_paragraph(nodes, i, path, flagged, p)
    } else {
        None
    }
}

fn find_body(nodes: &Vec<TreeNode>) -> (r: Option<usize>)
    ensures
        match r {
            Some(b) => b < nodes@.len() && body(nodes_view(nodes@)) == Some(b as int),
            None => body(nodes_view(nodes@)) is None,
        },
{
    let ghost d = nodes_view(nodes@);
    let ghost p = |k: int| is_named(d[k], "body"@) && parent(d, k) is Some;
    let mut best: Option<usize> = None;
    let mut k: usize = 0;
    while k < nodes.len()
        invariant
            k <= nodes@.len(),
            d == nodes_view(nodes@),
            p == (|k: int| is_named(d[k], "body"@) && parent(d, k) is Some),
            match best {
                Some(b) => b < k && earliest(d, p, k as int) == Some(b as int),
                None => earliest(d, p, k as int) is None,
            },
        decreases nodes@.len() - k,
    {
        if named(nodes, k, "body") && parent_of(nodes, k).is_some() {
            match best {
                Some(b) => {
                    if nodes[k].rank < nodes[b].rank {
                        best = Some(k);
                    }
                },
                None => {
                    best = Some(k);
                },
            }
        }
        k += 1;
    }
    best
}

/// The block elements of a parsed document.
pub fn chapter_elements(nodes: &Vec<TreeNode>, chapter_path: &str) -> (r: Vec<ChapterElement>)
    ensures
        elements_view(r@) == chapter(nodes_view(nodes@), chapter_path@),
{
    let ghost d = nodes_view(nodes@);
    let mut out: Vec<ChapterElement> = Vec::new();
    assert(elements_view(out@) == Seq::<ElementView>::empty());
    let b = match find_body(nodes) {
        Some(b) => b,
        None => return out,
    };
    let hi = end_of(nodes, b);
    let lo: usize = b + 1;
    let (is_verse, stanza_start, verse_end) = detect_verse_paragraphs(nodes, lo, hi);
    let lines = Ghost(verse_lines(d, lo as int, hi as int));
    let flagged = FlaggedLines { lines, is_verse, stanza_start, verse_end };
    let mut p: usize = 0;
    let mut k: usize = lo;
    while k < hi
        invariant
            lo <= k <= hi <= nodes@.len(),
            d == nodes_view(nodes@),
            flagged.wf(),
            p == verse_lines(d, lo as int, k as int).len(),
            p <= k - lo,
            elements_view(out@) == elements_in(
                d,
                lo as int,
                k as int,
                chapter_path@,
                flagged.lines@,
            ),
        decreases hi - k,
    {
        let ghost before = out@;
        if let Some(e) = make_element(nodes, k, chapter_path, &flagged, p) {
            out.push(e);
            assert(elements_view(out@) == elements_view(before).push(e@));
        }
        if named(nodes, k, "p") {
            p += 1;
        }
        k += 1;
    }
    out
}

// ---------------------------------------------------------------------------
// Page markers
// ---------------------------------------------------------------------------

/// The tag, which closes with its last character, is self-closing.
pub open spec fn is_self_closing(tag: Seq<char>) -> bool {
    let t = trim_end(tag.drop_last());
    t.len() > 0 && t.last() == '/'
}

/// `html` from `from` on, without its page markers: each `<span>` whose opening tag says that it
/// is a page break, up to the end of the tag if that is self-closing or is never closed, and up
/// to the end of the closing tag otherwise.
pub open spec fn without_page_markers(html: Seq<char>, from: int) -> Seq<char>
    decreases html.len() - from,
{
    let start = find_from(html, "<span"@, from);
    if from < 0 || from > html.len() {
        Seq::empty()
    } else if start is None || char_pos(html, '>', start->0) >= html.len() {
        html.skip(from)
    } else {
        proof {
            lemma_find_from(html, "<span"@, from);
            lemma_char_pos(html, '>', start->0);
        }
        let close = char_pos(html, '>', start->0);
        let tag = html.subrange(start->0, close + 1);
        if !contains(tag, "epub:type=\"pagebreak"@) {
            html.subrange(from, close + 1) + without_page_markers(html, close + 1)
        } else {
            let end = find_from(html, "</span>"@, close + 1);
            let next = if is_self_closing(tag) || end is None {
                close + 1
            } else {
                proof {
                    lemma_find_from(html, "</span>"@, close + 1);
                }
                end->0 + "</span>"@.len()
            };
            html.subrange(from, start->0) + without_page_markers(html, next)
        }
    }
}

/// Appends the characters `v[lo..hi]` to `out`.
fn push_range(out: &mut String, v: &Vec<char>, lo: usize, hi: usize)
    requires
        lo <= hi <= v@.len(),
    ensures
        final(out)@ == old(out)@ + v@.subrange(lo as int, hi as int),
{
    let ghost before = out@;
    let mut i: usize = lo;
    while i < hi
        invariant
            lo <= i <= hi <= v@.len(),
            out@ == before + v@.subrange(lo as int, i as int),
        decreases hi - i,
    {
        out.push(v[i]);
        i += 1;
        assert(v@.subrange(lo as int, i as int) == v@.subrange(lo as int, i - 1).push(v@[i - 1]));
    }
}

/// Removes the page markers of print editions from the text of a chapter.
pub fn strip_pagebreak_markers(html: &str) -> (r: String)
    ensures
        r@ == without_page_markers(html@, 0),
{
    let v = chars_of(html);
    let open = chars_of("<span");
    let close_tag = chars_of("</span>");
    let mut out = String::new();
    let mut from: usize = 0;
    loop
        invariant
            v@ == html@,
            open@ == "<span"@,
            close_tag@ == "</span>"@,
            from <= v@.len(),
            without_page_markers(v@, 0) == out@ + without_page_markers(v@, from as int),
        decreases v@.len() - from,
    {
        proof {
            lemma_find_from(v@, "<span"@, from as int);
            reveal_strlit("<span");
        }
        let start = match find_pos(&v, &open, from) {
            Some(i) => i,
            None => {
                push_range(&mut out, &v, from, v.len());
                assert(v@.subrange(from as int, v@.len() as int) == v@.skip(from as int));
                return out;
            },
        };
        proof {
            lemma_char_pos(v@, '>', start as int);
        }
        let close = find_char(&v, '>', start);
        if close == v.len() {
            push_range(&mut out, &v, from, v.len());
            assert(v@.subrange(from as int, v@.len() as int) == v@.skip(from as int));
            return out;
        }
        let tag = text_of(&v, start, close + 1);
        let ghost before = out@;
        if !contains_text(tag.as_str(), "epub:type=\"pagebreak") {
            push_range(&mut out, &v, from, close + 1);
            assert(out@ + without_page_markers(v@, close + 1) == before + (v@.subrange(
                from as int,
                close + 1,
            ) + without_page_markers(v@, close + 1)));
            from = close + 1;
            continue ;
        }
        push_range(&mut out, &v, from, start);
        let mut last: usize = close;
        assert(tag@.drop_last() == v@.subrange(start as int, close as int));
        while start < last && is_white(v[last - 1])
            invariant
                start <= last <= close < v@.len(),
                trim_end(v@.subrange(start as int, close as int)) == trim_end(
                    v@.subrange(start as int, last as int),
                ),
            decreases last - start,
        {
            assert(v@.subrange(start as int, last as int).drop_last() == v@.subrange(
                start as int,
                last - 1,
            ));
            last -= 1;
        }
        assert(start < last ==> v@.subrange(start as int, last as int).last() == v@[last - 1]);
        let self_closing = start < last && v[last - 1] == '/';
        assert(self_closing == is_self_closing(tag@));
        let mut next: usize = close + 1;
        if !self_closing {
            if let Some(end) = find_pos(&v, &close_tag, close + 1) {
                next = end + close_tag.len();
            }
        }
        assert(out@ + without_page_markers(v@, next as int) == before + (v@.subrange(
            from as int,
            start as int,
        ) + without_page_markers(v@, next as int)));
        from = next;
    }
}

/// Parses a chapter: the document without its page markers, and the block elements of its body.
pub fn parse_chapter_html(html_content: &str, chapter_path: &str) -> (r: (
    HtmlDocument,
    Vec<ChapterElement>,
))
    ensures
        r.0.wf(),
        r.0.source@ == without_page_markers(html_content@, 0),
        elements_view(r.1@) == chapter(
            document_nodes(without_page_markers(html_content@, 0)),
            chapter_path@,
        ),
{
    let cleaned = strip_pagebreak_markers(html_content);
    let document = HtmlDocument::parse(cleaned);
    let elements = chapter_elements(&document.nodes, chapter_path);
    (document, elements)
}

// ---------------------------------------------------------------------------
// Notes
// ---------------------------------------------------------------------------

/// The note that the element of node `i` holds, if it has any text.
pub open spec fn note_at(
    d: Seq<NodeView>,
    i: int,
    anchor_id: Seq<char>,
    label: Seq<char>,
) -> Option<NoteView> {
    let t = extracted(d, i, false);
    if t.text.len() == 0 {
        None
    } else {
        Some(NoteView { anchor_id, label, text: t.text, spans: t.spans })
    }
}

/// Node `k` is an element with this anchor that has text.
pub open spec fn is_note_target(d: Seq<NodeView>, anchor_id: Seq<char>, k: int) -> bool {
    &&& attr(d[k], "id"@) == Some(anchor_id) || attr(d[k], "name"@) == Some(anchor_id)
    &&& extracted(d, k, false).text.len() > 0
}

/// The first node of this rank.
pub open spec fn node_of_rank(d: Seq<NodeView>, rank: int, k: int) -> Option<int>
    decreases d.len() - k,
{
    if k < 0 || k >= d.len() {
        None
    } else if d[k].rank == rank {
        Some(k)
    } else {
        node_of_rank(d, rank, k + 1)
    }
}

/// The note that an anchor leads to, where `selected` is the rank of the element that the
/// selector `#anchor` finds: that element, if it has text, and else the earliest element with
/// text whose `id` or `name` is the anchor.
pub open spec fn footnote(
    d: Seq<NodeView>,
    selected: Option<int>,
    anchor_id: Seq<char>,
    label: Seq<char>,
) -> Option<NoteView> {
    let direct = match selected {
        Some(rank) => match node_of_rank(d, rank, 0) {
            Some(i) => note_at(d, i, anchor_id, label),
            None => None,
        },
        None => None,
    };
    if direct is Some {
        direct
    } else {
        match earliest(d, |k: int| is_note_target(d, anchor_id, k), d.len() as int) {
            Some(i) => note_at(d, i, anchor_id, label),
            None => None,
        }
    }
}

fn make_note(nodes: &Vec<TreeNode>, i: usize, anchor_id: &str, label: &str) -> (r: Option<
    ResolvedFootnote,
>)
    requires
        i < nodes@.len(),
    ensures
        match r {
            Some(n) => note_at(nodes_view(nodes@), i as int, anchor_id@, label@) == Some(n@),
            None => note_at(nodes_view(nodes@), i as int, anchor_id@, label@) is None,
        },
{
    let t = extract_text_and_spans(nodes, i);
    if t.text.as_str().is_empty() {
        None
    } else {
        Some(
            ResolvedFootnote {
                anchor_id: anchor_id.to_owned(),
                label: label.to_owned(),
                text: t.text,
                spans: t.spans,
            },
        )
    }
}

fn attr_is(nodes: &Vec<TreeNode>, i: usize, name: &str, value: &str) -> (r: bool)
    requires
        i < nodes@.len(),
    ensures
        r == (attr(nodes_view(nodes@)[i as int], name@) == Some(value@)),
{
    match attr_of(nodes, i, name) {
        Some(v) => same_text(v, value),
        None => false,
    }
}

/// The note that an anchor leads to in a document, given the rank of the element that the
/// selector `#anchor` finds there.
pub fn footnote_for(
    nodes: &Vec<TreeNode>,
    selected: Option<usize>,
    anchor_id: &str,
    label: &str,
) -> (r: Option<ResolvedFootnote>)
    ensures
        ({
            let rank = match selected {
                Some(s) => Some(s as int),
                None => None,
            };
            match r {
                Some(n) => footnote(nodes_view(nodes@), rank, anchor_id@, label@) == Some(n@),
                None => footnote(nodes_view(nodes@), rank, anchor_id@, label@) is None,
            }
        }),
{
    let ghost d = nodes_view(nodes@);
    if let Some(rank) = selected {
        let mut k: usize = 0;
        let mut found: Option<usize> = None;
        while k < nodes.len()
            invariant_except_break
                found is None,
                k <= nodes@.len(),
                d == nodes_view(nodes@),
                node_of_rank(d, rank as int, 0) == node_of_rank(d, rank as int, k as int),
            ensures
                match found {
                    Some(i) => i < nodes@.len() && node_of_rank(d, rank as int, 0) == Some(i as int),
                    None => node_of_rank(d, rank as int, 0) is None,
                },
            decreases nodes@.len() - k,
        {
            if nodes[k].rank == rank {
                found = Some(k);
                break ;
            }
            k += 1;
        }
        if let Some(i) = found {
            let note = make_note(nodes, i, anchor_id, label);
            if note.is_some() {
                return note;
            }
        }
    }
    let ghost p = |k: int| is_note_target(d, anchor_id@, k);
    let mut best: Option<usize> = None;
    let mut k: usize = 0;
    while k < nodes.len()
        invariant
            k <= nodes@.len(),
            d == nodes_view(nodes@),
            p == (|k: int| is_note_target(d, anchor_id@, k)),
            match best {
                Some(b) => b < k && earliest(d, p, k as int) == Some(b as int) && p(b as int),
                None => earliest(d, p, k as int) is None,
            },
        decreases nodes@.len() - k,
    {
        if (attr_is(nodes, k, "id", anchor_id) || attr_is(nodes, k, "name", anchor_id))
            && !extract_text_and_spans(nodes, k).text.as_str().is_empty() {
            assert(p(k as int));
            match best {
                Some(b) => {
                    if nodes[k].rank < nodes[b].rank {
                        best = Some(k);
                    }
                },
                None => {
                    best = Some(k);
                },
            }
        } else {
            assert(!p(k as int));
        }
        k += 1;
    }
    match best {
        Some(b) => make_note(nodes, b, anchor_id, label),
        None => None,
    }
}

/// Resolves the note that an anchor leads to in a document.
pub fn resolve_footnote(document: &HtmlDocument, anchor_id: &str, label: &str) -> (r: Option<
    ResolvedFootnote,
>)
    requires
        document.wf(),
    ensures
        ({
            let rank = css_first(document.source@, "#"@ + anchor_id@);
            let d = document_nodes(document.source@);
            match r {
                Some(n) => footnote(d, rank, anchor_id@, label@) == Some(n@),
                None => footnote(d, rank, anchor_id@, label@) is None,
            }
        }),
{
    let mut selector = "#".to_owned();
    selector.append(anchor_id);
    let selected = select_first(document.source.as_str(), selector.as_str());
    footnote_for(&document.nodes, selected, anchor_id, label)
}

// ---------------------------------------------------------------------------
// Metadata
// ---------------------------------------------------------------------------

/// The tag is real formatting or structure, which is stripped; any other is kept as literal text.
pub open spec fn is_known(tag: Seq<char>) -> bool {
    ||| tag == "p"@
    ||| tag == "div"@
    ||| tag == "br"@
    ||| tag == "li"@
    ||| tag == "ul"@
    ||| tag == "ol"@
    ||| tag == "table"@
    ||| tag == "tbody"@
    ||| tag == "thead"@
    ||| tag == "tr"@
    ||| tag == "blockquote"@
    ||| tag == "h1"@
    ||| tag == "h2"@
    ||| tag == "h3"@
    ||| tag == "h4"@
    ||| tag == "h5"@
    ||| tag == "h6"@
    ||| tag == "b"@
    ||| tag == "strong"@
    ||| tag == "i"@
    ||| tag == "em"@
    ||| tag == "u"@
    ||| tag == "span"@
    ||| tag == "small"@
    ||| tag == "sup"@
    ||| tag == "sub"@
    ||| tag == "s"@
    ||| tag == "strike"@
    ||| tag == "del"@
    ||| tag == "ins"@
    ||| tag == "mark"@
    ||| tag == "abbr"@
    ||| tag == "cite"@
    ||| tag == "q"@
    ||| tag == "code"@
    ||| tag == "tt"@
    ||| tag == "big"@
    ||| tag == "font"@
    ||| tag == "a"@
}

/// The tag breaks the line.
pub open spec fn breaks_line(tag: Seq<char>) -> bool {
    ||| tag == "p"@
    ||| tag == "div"@
    ||| tag == "br"@
    ||| tag == "li"@
    ||| tag == "h1"@
    ||| tag == "h2"@
    ||| tag == "h3"@
    ||| tag == "h4"@
    ||| tag == "h5"@
    ||| tag == "h6"@
    ||| tag == "tr"@
}

/// The first `k` attributes, as they are written in literal text.
pub open spec fn literal_attrs(attrs: Seq<AttrView>, k: int) -> Seq<char>
    decreases k,
{
    if k <= 0 {
        Seq::empty()
    } else {
        let a = attrs[k - 1];
        let name = literal_attrs(attrs, k - 1) + seq![' '] + a.local;
        if a.value.len() == 0 {
            name
        } else {
            name + seq!['='] + a.value
        }
    }
}

/// The opening tag of an element, as literal text.
pub open spec fn literal_tag(n: NodeView) -> Seq<char> {
    match n.value {
        ValueView::Element { attrs, .. } => seq!['<'] + tag_of(n) + literal_attrs(
            attrs,
            attrs.len() as int,
        ) + seq!['>'],
        _ => Seq::empty(),
    }
}

/// The siblings from `lo` up to `hi` as literal text: known tags are stripped, any other opening
/// tag is written out.
pub open spec fn literal_text(d: Seq<NodeView>, lo: int, hi: int) -> Seq<char>
    decreases hi - lo,
{
    if lo >= hi {
        Seq::empty()
    } else {
        let e = node_end(d, lo, hi);
        let own = match d[lo].value {
            ValueView::Text(t) => t,
            ValueView::Element { .. } => if is_known(tag_of(d[lo])) {
                literal_text(d, lo + 1, e)
            } else {
                literal_tag(d[lo]) + literal_text(d, lo + 1, e)
            },
            ValueView::Other => Seq::empty(),
        };
        own + literal_text(d, e, hi)
    }
}

/// The finished lines of a metadata text, and the line being written.
#[verifier::ext_equal]
pub struct LinesView {
    pub line: Seq<char>,
    pub lines: Seq<Seq<char>>,
}

impl LinesView {
    /// After a piece of text, trimmed; a space sets it off from what is before it on the line.
    pub open spec fn write(self, text: Seq<char>) -> LinesView {
        let clean = trimmed(text);
        if clean.len() == 0 {
            self
        } else if self.line.len() > 0 && self.line.last() != ' ' {
            LinesView { line: self.line.push(' ') + clean, lines: self.lines }
        } else {
            LinesView { line: self.line + clean, lines: self.lines }
        }
    }

    /// After a line break, which leaves no empty lines behind.
    pub open spec fn end_line(self) -> LinesView {
        if trimmed(self.line).len() == 0 {
            self
        } else {
            LinesView { line: Seq::empty(), lines: self.lines.push(trimmed(self.line)) }
        }
    }
}

/// The lines after the siblings from `lo` up to `hi`.
pub open spec fn lines_after(d: Seq<NodeView>, lo: int, hi: int, st: LinesView) -> LinesView
    decreases hi - lo,
{
    if lo >= hi {
        st
    } else {
        let e = node_end(d, lo, hi);
        let tag = tag_of(d[lo]);
        let after = match d[lo].value {
            ValueView::Text(t) => st.write(t),
            ValueView::Element { .. } => if !is_known(tag) {
                st.write(literal_tag(d[lo]) + literal_text(d, lo + 1, e))
            } else if breaks_line(tag) {
                lines_after(d, lo + 1, e, st.end_line()).end_line()
            } else {
                lines_after(d, lo + 1, e, st)
            },
            ValueView::Other => st,
        };
        lines_after(d, e, hi, after)
    }
}

/// The first child of the root that is an element.
pub open spec fn root_from(d: Seq<NodeView>, k: int) -> Option<int>
    decreases d.len() - k,
{
    if k < 0 || k >= d.len() {
        None
    } else if d[k].value is Element {
        Some(k)
    } else {
        let e = node_end(d, k, d.len() as int);
        root_from(d, e)
    }
}

/// The lines of the tree of a metadata text.
pub open spec fn metadata_lines(d: Seq<NodeView>) -> Seq<Seq<char>> {
    match root_from(d, 1) {
        Some(r) => lines_after(
            d,
            r + 1,
            subtree_end(d, r),
            LinesView { line: Seq::empty(), lines: Seq::empty() },
        ).end_line().lines,
        None => Seq::empty(),
    }
}

/// A metadata text as plain text, given the tree of it as an HTML fragment.
pub open spec fn plain_metadata(input: Seq<char>, d: Seq<NodeView>) -> Seq<char> {
    if !input.contains('<') && !input.contains('&') {
        trimmed(input)
    } else if metadata_lines(d).len() == 0 {
        trimmed(input)
    } else {
        join(metadata_lines(d), "\n\n"@)
    }
}

fn is_known_tag(tag: &str) -> (r: bool)
    ensures
        r == is_known(tag@),
{
    same_text(tag, "p") || same_text(tag, "div") || same_text(tag, "br") || same_text(tag, "li")
        || same_text(tag, "ul") || same_text(tag, "ol") || same_text(tag, "table")
        || same_text(tag, "tbody") || same_text(tag, "thead") || same_text(tag, "tr")
        || same_text(tag, "blockquote") || same_text(tag, "h1") || same_text(tag, "h2")
        || same_text(tag, "h3") || same_text(tag, "h4") || same_text(tag, "h5")
        || same_text(tag, "h6") || same_text(tag, "b") || same_text(tag, "strong")
        || same_text(tag, "i") || same_text(tag, "em") || same_text(tag, "u")
        || same_text(tag, "span") || same_text(tag, "small") || same_text(tag, "sup")
        || same_text(tag, "sub") || same_text(tag, "s") || same_text(tag, "strike")
        || same_text(tag, "del") || same_text(tag, "ins") || same_text(tag, "mark")
        || same_text(tag, "abbr") || same_text(tag, "cite") || same_text(tag, "q")
        || same_text(tag, "code") || same_text(tag, "tt") || same_text(tag, "big")
        || same_text(tag, "font") || same_text(tag, "a")
}

fn is_line_break(tag: &str) -> (r: bool)
    ensures
        r == breaks_line(tag@),
{
    same_text(tag, "p") || same_text(tag, "div") || same_text(tag, "br") || same_text(tag, "li")
        || same_text(tag, "h1") || same_text(tag, "h2") || same_text(tag, "h3")
        || same_text(tag, "h4") || same_text(tag, "h5") || same_text(tag, "h6")
        || same_text(tag, "tr")
}

fn write_tag(nodes: &Vec<TreeNode>, i: usize, tag: &str, out: &mut String)
    requires
        i < nodes@.len(),
        nodes_view(nodes@)[i as int].value is Element,
        tag@ == tag_of(nodes_view(nodes@)[i as int]),
    ensures
        final(out)@ == old(out)@ + literal_tag(nodes_view(nodes@)[i as int]),
{
    let ghost start = out@;
    out.push('<');
    out.append(tag);
    match &nodes[i].value {
        TreeValue::Element { attrs, .. } => {
            let ghost a = attrs@.map_values(|a: TreeAttr| a@);
            let mut k: usize = 0;
            assert(out@ == start + seq!['<'] + tag@ + literal_attrs(a, 0));
            while k < attrs.len()
                invariant
                    k <= attrs@.len(),
                    a == attrs@.map_values(|a: TreeAttr| a@),
                    out@ == start + seq!['<'] + tag@ + literal_attrs(a, k as int),
                decreases attrs@.len() - k,
            {
                let ghost before = out@;
                assert(a[k as int] == attrs@[k as int]@);
                out.push(' ');
                out.append(attrs[k].local.as_str());
                if !attrs[k].value.as_str().is_empty() {
                    out.push('=');
                    out.append(attrs[k].value.as_str());
                }
                k += 1;
                assert(out@ == start + seq!['<'] + tag@ + literal_attrs(a, k as int));
            }
            out.push('>');
            assert(out@ == start + literal_tag(nodes_view(nodes@)[i as int]));
        },
        _ => {},
    }
}

fn render_literal(nodes: &Vec<TreeNode>, lo: usize, hi: usize, out: &mut String)
    requires
        lo <= hi <= nodes@.len(),
    ensures
        final(out)@ == old(out)@ + literal_text(nodes_view(nodes@), lo as int, hi as int),
    decreases hi - lo,
{
    let ghost d = nodes_view(nodes@);
    let ghost start = out@;
    let mut k: usize = lo;
    while k < hi
        invariant
            lo <= k <= hi <= nodes@.len(),
            d == nodes_view(nodes@),
            start + literal_text(d, lo as int, hi as int) == out@ + literal_text(
                d,
                k as int,
                hi as int,
            ),
        decreases hi - k,
    {
        let e = end_within(nodes, k, hi);
        let ghost before = out@;
        let ghost rest = literal_text(d, e as int, hi as int);
        match &nodes[k].value {
            TreeValue::Text(t) => {
                out.append(t.as_str());
                assert(out@ + rest == before + (t@ + rest));
            },
            TreeValue::Element { name, .. } => {
                let tag = lower_text(name.as_str());
                assert(tag@ == tag_of(d[k as int]));
                let ghost inner = literal_text(d, k + 1, e as int);
                if is_known_tag(tag.as_str()) {
                    render_literal(nodes, k + 1, e, out);
                    assert(out@ + rest == before + (inner + rest));
                } else {
                    write_tag(nodes, k, tag.as_str(), out);
                    render_literal(nodes, k + 1, e, out);
                    assert(out@ + rest == before + (literal_tag(d[k as int]) + inner + rest));
                }
            },
            TreeValue::Other => {
                assert(Seq::<char>::empty() + rest == rest);
            },
        }
        k = e;
    }
}

/// Lines of metadata text being written.
struct MetadataLines {
    line: String,
    lines: Vec<String>,
}

impl View for MetadataLines {
    type V = LinesView;

    closed spec fn view(&self) -> LinesView {
        LinesView { line: self.line@, lines: texts(self.lines@) }
    }
}

impl MetadataLines {
    fn write(&mut self, text: &str)
        ensures
            final(self)@ == old(self)@.write(text@),
    {
        let clean = trim_text(text);
        if clean.as_str().is_empty() {
            return ;
        }
        let n: usize = self.line.as_str().unicode_len();
        if n > 0 && self.line.as_str().get_char(n - 1) != ' ' {
            self.line.push(' ');
        }
        self.line.append(clean.as_str());
    }

    fn end_line(&mut self)
        ensures
            final(self)@ == old(self)@.end_line(),
    {
        let clean = trim_text(self.line.as_str());
        if clean.as_str().is_empty() {
            return ;
        }
        let ghost before = self.lines@;
        self.lines.push(clean);
        self.line = String::new();
        assert(texts(self.lines@) == texts(before).push(clean@));
    }
}

fn walk_lines(nodes: &Vec<TreeNode>, lo: usize, hi: usize, st: &mut MetadataLines)
    requires
        lo <= hi <= nodes@.len(),
    ensures
        final(st)@ == lines_after(nodes_view(nodes@), lo as int, hi as int, old(st)@),
    decreases hi - lo,
{
    let ghost d = nodes_view(nodes@);
    let ghost start = st@;
    let mut k: usize = lo;
    while k < hi
        invariant
            lo <= k <= hi <= nodes@.len(),
            d == nodes_view(nodes@),
            lines_after(d, lo as int, hi as int, start) == lines_after(d, k as int, hi as int, st@),
        decreases hi - k,
    {
        let e = end_within(nodes, k, hi);
        match &nodes[k].value {
            TreeValue::Text(t) => {
                st.write(t.as_str());
            },
            TreeValue::Element { name, .. } => {
                let tag = lower_text(name.as_str());
                assert(tag@ == tag_of(d[k as int]));
                if !is_known_tag(tag.as_str()) {
                    let mut literal = String::new();
                    write_tag(nodes, k, tag.as_str(), &mut literal);
                    render_literal(nodes, k + 1, e, &mut literal);
                    assert(literal@ == literal_tag(d[k as int]) + literal_text(d, k + 1, e as int));
                    st.write(literal.as_str());
                } else if is_line_break(tag.as_str()) {
                    st.end_line();
                    walk_lines(nodes, k + 1, e, st);
                    st.end_line();
                } else {
                    walk_lines(nodes, k + 1, e, st);
                }
            },
            TreeValue::Other => {},
        }
        k = e;
    }
}

/// The first child element of the root of a parsed text.
pub fn root_element(nodes: &Vec<TreeNode>) -> (r: Option<usize>)
    ensures
        match r {
            Some(i) => i < nodes@.len() && root_from(nodes_view(nodes@), 1) == Some(i as int),
            None => root_from(nodes_view(nodes@), 1) is None,
        },
{
    let ghost d = nodes_view(nodes@);
    let total: usize = nodes.len();
    if total == 0 {
        return None;
    }
    let mut k: usize = 1;
    while k < total
        invariant
            1 <= k <= total == nodes@.len(),
            d == nodes_view(nodes@),
            root_from(d, 1) == root_from(d, k as int),
        decreases total - k,
    {
        match &nodes[k].value {
            TreeValue::Element { .. } => return Some(k),
            _ => {},
        }
        k = end_within(nodes, k, total);
    }
    None
}

/// The plain text of a metadata text, given the tree of it as an HTML fragment: tags are
/// stripped, and each block stands on a line of its own.
pub fn plain_metadata_text(input: &str, nodes: &Vec<TreeNode>) -> (r: String)
    ensures
        r@ == plain_metadata(input@, nodes_view(nodes@)),
{
    if !contains_char(input, '<') && !contains_char(input, '&') {
        return trim_text(input);
    }
    let root = match root_element(nodes) {
        Some(i) => i,
        None => return trim_text(input),
    };
    let mut st = MetadataLines { line: String::new(), lines: Vec::new() };
    assert(st@ == (LinesView { line: Seq::empty(), lines: Seq::empty() }));
    let e = end_of(nodes, root);
    walk_lines(nodes, root + 1, e, &mut st);
    st.end_line();
    assert(texts(st.lines@) == metadata_lines(nodes_view(nodes@)));
    if st.lines.len() == 0 {
        trim_text(input)
    } else {
        join_texts(&st.lines, "\n\n")
    }
}

/// Strips the HTML tags from a metadata text and decodes its entities, keeping its paragraphs
/// apart.
pub fn sanitize_metadata_text(input: &str) -> (r: String)
    ensures
        r@ == plain_metadata(input@, fragment_nodes(input@)),
{
    if !contains_char(input, '<') && !contains_char(input, '&') {
        return trim_text(input);
    }
    plain_metadata_text(input, &parse_fragment_nodes(input))
}

// ---------------------------------------------------------------------------
// Laws
// ---------------------------------------------------------------------------

/// Every span covers at least one character and ends within a text of this length.
pub open spec fn spans_within(spans: Seq<SpanView>, len: int) -> bool {
    forall|i: int|
        0 <= i < spans.len() ==> 0 <= (#[trigger] spans[i]).start < spans[i].end <= len
}

/// White space stands neither at the front nor at the back, and inside it is collapsed.
pub open spec fn is_tidy_text(s: Seq<char>) -> bool {
    &&& s.len() > 0 ==> !is_space(s[0]) && !is_space(s.last())
    &&& collapsed(s)
}

proof fn lemma_feed(c: CollectorView, text: Seq<char>)
    requires
        c.tidy(),
    ensures
        c.feed(text).tidy(),
        c.feed(text).chars.len() >= c.chars.len(),
    decreases text.len(),
{
    if text.len() > 0 {
        lemma_feed(c, text.drop_last());
    }
}

proof fn lemma_walked(d: Seq<NodeView>, lo: int, hi: int, stop: bool, w: WalkView)
    requires
        w.col.tidy(),
        spans_within(w.spans, w.col.chars.len() as int),
    ensures
        walked(d, lo, hi, stop, w).col.tidy(),
        spans_within(
            walked(d, lo, hi, stop, w).spans,
            walked(d, lo, hi, stop, w).col.chars.len() as int,
        ),
        walked(d, lo, hi, stop, w).col.chars.len() >= w.col.chars.len(),
    decreases hi - lo,
{
    if lo < hi {
        let e = node_end(d, lo, hi);
        let tag = tag_of(d[lo]);
        let after = match d[lo].value {
            ValueView::Text(t) => {
                lemma_feed(w.col, t);
                WalkView { col: w.col.feed(t), spans: w.spans }
            },
            ValueView::Element { .. } => {
                if stop && (tag == "ul"@ || tag == "ol"@) {
                    w
                } else if tag == "br"@ {
                    WalkView { col: w.col.line_break(), spans: w.spans }
                } else if is_note_reference(d, lo, e) {
                    w
                } else {
                    let start = WalkView { col: w.col.flush(), spans: w.spans };
                    lemma_walked(d, lo + 1, e, stop, start);
                    let inner = walked(d, lo + 1, e, stop, start);
                    match span_for(d[lo], start.col.chars.len() as int, inner.col.chars.len() as int) {
                        Some(span) => WalkView { col: inner.col, spans: inner.spans.push(span) },
                        None => inner,
                    }
                }
            },
            ValueView::Other => w,
        };
        lemma_walked(d, e, hi, stop, after);
    }
}

proof fn lemma_clipped(spans: Seq<SpanView>, len: int)
    requires
        forall|i: int| 0 <= i < spans.len() ==> 0 <= (#[trigger] spans[i]).start,
    ensures
        spans_within(clipped(spans, len), len),
    decreases spans.len(),
{
    if spans.len() > 0 {
        let rest = spans.drop_last();
        assert forall|i: int| 0 <= i < rest.len() implies 0 <= (#[trigger] rest[i]).start by {
            assert(rest[i] == spans[i]);
        }
        lemma_clipped(rest, len);
    }
}

/// Plain text is collected as its words, with one space between any two.
pub proof fn plain_text_becomes_its_words(text: Seq<char>)
    ensures
        CollectorView::empty().feed(text).chars == join(words(text), seq![' ']),
        CollectorView::empty().feed(text).pending == (words(text).len() > 0 && is_space(text.last())),
    decreases text.len(),
{
    let now = CollectorView::empty().feed(text);
    if text.len() > 0 {
        let front = text.drop_last();
        let c = text.last();
        plain_text_becomes_its_words(front);
        lemma_words_push(front, c);
        assert(front.push(c) =~= text);
        let before = words(front);
        let after = words(text);
        if !is_space(c) {
            if front.len() == 0 || is_space(front.last()) {
                assert(after.drop_last() =~= before);
                assert(after.last() == seq![c]);
                if before.len() > 0 {
                    assert(now.chars =~= join(before, seq![' ']) + seq![' '] + seq![c]);
                } else {
                    assert(after.len() == 1);
                    assert(now.chars =~= after[0]);
                }
            } else {
                assert(after.drop_last() =~= before.drop_last());
                assert(after.last() =~= before.last().push(c));
                assert(now.chars =~= join(before, seq![' ']).push(c));
                if before.len() == 1 {
                    assert(after.len() == 1);
                    assert(join(after, seq![' ']) =~= before[0].push(c));
                } else {
                    assert(join(after, seq![' ']) =~= join(before, seq![' ']).push(c));
                }
            }
        }
    }
    assert(now.chars =~= join(words(text), seq![' ']));
}

/// Whatever the subtree, each of its spans covers at least one character of its text and none
/// beyond it, and the text is tidy.
pub proof fn extracted_spans_lie_within_tidy_text(d: Seq<NodeView>, i: int, stop_at_lists: bool)
    ensures
        spans_within(
            extracted(d, i, stop_at_lists).spans,
            extracted(d, i, stop_at_lists).text.len() as int,
        ),
        is_tidy_text(extracted(d, i, stop_at_lists).text),
{
    let w0 = WalkView { col: CollectorView::empty(), spans: Seq::empty() };
    lemma_walked(d, i + 1, subtree_end(d, i), stop_at_lists, w0);
    let w = walked(d, i + 1, subtree_end(d, i), stop_at_lists, w0);
    lemma_trim_end(w.col.chars);
    lemma_clipped(w.spans, trim_end(w.col.chars).len() as int);
}

/// In the text of a subtree no two white characters stand side by side, however its elements are
/// nested.
pub proof fn spaces_never_stand_side_by_side(d: Seq<NodeView>, i: int, stop_at_lists: bool, k: int)
    requires
        0 <= k,
        k + 1 < extracted(d, i, stop_at_lists).text.len(),
    ensures
        !(is_space(extracted(d, i, stop_at_lists).text[k]) && is_space(
            extracted(d, i, stop_at_lists).text[k + 1],
        )),
{
    extracted_spans_lie_within_tidy_text(d, i, stop_at_lists);
}

/// The spans of every element of a chapter lie within its text, which is not empty, and a
/// heading's level is one of six.
pub open spec fn is_sound_element(e: ElementView) -> bool {
    match e {
        ElementView::Heading { level, text, spans, .. } => {
            &&& 1 <= level <= 6
            &&& text.len() > 0
            &&& spans_within(spans, text.len() as int)
        },
        ElementView::Paragraph { text, spans, .. } => text.len() > 0 && spans_within(
            spans,
            text.len() as int,
        ),
        ElementView::List { text, spans, .. } => text.len() > 0 && spans_within(
            spans,
            text.len() as int,
        ),
        _ => true,
    }
}

proof fn lemma_digit_runs(s: Seq<char>)
    ensures
        0 <= leading_digits(s) <= s.len(),
        0 <= trailing_digits(s) <= s.len(),
    decreases s.len(),
{
    if s.len() > 0 {
        lemma_digit_runs(s.drop_first());
        lemma_digit_runs(s.drop_last());
    }
}

proof fn lemma_element_is_sound(
    d: Seq<NodeView>,
    i: int,
    path: Seq<char>,
    lines: Seq<VerseLine>,
    p: int,
)
    ensures
        element_at(d, i, path, lines, p) matches Some(e) ==> is_sound_element(e),
{
    extracted_spans_lie_within_tidy_text(d, i, false);
    lemma_digit_runs(extracted(d, i, false).text);
}

proof fn lemma_elements_are_sound(
    d: Seq<NodeView>,
    lo: int,
    hi: int,
    path: Seq<char>,
    lines: Seq<VerseLine>,
)
    ensures
        forall|k: int|
            0 <= k < elements_in(d, lo, hi, path, lines).len() ==> is_sound_element(
                #[trigger] elements_in(d, lo, hi, path, lines)[k],
            ),
    decreases hi - lo,
{
    if lo < hi {
        lemma_elements_are_sound(d, lo, hi - 1, path, lines);
        lemma_element_is_sound(d, hi - 1, path, lines, verse_lines(d, lo, hi - 1).len() as int);
        let before = elements_in(d, lo, hi - 1, path, lines);
        let all = elements_in(d, lo, hi, path, lines);
        assert forall|k: int| 0 <= k < all.len() implies is_sound_element(#[trigger] all[k]) by {
            if k < before.len() {
                assert(all[k] == before[k]);
            }
        }
    }
}

/// Every element of a chapter that holds text holds some, and its spans, the numbers of verse
/// lines among them, lie within that text.
pub proof fn chapter_elements_are_sound(d: Seq<NodeView>, path: Seq<char>)
    ensures
        forall|k: int| 0 <= k < chapter(d, path).len() ==> is_sound_element(#[trigger] chapter(d, path)[k]),
{
    if let Some(b) = body(d) {
        let e = subtree_end(d, b);
        lemma_elements_are_sound(d, b + 1, e, path, verse_lines(d, b + 1, e));
    }
}

proof fn lemma_last_short(ls: Seq<VerseLine>, k: int, hi: int) -> (m: int)
    requires
        0 <= k < hi <= ls.len(),
        ls[k].is_short,
    ensures
        k <= m < hi,
        ls[m].is_short,
        forall|j: int| m < j < hi ==> !(#[trigger] ls[j]).is_short,
    decreases hi - k,
{
    if ls[hi - 1].is_short {
        hi - 1
    } else {
        lemma_last_short(ls, k, hi - 1)
    }
}

proof fn lemma_run_bounds(ls: Seq<VerseLine>, k: int)
    requires
        0 <= k <= ls.len(),
    ensures
        k <= run_end(ls, k) <= ls.len(),
        forall|m: int| k <= m < run_end(ls, k) ==> in_run(#[trigger] ls[m]),
        run_end(ls, k) == ls.len() || !in_run(ls[run_end(ls, k)]),
    decreases ls.len() - k,
{
    if k < ls.len() && in_run(ls[k]) {
        lemma_run_bounds(ls, k + 1);
    }
}

/// Every line of verse belongs to a verse of at least three lines, in which exactly one line, it
/// or a later one, is marked as the end.
pub proof fn every_verse_has_one_end(ls: Seq<VerseLine>, k: int)
    requires
        0 <= k < ls.len(),
        is_verse_line(ls, k),
    ensures
        short_lines(ls, run_start(ls, k), run_end(ls, k)) >= 3,
        exists|m: int| k <= m < run_end(ls, k) && is_verse_end(ls, m),
        forall|m: int, n: int|
            k <= m < run_end(ls, k) && k <= n < run_end(ls, k) && #[trigger] is_verse_end(ls, m)
                && #[trigger] is_verse_end(ls, n) ==> m == n,
{
    lemma_run_bounds(ls, k);
    let hi = run_end(ls, k);
    let m = lemma_last_short(ls, k, hi);
    assert forall|j: int| k <= j < hi implies run_start(ls, j) == run_start(ls, k) && run_end(ls, j)
        == hi by {
        lemma_run_start(ls, k, j);
        lemma_run_end(ls, j, hi);
    }
    assert(is_verse_end(ls, m));
    assert forall|m: int, n: int|
        k <= m < hi && k <= n < hi && #[trigger] is_verse_end(ls, m) && #[trigger] is_verse_end(ls, n)
            implies m == n by {
        assert(ls[m].is_short && ls[n].is_short);
    }
}

/// Only lines of verse start a stanza or end a verse.
pub proof fn stanzas_and_ends_are_verse(ls: Seq<VerseLine>, k: int)
    ensures
        is_stanza_start(ls, k) ==> is_verse_line(ls, k),
        is_verse_end(ls, k) ==> is_verse_line(ls, k),
        is_verse_line(ls, k) ==> ls[k].is_short,
{
}

/// A chapter without any `<span` is left as it is when its page markers are removed.
pub proof fn text_without_spans_is_unchanged(html: Seq<char>)
    requires
        !contains(html, "<span"@),
    ensures
        without_page_markers(html, 0) == html,
{
    assert(html.skip(0) == html);
}

/// A note that is resolved has the anchor and the label it was asked for, and text, within which
/// its spans lie.
pub proof fn resolved_notes_have_text(
    d: Seq<NodeView>,
    selected: Option<int>,
    anchor_id: Seq<char>,
    label: Seq<char>,
)
    ensures
        footnote(d, selected, anchor_id, label) matches Some(n) ==> {
            &&& n.anchor_id == anchor_id
            &&& n.label == label
            &&& n.text.len() > 0
            &&& spans_within(n.spans, n.text.len() as int)
        },
{
    if let Some(rank) = selected {
        if let Some(i) = node_of_rank(d, rank, 0) {
            extracted_spans_lie_within_tidy_text(d, i, false);
        }
    }
    let p = |k: int| is_note_target(d, anchor_id, k);
    if let Some(i) = earliest(d, p, d.len() as int) {
        extracted_spans_lie_within_tidy_text(d, i, false);
    }
}

/// Every line of a metadata text is trimmed and holds something.
pub open spec fn lines_are_clean(lines: Seq<Seq<char>>) -> bool {
    forall|k: int|
        0 <= k < lines.len() ==> (#[trigger] lines[k]).len() > 0 && trimmed(lines[k]) == lines[k]
}

proof fn lemma_end_line(st: LinesView)
    requires
        lines_are_clean(st.lines),
    ensures
        lines_are_clean(st.end_line().lines),
{
    trimming_is_idempotent(st.line);
}

proof fn lemma_lines_after(d: Seq<NodeView>, lo: int, hi: int, st: LinesView)
    requires
        lines_are_clean(st.lines),
    ensures
        lines_are_clean(lines_after(d, lo, hi, st).lines),
    decreases hi - lo,
{
    if lo < hi {
        let e = node_end(d, lo, hi);
        let tag = tag_of(d[lo]);
        let after = match d[lo].value {
            ValueView::Text(t) => st.write(t),
            ValueView::Element { .. } => if !is_known(tag) {
                st.write(literal_tag(d[lo]) + literal_text(d, lo + 1, e))
            } else if breaks_line(tag) {
                lemma_end_line(st);
                lemma_lines_after(d, lo + 1, e, st.end_line());
                lemma_end_line(lines_after(d, lo + 1, e, st.end_line()));
                lines_after(d, lo + 1, e, st.end_line()).end_line()
            } else {
                lemma_lines_after(d, lo + 1, e, st);
                lines_after(d, lo + 1, e, st)
            },
            ValueView::Other => st,
        };
        lemma_lines_after(d, e, hi, after);
    }
}

/// The lines of a sanitized metadata text are trimmed, and none is empty.
pub proof fn metadata_lines_are_clean(d: Seq<NodeView>)
    ensures
        lines_are_clean(metadata_lines(d)),
{
    if let Some(r) = root_from(d, 1) {
        let st = LinesView { line: Seq::empty(), lines: Seq::empty() };
        lemma_lines_after(d, r + 1, subtree_end(d, r), st);
        lemma_end_line(lines_after(d, r + 1, subtree_end(d, r), st));
    }
}

} // verus!
