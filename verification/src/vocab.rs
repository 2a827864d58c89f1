//! The list of saved words: searched, shown and exported.

use vstd::prelude::*;

use crate::dictionary::{display_text, html_to_display_text, DictionaryEntry};
use crate::order::{
    belongs_before, is_stable_order, keys_view, order_of, stable_order, stable_orders_exist, text_le,
    KeyView, SortKey,
};
use crate::persistence::{vocab_view, VocabEntry, VocabView};
use crate::search::{escaped, escape_text};
use crate::text::{
    ascii_lowercase, contains, contains_text, lower_text, lowercase, same_text,
    same_text_ignoring_case,
};

verus! {

/// Two words are the same but for the case of their letters.
pub open spec fn is_same_word(a: Seq<char>, b: Seq<char>) -> bool {
    ascii_lowercase(a) == ascii_lowercase(b) || lowercase(a) == lowercase(b)
}

/// Whether a word is on the list, whatever the case of its letters.
pub open spec fn is_saved(entries: Seq<VocabView>, word: Seq<char>) -> bool {
    exists|i: int| 0 <= i < entries.len() && is_same_word((#[trigger] entries[i]).word, word)
}

/// Whether a word is on the list, whatever the case of its letters.
pub fn word_already_in_vocab(entries: &Vec<VocabEntry>, word: &str) -> (r: bool)
    ensures
        r == is_saved(vocab_view(entries@), word@),
{
    let ghost all = vocab_view(entries@);
    let lower = lower_text(word);
    let mut i: usize = 0;
    while i < entries.len()
        invariant
            i <= entries@.len(),
            all == vocab_view(entries@),
            lower@ == lowercase(word@),
            forall|j: int| 0 <= j < i ==> !is_same_word((#[trigger] all[j]).word, word@),
        decreases entries@.len() - i,
    {
        assert(all[i as int] == entries@[i as int]@);
        if same_text_ignoring_case(entries[i].word.as_str(), word) || same_text(
            lower_text(entries[i].word.as_str()).as_str(),
            lower.as_str(),
        ) {
            return true;
        }
        i += 1;
    }
    false
}

/// The number of definitions of a word that are shown.
pub const SHOWN_DEFINITIONS: usize = 5;

/// The definitions of a word that are shown, as text: the first five.
pub fn shown_definitions(entries: &Vec<DictionaryEntry>) -> (r: Vec<String>)
    ensures
        r@.len() == if entries@.len() < SHOWN_DEFINITIONS {
            entries@.len() as int
        } else {
            SHOWN_DEFINITIONS as int
        },
        forall|i: int| 0 <= i < r@.len() ==> (#[trigger] r@[i])@ == display_text(entries@[i].definition@),
{
    let mut out: Vec<String> = Vec::new();
    let mut i: usize = 0;
    while i < entries.len() && i < SHOWN_DEFINITIONS
        invariant
            i <= entries@.len(),
            i <= SHOWN_DEFINITIONS,
            out@.len() == i,
            forall|j: int| 0 <= j < i ==> (#[trigger] out@[j])@ == display_text(entries@[j].definition@),
        decreases entries@.len() - i,
    {
        out.push(html_to_display_text(entries[i].definition.as_str()));
        i += 1;
    }
    out
}

// ---------------------------------------------------------------------------
// The list
// ---------------------------------------------------------------------------

/// Whether a saved word is listed under a filter, which is in lower case.
pub open spec fn is_listed(e: VocabView, filter: Seq<char>) -> bool {
    ||| filter.len() == 0
    ||| contains(lowercase(e.word), filter)
    ||| contains(lowercase(e.book_title), filter)
    ||| contains(lowercase(e.definition), filter)
}

/// Whether a saved word is listed under a filter, which is in lower case.
pub fn vocab_matches_search(e: &VocabEntry, filter: &str) -> (r: bool)
    ensures
        r == is_listed(e@, filter@),
{
    filter.is_empty() || contains_text(lower_text(e.word.as_str()).as_str(), filter) || contains_text(
        lower_text(e.book_title.as_str()).as_str(),
        filter,
    ) || contains_text(lower_text(e.definition.as_str()).as_str(), filter)
}

/// The places of those of the first `n` words that are listed under a filter.
pub open spec fn listed_places(entries: Seq<VocabView>, filter: Seq<char>, n: int) -> Seq<usize>
    decreases n,
{
    if n <= 0 {
        Seq::empty()
    } else if is_listed(entries[n - 1], filter) {
        listed_places(entries, filter, n - 1).push((n - 1) as usize)
    } else {
        listed_places(entries, filter, n - 1)
    }
}

/// What the words at these places are put in order by: when they were saved, and then their ids.
pub open spec fn time_keys(entries: Seq<VocabView>, places: Seq<usize>) -> Seq<KeyView> {
    places.map_values(|p: usize| KeyView::Numbers(entries[p as int].added_at, entries[p as int].id))
}

/// The places of the words that are listed under a filter, the newest first.
pub open spec fn listed(entries: Seq<VocabView>, filter: Seq<char>) -> Seq<usize> {
    let places = listed_places(entries, filter, entries.len() as int);
    order_of(time_keys(entries, places), true).map_values(|k: usize| places[k as int])
}

/// The places of the words that are listed under a filter, which is in lower case, the newest
/// first.
pub fn refresh_vocab_list(entries: &Vec<VocabEntry>, filter: &str) -> (r: Vec<usize>)
    ensures
        r@ == listed(vocab_view(entries@), filter@),
        forall|i: int| 0 <= i < r@.len() ==> #[trigger] r@[i] < entries@.len(),
{
    let ghost all = vocab_view(entries@);
    let mut places: Vec<usize> = Vec::new();
    let mut keys: Vec<SortKey> = Vec::new();
    let mut k: usize = 0;
    while k < entries.len()
        invariant
            k <= entries@.len(),
            all == vocab_view(entries@),
            places@ == listed_places(all, filter@, k as int),
            keys_view(keys@) =~= time_keys(all, places@),
            forall|i: int| 0 <= i < places@.len() ==> #[trigger] places@[i] < k,
        decreases entries@.len() - k,
    {
        assert(all[k as int] == entries@[k as int]@);
        if vocab_matches_search(&entries[k], filter) {
            let ghost before = keys@;
            let key = SortKey::Numbers(entries[k].added_at, entries[k].id);
            places.push(k);
            keys.push(key);
            assert(keys_view(keys@) =~= keys_view(before).push(key@));
        }
        k += 1;
    }
    let order = stable_order(&keys, true);
    assert(keys_view(keys@).len() == keys@.len());
    assert(time_keys(all, places@).len() == places@.len());
    let mut out: Vec<usize> = Vec::new();
    let mut i: usize = 0;
    while i < order.len()
        invariant
            i <= order@.len(),
            is_stable_order(order@, keys_view(keys@), places@.len() as int, true),
            forall|i: int| 0 <= i < places@.len() ==> #[trigger] places@[i] < entries@.len(),
            out@ =~= order@.take(i as int).map_values(|k: usize| places@[k as int]),
            forall|i: int| 0 <= i < out@.len() ==> #[trigger] out@[i] < entries@.len(),
        decreases order@.len() - i,
    {
        out.push(places[order[i]]);
        i += 1;
    }
    assert(order@.take(i as int) =~= order@);
    out
}

/// What stands in the place of an empty list.
pub fn empty_vocab_message(filter: &str) -> (r: &'static str)
    ensures
        r@ == if filter@.len() == 0 {
            "No saved words yet. Double-click a word, then \u{201c}Add to Vocab\u{201d} in its definition popup."@
        } else {
            "No saved words match your search."@
        },
{
    if filter.is_empty() {
        "No saved words yet. Double-click a word, then \u{201c}Add to Vocab\u{201d} in its definition popup."
    } else {
        "No saved words match your search."
    }
}

/// The line of a saved word's context, as markup, where it has a context.
pub fn context_markup(e: &VocabEntry) -> (r: Option<String>)
    ensures
        r is Some <==> e@.context_before.len() > 0 || e@.context_after.len() > 0,
        r matches Some(t) ==> t@ == "\u{2026}"@ + escaped(e@.context_before) + " <b>"@ + escaped(e@.word) + "</b> "@
            + escaped(e@.context_after) + "\u{2026}"@,
{
    if e.context_before.as_str().is_empty() && e.context_after.as_str().is_empty() {
        return None;
    }
    let mut out = "\u{2026}".to_owned();
    out.append(escape_text(e.context_before.as_str()).as_str());
    out.append(" <b>");
    out.append(escape_text(e.word.as_str()).as_str());
    out.append("</b> ");
    out.append(escape_text(e.context_after.as_str()).as_str());
    out.append("\u{2026}");
    assert(out@ =~= "\u{2026}"@ + escaped(e@.context_before) + " <b>"@ + escaped(e@.word) + "</b> "@ + escaped(
        e@.context_after,
    ) + "\u{2026}"@);
    Some(out)
}

// ---------------------------------------------------------------------------
// Export
// ---------------------------------------------------------------------------

/// A saved word in Markdown.
pub open spec fn word_markdown(e: VocabView) -> Seq<char> {
    let context = if e.context_before.len() > 0 || e.context_after.len() > 0 {
        "> \u{2026}"@ + e.context_before + " **"@ + e.word + "** "@ + e.context_after + "\u{2026}\n\n"@
    } else {
        Seq::empty()
    };
    "## "@ + e.word + "\n\n*From:* "@ + e.book_title + "\n\n"@ + context + e.definition + "\n\n---\n\n"@
}

/// The words at the first `n` of these places in Markdown.
pub open spec fn words_markdown(entries: Seq<VocabView>, order: Seq<usize>, n: int) -> Seq<char>
    decreases n,
{
    if n <= 0 {
        Seq::empty()
    } else {
        words_markdown(entries, order, n - 1) + word_markdown(entries[order[n - 1] as int])
    }
}

/// What words are put in order by: their letters, in lower case.
pub open spec fn word_keys(entries: Seq<VocabView>) -> Seq<KeyView> {
    entries.map_values(|e: VocabView| KeyView::Text(lowercase(e.word)))
}

fn push_word(out: &mut String, e: &VocabEntry)
    ensures
        final(out)@ == old(out)@ + word_markdown(e@),
{
    let ghost before = out@;
    out.append("## ");
    out.append(e.word.as_str());
    out.append("\n\n*From:* ");
    out.append(e.book_title.as_str());
    out.append("\n\n");
    if !e.context_before.as_str().is_empty() || !e.context_after.as_str().is_empty() {
        out.append("> \u{2026}");
        out.append(e.context_before.as_str());
        out.append(" **");
        out.append(e.word.as_str());
        out.append("** ");
        out.append(e.context_after.as_str());
        out.append("\u{2026}\n\n");
    }
    out.append(e.definition.as_str());
    out.append("\n\n---\n\n");
    assert(out@ =~= before + word_markdown(e@));
}

/// The saved words in Markdown, in alphabetical order.
pub fn export_markdown(entries: &Vec<VocabEntry>) -> (r: String)
    ensures
        r@ == "# Vocabulary\n\n"@ + words_markdown(
            vocab_view(entries@),
            order_of(word_keys(vocab_view(entries@)), false),
            entries@.len() as int,
        ),
{
    let ghost all = vocab_view(entries@);
    let mut keys: Vec<SortKey> = Vec::new();
    let mut k: usize = 0;
    while k < entries.len()
        invariant
            k <= entries@.len(),
            all == vocab_view(entries@),
            keys_view(keys@) =~= word_keys(all).take(k as int),
        decreases entries@.len() - k,
    {
        assert(all[k as int] == entries@[k as int]@);
        let key = SortKey::Text(lower_text(entries[k].word.as_str()));
        let ghost before = keys@;
        assert(key@ == word_keys(all)[k as int]);
        keys.push(key);
        assert(keys_view(keys@) =~= keys_view(before).push(key@));
        k += 1;
    }
    assert(word_keys(all).take(k as int) =~= word_keys(all));
    assert(keys_view(keys@).len() == keys@.len());
    let order = stable_order(&keys, false);
    let ghost head = "# Vocabulary\n\n"@;
    let mut out = "# Vocabulary\n\n".to_owned();
    assert(head + Seq::<char>::empty() =~= head);
    let mut n: usize = 0;
    while n < order.len()
        invariant
            n <= order@.len(),
            order@.len() == entries@.len(),
            all == vocab_view(entries@),
            forall|i: int| 0 <= i < order@.len() ==> 0 <= #[trigger] order@[i] < entries@.len(),
            out@ == head + words_markdown(all, order@, n as int),
        decreases order@.len() - n,
    {
        assert(all[order@[n as int] as int] == entries@[order@[n as int] as int]@);
        push_word(&mut out, &entries[order[n]]);
        n += 1;
        assert(out@ =~= head + words_markdown(all, order@, n as int));
    }
    out
}

// ---------------------------------------------------------------------------
// Laws
// ---------------------------------------------------------------------------

proof fn lemma_listed_places(entries: Seq<VocabView>, filter: Seq<char>, n: int)
    requires
        0 <= n <= entries.len() <= usize::MAX,
    ensures
        listed_places(entries, filter, n).len() <= n,
        forall|i: int|
            0 <= i < listed_places(entries, filter, n).len() ==> 0 <= #[trigger] listed_places(
                entries,
                filter,
                n,
            )[i] < n && is_listed(entries[listed_places(entries, filter, n)[i] as int], filter),
    decreases n,
{
    if n > 0 {
        lemma_listed_places(entries, filter, n - 1);
    }
}

/// The list of saved words holds none that the filter leaves out, and the word that was saved
/// last comes first.
pub proof fn newest_words_come_first(
    entries: Seq<VocabView>,
    filter: Seq<char>,
    i: int,
    j: int,
)
    requires
        entries.len() <= usize::MAX,
        0 <= i < j < listed(entries, filter).len(),
    ensures
        ({
            let a = entries[listed(entries, filter)[i] as int];
            let b = entries[listed(entries, filter)[j] as int];
            &&& is_listed(a, filter) && is_listed(b, filter)
            &&& b.added_at < a.added_at || b.added_at == a.added_at && b.id <= a.id
        }),
{
    let places = listed_places(entries, filter, entries.len() as int);
    lemma_listed_places(entries, filter, entries.len() as int);
    let keys = time_keys(entries, places);
    let order = order_of(keys, true);
    stable_orders_exist(keys, true);
    assert(belongs_before(keys, order[i], order[j], true));
    let p = places[order[i] as int];
    let q = places[order[j] as int];
    assert(keys[order[i] as int] == KeyView::Numbers(entries[p as int].added_at, entries[p as int].id));
    assert(keys[order[j] as int] == KeyView::Numbers(entries[q as int].added_at, entries[q as int].id));
}

/// In the export of the saved words they come in alphabetical order, whatever the case of the
/// letters.
pub proof fn exported_words_ascend(entries: Seq<VocabView>, i: int, j: int)
    requires
        entries.len() <= usize::MAX,
        0 <= i < j < entries.len(),
    ensures
        ({
            let order = order_of(word_keys(entries), false);
            text_le(
                lowercase(entries[order[i] as int].word),
                lowercase(entries[order[j] as int].word),
            )
        }),
{
    let keys = word_keys(entries);
    let order = order_of(keys, false);
    stable_orders_exist(keys, false);
    assert(belongs_before(keys, order[i], order[j], false));
    assert(keys[order[i] as int] == KeyView::Text(lowercase(entries[order[i] as int].word)));
    assert(keys[order[j] as int] == KeyView::Text(lowercase(entries[order[j] as int].word)));
}

} // verus!
