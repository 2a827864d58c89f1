//! A table of contents keeps the nesting of its entries, and leads where they lead.

use vstd::prelude::*;

use crate::compiler::{
    book_toc, heading_rows, reference_target, toc_row, toc_rows, BookView, TocRowView,
};
use crate::epub::{normalized, TocView};
use crate::text::{before_char, char_pos, lemma_char_pos};

verus! {

/// The places, among the first `n` rows, of those that lie directly below `parent`.
pub open spec fn rows_below(rows: Seq<TocRowView>, parent: Option<int>, n: int) -> Seq<int>
    decreases n,
{
    if n <= 0 {
        Seq::empty()
    } else if rows[n - 1].parent == parent {
        rows_below(rows, parent, n - 1).push(n - 1)
    } else {
        rows_below(rows, parent, n - 1)
    }
}

/// The rows below `parent` are those of these entries, one for each and in their order, and the
/// rows below each of them are those of the entries below its entry, at every level.
pub open spec fn nests(rows: Seq<TocRowView>, items: Seq<TocView>, parent: Option<int>) -> bool
    decreases items,
{
    let below = rows_below(rows, parent, rows.len() as int);
    &&& below.len() == items.len()
    &&& forall|j: int|
        0 <= j < items.len() ==> {
            &&& rows[below[j]].title == (#[trigger] items[j]).title
            &&& rows[below[j]].href == (if items[j].href.len() == 0 {
                None
            } else {
                Some(items[j].href)
            })
            &&& nests(rows, items[j].children, Some(below[j]))
        }
}

/// The places of the rows of entries that follow one another at one level.
spec fn places(items: Seq<TocView>, parent: Option<int>, start: int, b: BookView) -> Seq<int>
    decreases items.len(),
{
    if items.len() == 0 {
        Seq::empty()
    } else {
        let front = items.drop_last();
        places(front, parent, start, b).push(start + toc_rows(front, parent, start, b).len())
    }
}

/// Where the rows of the entry at `j`, and of those below it, end.
spec fn is_segment(
    all: Seq<TocRowView>,
    items: Seq<TocView>,
    parent: Option<int>,
    start: int,
    b: BookView,
) -> bool {
    let rows = toc_rows(items, parent, start, b);
    &&& 0 <= start
    &&& start + rows.len() <= all.len()
    &&& all.subrange(start, start + rows.len()) == rows
}

/// The rows of entries lie below their parent or below rows among themselves.
proof fn lemma_parents(items: Seq<TocView>, parent: Option<int>, start: int, b: BookView)
    ensures
        forall|k: int|
            0 <= k < toc_rows(items, parent, start, b).len() ==> (#[trigger] toc_rows(
                items,
                parent,
                start,
                b,
            )[k]).parent == parent || (toc_rows(items, parent, start, b)[k].parent matches Some(p) && start
                <= p < start + k),
    decreases items,
{
    if items.len() > 0 {
        let before = toc_rows(items.drop_last(), parent, start, b);
        lemma_parents(items.drop_last(), parent, start, b);
        let place = start + before.len();
        let below = toc_rows(items.last().children, Some(place), place + 1, b);
        lemma_parents(items.last().children, Some(place), place + 1, b);
        let all = toc_rows(items, parent, start, b);
        assert forall|k: int| 0 <= k < all.len() implies (#[trigger] all[k]).parent == parent || (
        all[k].parent matches Some(p) && start <= p < start + k) by {
            if k < before.len() {
                assert(all[k] == before[k]);
            } else if k > before.len() {
                assert(all[k] == below[k - before.len() - 1]);
            }
        }
    }
}

proof fn lemma_none_below(rows: Seq<TocRowView>, parent: Option<int>, lo: int, hi: int)
    requires
        0 <= lo <= hi,
        forall|k: int| lo <= k < hi ==> (#[trigger] rows[k]).parent != parent,
    ensures
        rows_below(rows, parent, hi) == rows_below(rows, parent, lo),
    decreases hi - lo,
{
    if lo < hi {
        lemma_none_below(rows, parent, lo, hi - 1);
        assert(rows[hi - 1].parent != parent);
    }
}

proof fn lemma_places(
    all: Seq<TocRowView>,
    items: Seq<TocView>,
    parent: Option<int>,
    start: int,
    b: BookView,
)
    requires
        is_segment(all, items, parent, start, b),
        parent matches Some(p) ==> p < start,
    ensures
        rows_below(all, parent, start + toc_rows(items, parent, start, b).len()) == rows_below(
            all,
            parent,
            start,
        ) + places(items, parent, start, b),
        places(items, parent, start, b).len() == items.len(),
    decreases items.len(),
{
    let rows = toc_rows(items, parent, start, b);
    if items.len() == 0 {
        assert(rows_below(all, parent, start) + places(items, parent, start, b) =~= rows_below(
            all,
            parent,
            start,
        ));
    } else {
        let front = items.drop_last();
        let before = toc_rows(front, parent, start, b);
        let place = start + before.len();
        let below = toc_rows(items.last().children, Some(place), place + 1, b);
        lemma_parents(items.last().children, Some(place), place + 1, b);
        assert(all.subrange(start, place) =~= before) by {
            assert forall|k: int| 0 <= k < before.len() implies all.subrange(start, place)[k] == before[k] by {
                assert(all.subrange(start, start + rows.len())[k] == rows[k]);
            }
        }
        lemma_places(all, front, parent, start, b);
        assert(all[place] == rows[before.len() as int]) by {
            assert(all.subrange(start, start + rows.len())[before.len() as int] == all[place]);
        }
        let end = start + rows.len();
        assert forall|k: int| place + 1 <= k < end implies (#[trigger] all[k]).parent != parent by {
            assert(all.subrange(start, end)[k - start] == rows[k - start]);
            assert(rows[k - start] == below[k - place - 1]);
        }
        lemma_none_below(all, parent, place + 1, end);
        assert(rows_below(all, parent, place + 1) == rows_below(all, parent, place).push(place));
        assert(rows_below(all, parent, end) =~= rows_below(all, parent, start) + places(
            items,
            parent,
            start,
            b,
        ));
    }
}

/// The entry at `j` has its row at its place, and those below it follow.
proof fn lemma_entry(items: Seq<TocView>, parent: Option<int>, start: int, b: BookView, j: int)
    requires
        0 <= j < items.len(),
    ensures
        ({
            let rows = toc_rows(items, parent, start, b);
            let at = places(items, parent, start, b)[j];
            let below = toc_rows(items[j].children, Some(at), at + 1, b);
            &&& places(items, parent, start, b).len() == items.len()
            &&& start <= at
            &&& at + 1 + below.len() <= start + rows.len()
            &&& rows[at - start] == toc_row(items[j], parent, at, b)
            &&& rows.subrange(at + 1 - start, at + 1 - start + below.len()) == below
        }),
    decreases items.len(),
{
    let front = items.drop_last();
    let rows = toc_rows(items, parent, start, b);
    let before = toc_rows(front, parent, start, b);
    lemma_places_len(items, parent, start, b);
    if j < front.len() {
        lemma_entry(front, parent, start, b, j);
        lemma_places_len(front, parent, start, b);
        assert(front[j] == items[j]);
        let at = places(front, parent, start, b)[j];
        assert(places(items, parent, start, b)[j] == at);
        let below = toc_rows(items[j].children, Some(at), at + 1, b);
        assert(rows[at - start] == before[at - start]);
        assert(rows.subrange(at + 1 - start, at + 1 - start + below.len()) =~= before.subrange(
            at + 1 - start,
            at + 1 - start + below.len(),
        ));
    } else {
        let place = start + before.len();
        let below = toc_rows(items.last().children, Some(place), place + 1, b);
        assert(places(items, parent, start, b)[j] == place) by {
            lemma_places_len(front, parent, start, b);
        }
        assert(rows.subrange(place + 1 - start, place + 1 - start + below.len()) =~= below);
    }
}

proof fn lemma_places_len(items: Seq<TocView>, parent: Option<int>, start: int, b: BookView)
    ensures
        places(items, parent, start, b).len() == items.len(),
    decreases items.len(),
{
    if items.len() > 0 {
        lemma_places_len(items.drop_last(), parent, start, b);
    }
}

proof fn lemma_nests(
    all: Seq<TocRowView>,
    items: Seq<TocView>,
    parent: Option<int>,
    start: int,
    b: BookView,
)
    requires
        is_segment(all, items, parent, start, b),
        parent matches Some(p) ==> p < start,
        forall|k: int|
            0 <= k < all.len() && !(start <= k < start + toc_rows(items, parent, start, b).len())
                ==> (#[trigger] all[k]).parent != parent && !(all[k].parent matches Some(p) && start <= p < start
                + toc_rows(items, parent, start, b).len()),
    ensures
        nests(all, items, parent),
    decreases items,
{
    let rows = toc_rows(items, parent, start, b);
    let end = start + rows.len();
    lemma_places(all, items, parent, start, b);
    lemma_none_below(all, parent, 0, start);
    lemma_none_below(all, parent, end, all.len() as int);
    let below = rows_below(all, parent, all.len() as int);
    let at = places(items, parent, start, b);
    assert(rows_below(all, parent, 0) =~= Seq::<int>::empty());
    assert(below =~= at);
    lemma_parents(items, parent, start, b);
    assert forall|j: int| 0 <= j < items.len() implies {
        &&& all[below[j]].title == (#[trigger] items[j]).title
        &&& all[below[j]].href == (if items[j].href.len() == 0 {
            None
        } else {
            Some(items[j].href)
        })
        &&& nests(all, items[j].children, Some(below[j]))
    } by {
        lemma_entry(items, parent, start, b, j);
        let p = at[j];
        let children = items[j].children;
        let under = toc_rows(children, Some(p), p + 1, b);
        assert(all.subrange(start, end)[p - start] == rows[p - start]);
        assert(all.subrange(p + 1, p + 1 + under.len()) =~= under) by {
            assert forall|k: int| 0 <= k < under.len() implies all.subrange(p + 1, p + 1 + under.len())[k]
                == under[k] by {
                assert(all.subrange(start, end)[p + 1 - start + k] == rows[p + 1 - start + k]);
                assert(rows.subrange(p + 1 - start, p + 1 - start + under.len())[k] == under[k]);
            }
        }
        assert(is_segment(all, children, Some(p), p + 1, b));
        assert forall|k: int|
            0 <= k < all.len() && !(p + 1 <= k < p + 1 + under.len()) implies (#[trigger] all[k]).parent != Some(p)
            && !(all[k].parent matches Some(q) && p + 1 <= q < p + 1 + under.len()) by {
            lemma_others_stay_out(items, parent, start, b, j);
            if start <= k < end {
                assert(all.subrange(start, end)[k - start] == rows[k - start]);
            }
        }
        lemma_nests(all, children, Some(p), p + 1, b);
    }
    assert(below.len() == items.len());
}

/// Rows outside those of an entry lie neither below its row nor below one of them.
proof fn lemma_others_stay_out(
    items: Seq<TocView>,
    parent: Option<int>,
    start: int,
    b: BookView,
    j: int,
)
    requires
        0 <= j < items.len(),
        parent matches Some(p) ==> p < start,
    ensures
        ({
            let rows = toc_rows(items, parent, start, b);
            let p = places(items, parent, start, b)[j];
            let under = toc_rows(items[j].children, Some(p), p + 1, b);
            forall|k: int|
                0 <= k < rows.len() && !(p + 1 <= start + k < p + 1 + under.len()) ==> !((
                #[trigger] rows[k]).parent matches Some(q) && p <= q < p + 1 + under.len())
        }),
    decreases items.len(),
{
    let front = items.drop_last();
    let rows = toc_rows(items, parent, start, b);
    let before = toc_rows(front, parent, start, b);
    let place = start + before.len();
    let last = toc_rows(items.last().children, Some(place), place + 1, b);
    lemma_parents(items.last().children, Some(place), place + 1, b);
    lemma_parents(front, parent, start, b);
    lemma_places_len(front, parent, start, b);
    lemma_entry(items, parent, start, b, j);
    let p = places(items, parent, start, b)[j];
    let under = toc_rows(items[j].children, Some(p), p + 1, b);
    if j < front.len() {
        lemma_others_stay_out(front, parent, start, b, j);
        lemma_entry(front, parent, start, b, j);
        assert(front[j] == items[j]);
        assert(places(front, parent, start, b)[j] == p);
    }
    assert forall|k: int| 0 <= k < rows.len() && !(p + 1 <= start + k < p + 1 + under.len()) implies !((
    #[trigger] rows[k]).parent matches Some(q) && p <= q < p + 1 + under.len()) by {
        if k < before.len() {
            assert(rows[k] == before[k]);
        } else if k > before.len() {
            assert(rows[k] == last[k - before.len() - 1]);
        }
    }
}

/// The rows of a table of contents keep the nesting of its entries: read back along their
/// parents, they are the entries, at every level.
pub proof fn rows_keep_the_nesting(items: Seq<TocView>, b: BookView)
    requires
        items.len() > 0,
    ensures
        nests(book_toc(items, b), items, None),
{
    let rows = toc_rows(items, None, 0, b);
    assert(rows.subrange(0, rows.len() as int) =~= rows);
    lemma_nests(rows, items, None, 0, b);
}

/// Each row of a table of contents leads to the node of its anchor where the book has that, and
/// otherwise to where its chapter begins; a row of a reference to nowhere leads nowhere.
pub proof fn references_lead_to_their_anchors(b: BookView, file: Seq<char>, fragment: Seq<char>)
    requires
        !file.contains('#'),
        !fragment.contains('#'),
        file.len() > 0,
    ensures
        ({
            let path = normalized(file);
            let chapter = if b.chapters.contains_key(path) {
                Some(b.chapters[path])
            } else {
                None
            };
            &&& reference_target(b, file) == chapter
            &&& reference_target(b, file + "#"@ + fragment) == (if fragment.len() > 0
                && b.anchors.contains_key((path, fragment)) {
                Some(b.anchors[(path, fragment)])
            } else {
                chapter
            })
            &&& reference_target(b, Seq::empty()) is None
        }),
{
    reveal_strlit("#");
    assert("#"@ =~= seq!['#']);
    let whole = file + "#"@ + fragment;
    lemma_char_pos(file, '#', 0);
    lemma_char_pos(whole, '#', 0);
    lemma_char_pos(fragment, '#', 0);
    assert(char_pos(file, '#', 0) == file.len()) by {
        if char_pos(file, '#', 0) < file.len() {
            assert(file.contains(file[char_pos(file, '#', 0)]));
        }
    }
    assert(before_char(file, '#') =~= file);
    assert(whole[file.len() as int] == '#');
    let at = char_pos(whole, '#', 0);
    assert(at == file.len()) by {
        if at < file.len() {
            assert(whole[at] == file[at]);
            assert(file.contains(file[at]));
        }
    }
    assert(before_char(whole, '#') =~= file);
    assert(whole.skip(at + 1) =~= fragment);
    assert(char_pos(fragment, '#', 0) == fragment.len()) by {
        if char_pos(fragment, '#', 0) < fragment.len() {
            assert(fragment.contains(fragment[char_pos(fragment, '#', 0)]));
        }
    }
    assert(before_char(fragment, '#') =~= fragment);
}

/// Where each row of a table of contents leads is where its reference leads.
pub proof fn rows_lead_where_they_refer(items: Seq<TocView>, b: BookView, k: int)
    requires
        items.len() > 0,
        0 <= k < book_toc(items, b).len(),
    ensures
        book_toc(items, b)[k].ordinal == k,
        book_toc(items, b)[k].target == (match book_toc(items, b)[k].href {
            Some(href) => reference_target(b, href),
            None => None,
        }),
{
    lemma_targets(items, None, 0, b, k);
}

proof fn lemma_targets(items: Seq<TocView>, parent: Option<int>, start: int, b: BookView, k: int)
    requires
        0 <= k < toc_rows(items, parent, start, b).len(),
    ensures
        ({
            let row = toc_rows(items, parent, start, b)[k];
            &&& row.ordinal == start + k
            &&& row.target == (match row.href {
                Some(href) => reference_target(b, href),
                None => None,
            })
        }),
    decreases items,
{
    let before = toc_rows(items.drop_last(), parent, start, b);
    let place = start + before.len();
    let all = toc_rows(items, parent, start, b);
    if k < before.len() {
        lemma_targets(items.drop_last(), parent, start, b, k);
        assert(all[k] == before[k]);
    } else if k > before.len() {
        let j = k - before.len() - 1;
        lemma_targets(items.last().children, Some(place), place + 1, b, j);
        assert(all[k] == toc_rows(items.last().children, Some(place), place + 1, b)[j]);
    } else {
        assert(items.last().href.len() == 0 ==> items.last().href =~= Seq::<char>::empty());
    }
}

/// A book whose package has no table of contents gets one row for each of its headings, in their
/// order, with the heading's text, leading to it.
pub proof fn headings_make_the_contents(b: BookView, n: int)
    requires
        0 <= n <= b.nodes.len(),
    ensures
        book_toc(Seq::empty(), b) == heading_rows(b.nodes, b.nodes.len() as int),
        forall|k: int|
            0 <= k < heading_rows(b.nodes, n).len() ==> {
                let row = #[trigger] heading_rows(b.nodes, n)[k];
                &&& row.parent is None && row.ordinal == k && row.href is None
                &&& row.target matches Some(t) && 0 <= t < n && b.nodes[t].node_type == "heading"@ && (
                b.nodes[t].content matches Some(title) ==> row.title == title)
            },
        forall|i: int, k: int|
            0 <= i < k < heading_rows(b.nodes, n).len() ==> (#[trigger] heading_rows(b.nodes, n)[i]).target->0 < (
            #[trigger] heading_rows(b.nodes, n)[k]).target->0,
        forall|t: int|
            0 <= t < n && (#[trigger] b.nodes[t]).node_type == "heading"@ ==> leads_to(
                heading_rows(b.nodes, n),
                t,
            ),
    decreases n,
{
    if n > 0 {
        headings_make_the_contents(b, n - 1);
        let before = heading_rows(b.nodes, n - 1);
        let rows = heading_rows(b.nodes, n);
        assert forall|t: int| 0 <= t < n && (#[trigger] b.nodes[t]).node_type == "heading"@ implies leads_to(
            rows,
            t,
        ) by {
            if t < n - 1 {
                assert(leads_to(before, t));
                let k = choose|k: int| 0 <= k < before.len() && (#[trigger] before[k]).target == Some(t);
                assert(rows[k] == before[k]);
            } else {
                assert(rows[before.len() as int].target == Some(t));
            }
        }
        assert forall|i: int, k: int| 0 <= i < k < rows.len() implies (#[trigger] rows[i]).target->0 < (
        #[trigger] rows[k]).target->0 by {
            assert(rows[i] == before[i]);
            if k < before.len() {
                assert(rows[k] == before[k]);
            }
        }
        assert forall|k: int| 0 <= k < rows.len() implies {
            let row = #[trigger] rows[k];
            &&& row.parent is None && row.ordinal == k && row.href is None
            &&& row.target matches Some(t) && 0 <= t < n && b.nodes[t].node_type == "heading"@ && (
            b.nodes[t].content matches Some(title) ==> row.title == title)
        } by {
            if k < before.len() {
                assert(rows[k] == before[k]);
            }
        }
    }
}

/// Some row leads to this node.
pub open spec fn leads_to(rows: Seq<TocRowView>, t: int) -> bool {
    exists|k: int| 0 <= k < rows.len() && (#[trigger] rows[k]).target == Some(t)
}

} // verus!
