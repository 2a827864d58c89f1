//! An outline shows every entry of a table of contents below the one it belongs to.

use vstd::prelude::*;

use crate::schema::TocEntry;
use crate::toc::{
    ids_are_distinct, outline_from, outline_of, outlines_leave_nothing_out, OutlineRow,
};

verus! {

/// The entries `path` lead down from the entry with id `parent`, each below the one before it.
pub open spec fn leads_down(entries: Seq<TocEntry>, parent: Option<i64>, path: Seq<int>) -> bool
    decreases path.len(),
{
    path.len() > 0 ==> {
        &&& 0 <= path[0] < entries.len()
        &&& entries[path[0]].parent_id == parent
        &&& leads_down(entries, Some(entries[path[0]].id), path.skip(1))
    }
}

proof fn lemma_reached(
    entries: Seq<TocEntry>,
    parent: Option<i64>,
    depth: int,
    levels: int,
    k: int,
    path: Seq<int>,
)
    requires
        path.len() > 0,
        leads_down(entries, parent, path),
        0 <= k <= path[0],
        levels >= path.len(),
    ensures
        outline_from(entries, parent, depth, levels, k).contains(
            OutlineRow { place: path.last() as usize, depth: (depth + path.len() - 1) as usize },
        ),
    decreases levels, entries.len() - k,
{
    let row = OutlineRow { place: path.last() as usize, depth: (depth + path.len() - 1) as usize };
    let whole = outline_from(entries, parent, depth, levels, k);
    let rest = outline_from(entries, parent, depth, levels, k + 1);
    if k < path[0] {
        lemma_reached(entries, parent, depth, levels, k + 1, path);
        let i = choose|i: int| 0 <= i < rest.len() && rest[i] == row;
        assert(whole[whole.len() - rest.len() + i] == row);
    } else if path.len() == 1 {
        assert(whole[0] == row);
    } else {
        let tail = path.skip(1);
        let id = Some(entries[k].id);
        let below = outline_from(entries, id, depth + 1, levels - 1, 0);
        assert(tail.last() == path.last());
        assert(leads_down(entries, id, tail));
        lemma_reached(entries, id, depth + 1, levels - 1, 0, tail);
        let i = choose|i: int| 0 <= i < below.len() && below[i] == row;
        assert(whole[1 + i] == row);
    }
}

/// Every entry that is reached from the top, each below the one before it, is in the outline, as
/// deep as it is many steps from the top.
pub proof fn every_entry_is_in_the_outline(entries: Seq<TocEntry>, path: Seq<int>)
    requires
        ids_are_distinct(entries),
        path.len() > 0,
        leads_down(entries, None, path),
    ensures
        outline_of(entries).contains(OutlineRow { place: path.last() as usize, depth: (path.len() - 1) as usize }),
{
    let levels = if path.len() > entries.len() {
        path.len() as int
    } else {
        entries.len() as int
    };
    outlines_leave_nothing_out(entries, levels);
    lemma_reached(entries, None, 0, levels, 0, path);
}

/// Row `i` stands below row `j`: one step deeper, with nothing between them that is less deep, and
/// its entry belongs to that of row `j`.
pub open spec fn stands_below(entries: Seq<TocEntry>, rows: Seq<OutlineRow>, j: int, i: int) -> bool {
    &&& 0 <= j < i
    &&& rows[i].depth == rows[j].depth + 1
    &&& entries[rows[i].place as int].parent_id == Some(entries[rows[j].place as int].id)
    &&& forall|m: int| j < m < i ==> (#[trigger] rows[m]).depth >= rows[i].depth
}

/// Row `i` is of an entry, at least this deep; if it is just this deep it belongs to `parent`, and if
/// it is deeper it stands below another.
spec fn is_nested_at(entries: Seq<TocEntry>, rows: Seq<OutlineRow>, parent: Option<i64>, depth: int, i: int) -> bool {
    &&& rows[i].place < entries.len()
    &&& rows[i].depth >= depth
    &&& rows[i].depth == depth ==> entries[rows[i].place as int].parent_id == parent
    &&& rows[i].depth > depth ==> exists|j: int| stands_below(entries, rows, j, i)
}

proof fn lemma_shifted(
    entries: Seq<TocEntry>,
    whole: Seq<OutlineRow>,
    rows: Seq<OutlineRow>,
    at: int,
    parent: Option<i64>,
    depth: int,
    i: int,
)
    requires
        0 <= at,
        at + rows.len() <= whole.len(),
        whole.subrange(at, at + rows.len()) == rows,
        0 <= i < rows.len(),
        is_nested_at(entries, rows, parent, depth, i),
    ensures
        is_nested_at(entries, whole, parent, depth, at + i),
{
    let end = at + rows.len();
    assert forall|m: int| 0 <= m < rows.len() implies whole[at + m] == #[trigger] rows[m] by {
        assert(whole.subrange(at, end)[m] == whole[at + m]);
    }
    let ii = at + i;
    if rows[i].depth > depth {
        let j = choose|j: int| stands_below(entries, rows, j, i);
        let jj = at + j;
        assert forall|m: int| jj < m < ii implies (#[trigger] whole[m]).depth >= whole[ii].depth by {
            assert(whole[m] == rows[m - at]);
        }
        assert(stands_below(entries, whole, jj, ii));
    }
}

proof fn lemma_nested(entries: Seq<TocEntry>, parent: Option<i64>, depth: int, levels: int, k: int, i: int)
    requires
        entries.len() <= usize::MAX,
        0 <= depth,
        0 <= k,
        depth + levels <= usize::MAX,
        0 <= i < outline_from(entries, parent, depth, levels, k).len(),
    ensures
        is_nested_at(entries, outline_from(entries, parent, depth, levels, k), parent, depth, i),
    decreases levels, entries.len() - k,
{
    let whole = outline_from(entries, parent, depth, levels, k);
    if levels > 0 && k < entries.len() {
        let rest = outline_from(entries, parent, depth, levels, k + 1);
        if entries[k].parent_id == parent {
            let id = Some(entries[k].id);
            let below = outline_from(entries, id, depth + 1, levels - 1, 0);
            let b = below.len() as int;
            let q = i - 1;
            assert(whole[0] == OutlineRow { place: k as usize, depth: depth as usize });
            if 0 < i <= b {
                lemma_nested(entries, id, depth + 1, levels - 1, 0, q);
                assert(whole.subrange(1, 1 + b) =~= below);
                lemma_shifted(entries, whole, below, 1, id, depth + 1, q);
                if below[q].depth == depth + 1 {
                    assert forall|m: int| 0 < m < i implies (#[trigger] whole[m]).depth >= whole[i].depth by {
                        lemma_nested(entries, id, depth + 1, levels - 1, 0, m - 1);
                        assert(whole[m] == below[m - 1]);
                    }
                    assert(whole[i] == below[q]);
                    assert(stands_below(entries, whole, 0, i));
                }
            } else if i > b {
                let r = i - b - 1;
                lemma_nested(entries, parent, depth, levels, k + 1, r);
                assert(whole.subrange(b + 1, b + 1 + rest.len()) =~= rest);
                lemma_shifted(entries, whole, rest, b + 1, parent, depth, r);
            }
        } else {
            lemma_nested(entries, parent, depth, levels, k + 1, i);
        }
    }
}

/// Every row of an outline is of an entry. One at the top belongs to no other, and any other stands
/// below that of the entry it belongs to.
pub proof fn rows_stand_below_the_entries_they_belong_to(entries: Seq<TocEntry>, i: int)
    requires
        0 <= i < outline_of(entries).len(),
        entries.len() <= usize::MAX,
    ensures
        ({
            let rows = outline_of(entries);
            &&& rows[i].place < entries.len()
            &&& rows[i].depth == 0 ==> entries[rows[i].place as int].parent_id is None
            &&& rows[i].depth > 0 ==> exists|j: int| stands_below(entries, rows, j, i)
        }),
{
    lemma_nested(entries, None, 0, entries.len() as int, 0, i);
}

/// Rows that stand below the same one, or at the top, are in the order of their entries.
pub proof fn rows_keep_the_order_of_their_entries(entries: Seq<TocEntry>, i: int, j: int)
    requires
        0 <= i < j < outline_of(entries).len(),
        entries.len() <= usize::MAX,
        outline_of(entries)[i].depth == outline_of(entries)[j].depth,
        forall|m: int| i < m < j ==> (#[trigger] outline_of(entries)[m]).depth >= outline_of(entries)[i].depth,
    ensures
        outline_of(entries)[i].place < outline_of(entries)[j].place,
{
    lemma_siblings(entries, None, 0, entries.len() as int, 0, i, j);
}

proof fn lemma_first_row(entries: Seq<TocEntry>, parent: Option<i64>, depth: int, levels: int, k: int)
    requires
        0 <= k,
        outline_from(entries, parent, depth, levels, k).len() > 0,
    ensures
        outline_from(entries, parent, depth, levels, k)[0].depth == depth as usize,
    decreases entries.len() - k,
{
    if levels > 0 && k < entries.len() && entries[k].parent_id != parent {
        lemma_first_row(entries, parent, depth, levels, k + 1);
    }
}

proof fn lemma_siblings(
    entries: Seq<TocEntry>,
    parent: Option<i64>,
    depth: int,
    levels: int,
    k: int,
    i: int,
    j: int,
)
    requires
        entries.len() <= usize::MAX,
        0 <= depth,
        0 <= k,
        depth + levels <= usize::MAX,
        0 <= i < j < outline_from(entries, parent, depth, levels, k).len(),
        outline_from(entries, parent, depth, levels, k)[i].depth == outline_from(
            entries,
            parent,
            depth,
            levels,
            k,
        )[j].depth,
        forall|m: int|
            i < m < j ==> (#[trigger] outline_from(entries, parent, depth, levels, k)[m]).depth >= outline_from(
                entries,
                parent,
                depth,
                levels,
                k,
            )[i].depth,
    ensures
        outline_from(entries, parent, depth, levels, k)[i].place < outline_from(
            entries,
            parent,
            depth,
            levels,
            k,
        )[j].place,
    decreases levels, entries.len() - k,
{
    let whole = outline_from(entries, parent, depth, levels, k);
    if levels > 0 && k < entries.len() {
        let rest = outline_from(entries, parent, depth, levels, k + 1);
        if entries[k].parent_id == parent {
            let id = Some(entries[k].id);
            let below = outline_from(entries, id, depth + 1, levels - 1, 0);
            let b = below.len() as int;
            assert(forall|x: int| 0 < x <= b ==> whole[x] == below[x - 1]);
            assert(forall|x: int| b < x < whole.len() ==> whole[x] == rest[x - b - 1]);
            assert(whole[0] == OutlineRow { place: k as usize, depth: depth as usize });
            if whole[i].depth == depth as usize {
                lemma_ordered(entries, parent, depth, levels, k, i, j);
            } else if j <= b {
                assert(i > 0);
                assert forall|m: int| i - 1 < m < j - 1 implies (#[trigger] below[m]).depth >= below[i - 1].depth by {
                    assert(whole[m + 1] == below[m]);
                }
                lemma_siblings(entries, id, depth + 1, levels - 1, 0, i - 1, j - 1);
            } else if i > b {
                let x = i - b - 1;
                let y = j - b - 1;
                assert forall|m: int| x < m < y implies (#[trigger] rest[m]).depth >= rest[x].depth by {
                    assert(whole[m + b + 1] == rest[m]);
                }
                lemma_siblings(entries, parent, depth, levels, k + 1, x, y);
            } else {
                lemma_first_row(entries, parent, depth, levels, k + 1);
                assert(whole[b + 1] == rest[0]);
                lemma_nested(entries, parent, depth, levels, k, i);
                assert(whole[b + 1].depth == depth as usize);
                assert(b + 1 == j || whole[b + 1].depth >= whole[i].depth);
            }
        } else {
            lemma_siblings(entries, parent, depth, levels, k + 1, i, j);
        }
    }
}

proof fn lemma_ordered(
    entries: Seq<TocEntry>,
    parent: Option<i64>,
    depth: int,
    levels: int,
    k: int,
    i: int,
    j: int,
)
    requires
        entries.len() <= usize::MAX,
        0 <= depth,
        0 <= k,
        depth + levels <= usize::MAX,
        0 <= i <= j < outline_from(entries, parent, depth, levels, k).len(),
        outline_from(entries, parent, depth, levels, k)[i].depth == depth,
        outline_from(entries, parent, depth, levels, k)[j].depth == depth,
    ensures
        i < j ==> outline_from(entries, parent, depth, levels, k)[i].place < outline_from(
            entries,
            parent,
            depth,
            levels,
            k,
        )[j].place,
        outline_from(entries, parent, depth, levels, k)[i].place >= k,
    decreases entries.len() - k,
{
    if levels > 0 && k < entries.len() {
        let whole = outline_from(entries, parent, depth, levels, k);
        let rest = outline_from(entries, parent, depth, levels, k + 1);
        if entries[k].parent_id == parent {
            let below = outline_from(entries, Some(entries[k].id), depth + 1, levels - 1, 0);
            let b = below.len() as int;
            if 0 < i <= b {
                lemma_nested(entries, Some(entries[k].id), depth + 1, levels - 1, 0, i - 1);
            }
            if 0 < j <= b {
                lemma_nested(entries, Some(entries[k].id), depth + 1, levels - 1, 0, j - 1);
            }
            assert(0 < i <= b ==> whole[i] == below[i - 1]);
            assert(0 < j <= b ==> whole[j] == below[j - 1]);
            assert(i > b ==> whole[i] == rest[i - b - 1]);
            assert(j > b ==> whole[j] == rest[j - b - 1]);
            if i > b {
                lemma_ordered(entries, parent, depth, levels, k + 1, i - b - 1, j - b - 1);
            } else if j > b {
                lemma_ordered(entries, parent, depth, levels, k + 1, j - b - 1, j - b - 1);
            }
        } else {
            lemma_ordered(entries, parent, depth, levels, k + 1, i, j);
        }
    }
}

} // verus!
