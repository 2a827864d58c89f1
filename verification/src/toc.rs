//! The outline that a table of contents gives, and the places it leads to.

use vstd::prelude::*;

use crate::node_index::{mark_from, NodeIndex};
use crate::schema::TocEntry;
use crate::text::{push_repeated, push_signed, repeated, signed_decimal};

verus! {

/// A line of an outline: the place of the entry, and how deep it stands.
#[derive(Clone, Copy, Debug, PartialEq, Eq, Structural)]
pub struct OutlineRow {
    pub place: usize,
    pub depth: usize,
}

/// The entries below `parent`, from place `k` on, each followed by those below it. At most
/// `levels` levels are gone down.
pub open spec fn outline_from(
    entries: Seq<TocEntry>,
    parent: Option<i64>,
    depth: int,
    levels: int,
    k: int,
) -> Seq<OutlineRow>
    decreases levels, entries.len() - k,
{
    if levels <= 0 || k < 0 || k >= entries.len() {
        Seq::empty()
    } else if entries[k].parent_id == parent {
        seq![OutlineRow { place: k as usize, depth: depth as usize }] + outline_from(
            entries,
            Some(entries[k].id),
            depth + 1,
            levels - 1,
            0,
        ) + outline_from(entries, parent, depth, levels, k + 1)
    } else {
        outline_from(entries, parent, depth, levels, k + 1)
    }
}

/// The outline of a table of contents: every entry that hangs from the top, each followed by
/// those below it. No outline has more levels than there are entries.
pub open spec fn outline_of(entries: Seq<TocEntry>) -> Seq<OutlineRow> {
    outline_from(entries, None, 0, entries.len() as int, 0)
}

fn same_parent(a: Option<i64>, b: Option<i64>) -> (r: bool)
    ensures
        r == (a == b),
{
    match (a, b) {
        (Some(x), Some(y)) => x == y,
        (None, None) => true,
        _ => false,
    }
}

fn push_children(
    out: &mut Vec<OutlineRow>,
    entries: &Vec<TocEntry>,
    parent: Option<i64>,
    depth: usize,
    levels: usize,
)
    requires
        depth + levels <= entries@.len(),
    ensures
        final(out)@ == old(out)@ + outline_from(entries@, parent, depth as int, levels as int, 0),
    decreases levels,
{
    let ghost before = out@;
    let total: usize = entries.len();
    if levels == 0 {
        assert(before + Seq::<OutlineRow>::empty() =~= before);
        return ;
    }
    let mut k: usize = 0;
    let ghost whole = outline_from(entries@, parent, depth as int, levels as int, 0);
    while k < total
        invariant
            k <= total,
            total == entries@.len(),
            levels > 0,
            depth + levels <= total,
            whole == outline_from(entries@, parent, depth as int, levels as int, 0),
            out@ + outline_from(entries@, parent, depth as int, levels as int, k as int) == before + whole,
        decreases total - k,
    {
        let ghost sofar = out@;
        if same_parent(entries[k].parent_id, parent) {
            out.push(OutlineRow { place: k, depth });
            push_children(out, entries, Some(entries[k].id), depth + 1, levels - 1);
        }
        k += 1;
        assert(out@ + outline_from(entries@, parent, depth as int, levels as int, k as int) =~= sofar + outline_from(
            entries@,
            parent,
            depth as int,
            levels as int,
            k - 1,
        ));
    }
    assert(out@ + Seq::<OutlineRow>::empty() =~= out@);
}

/// The outline of a table of contents.
pub fn outline(entries: &Vec<TocEntry>) -> (r: Vec<OutlineRow>)
    ensures
        r@ == outline_of(entries@),
{
    let mut out: Vec<OutlineRow> = Vec::new();
    push_children(&mut out, entries, None, 0, entries.len());
    assert(out@ =~= outline_of(entries@));
    out
}

/// Whether no two entries have the same id.
pub open spec fn ids_are_distinct(entries: Seq<TocEntry>) -> bool {
    forall|i: int, j: int|
        0 <= i < entries.len() && 0 <= j < entries.len() && i != j ==> (#[trigger] entries[i]).id != (
        #[trigger] entries[j]).id
}

/// Whether places lead from the top downwards, each entry below the one before.
pub open spec fn is_path(entries: Seq<TocEntry>, path: Seq<int>) -> bool {
    &&& forall|i: int| 0 <= i < path.len() ==> 0 <= #[trigger] path[i] < entries.len()
    &&& path.len() > 0 ==> entries[path[0]].parent_id is None
    &&& forall|i: int|
        #![trigger path[i]]
        0 < i < path.len() ==> entries[path[i]].parent_id == Some(entries[path[i - 1]].id)
}

proof fn lemma_path_does_not_return(entries: Seq<TocEntry>, path: Seq<int>, i: int, j: int)
    requires
        ids_are_distinct(entries),
        is_path(entries, path),
        0 <= i < j < path.len(),
    ensures
        path[i] != path[j],
    decreases i,
{
    if path[i] == path[j] {
        assert(entries[path[j]].parent_id == Some(entries[path[j - 1]].id));
        if i > 0 {
            assert(entries[path[i]].parent_id == Some(entries[path[i - 1]].id));
            lemma_path_does_not_return(entries, path, i - 1, j - 1);
        }
    }
}

proof fn lemma_distinct_places(path: Seq<int>, n: nat)
    requires
        path.no_duplicates(),
        forall|i: int| 0 <= i < path.len() ==> 0 <= #[trigger] path[i] < n,
    ensures
        path.len() <= n,
    decreases n,
{
    if n == 0 {
        if path.len() > 0 {
            assert(0 <= path[0] < n);
        }
    } else {
        let last = n - 1;
        if path.contains(last) {
            let at = path.index_of(last);
            let rest = path.remove(at);
            assert forall|i: int| 0 <= i < rest.len() implies 0 <= #[trigger] rest[i] < n - 1 by {
                let from = if i < at { i } else { i + 1 };
                assert(rest[i] == path[from]);
                assert(0 <= path[from] < n);
                assert(path[from] != path[at]);
            }
            assert(rest.no_duplicates()) by {
                assert forall|i: int, j: int| 0 <= i < rest.len() && 0 <= j < rest.len() && i != j implies rest[i]
                    != rest[j] by {
                    let a = if i < at { i } else { i + 1 };
                    let b = if j < at { j } else { j + 1 };
                    assert(rest[i] == path[a] && rest[j] == path[b]);
                }
            }
            lemma_distinct_places(rest, (n - 1) as nat);
        } else {
            assert forall|i: int| 0 <= i < path.len() implies 0 <= #[trigger] path[i] < n - 1 by {
                assert(path.contains(path[i]));
            }
            lemma_distinct_places(path, (n - 1) as nat);
        }
    }
}

proof fn lemma_path_is_short(entries: Seq<TocEntry>, path: Seq<int>)
    requires
        ids_are_distinct(entries),
        is_path(entries, path),
    ensures
        path.len() <= entries.len(),
{
    assert(path.no_duplicates()) by {
        assert forall|i: int, j: int| 0 <= i < path.len() && 0 <= j < path.len() && i != j implies path[i]
            != path[j] by {
            if i < j {
                lemma_path_does_not_return(entries, path, i, j);
            } else {
                lemma_path_does_not_return(entries, path, j, i);
            }
        }
    }
    lemma_distinct_places(path, entries.len());
}

/// The parent of the entries at the end of a path.
pub open spec fn end_of_path(entries: Seq<TocEntry>, path: Seq<int>) -> Option<i64> {
    if path.len() == 0 {
        None
    } else {
        Some(entries[path.last()].id)
    }
}

proof fn lemma_levels_suffice(entries: Seq<TocEntry>, path: Seq<int>, levels: int, k: int)
    requires
        ids_are_distinct(entries),
        is_path(entries, path),
        0 <= k <= entries.len(),
        levels >= entries.len() - path.len(),
    ensures
        outline_from(entries, end_of_path(entries, path), path.len() as int, levels, k) == outline_from(
            entries,
            end_of_path(entries, path),
            path.len() as int,
            entries.len() - path.len(),
            k,
        ),
    decreases entries.len() - path.len(), entries.len() - k,
{
    lemma_path_is_short(entries, path);
    let parent = end_of_path(entries, path);
    if k < entries.len() {
        lemma_levels_suffice(entries, path, levels, k + 1);
        if entries[k].parent_id == parent {
            let longer = path.push(k);
            assert(is_path(entries, longer)) by {
                assert forall|i: int| 0 < i < longer.len() implies entries[#[trigger] longer[i]].parent_id == Some(
                    entries[longer[i - 1]].id,
                ) by {
                    if i < path.len() {
                        assert(entries[path[i]].parent_id == Some(entries[path[i - 1]].id));
                    }
                }
            }
            lemma_path_is_short(entries, longer);
            lemma_levels_suffice(entries, longer, levels - 1, 0);
        }
    }
}

/// Going down further than there are entries changes nothing: an outline holds all that hangs
/// from the top, however deep.
pub proof fn outlines_leave_nothing_out(entries: Seq<TocEntry>, levels: int)
    requires
        ids_are_distinct(entries),
        levels >= entries.len(),
    ensures
        outline_of(entries) == outline_from(entries, None, 0, levels, 0),
{
    lemma_levels_suffice(entries, Seq::empty(), levels, 0);
}

proof fn lemma_in_outline(
    entries: Seq<TocEntry>,
    parent: Option<i64>,
    depth: int,
    levels: int,
    k: int,
    p: int,
)
    requires
        0 <= k <= p < entries.len(),
        entries.len() <= usize::MAX,
        levels > 0,
        entries[p].parent_id == parent,
    ensures
        outline_from(entries, parent, depth, levels, k).contains(
            OutlineRow { place: p as usize, depth: depth as usize },
        ),
    decreases p - k,
{
    let row = OutlineRow { place: p as usize, depth: depth as usize };
    let whole = outline_from(entries, parent, depth, levels, k);
    if k == p {
        assert(whole[0] == row);
    } else {
        lemma_in_outline(entries, parent, depth, levels, k + 1, p);
        let rest = outline_from(entries, parent, depth, levels, k + 1);
        let at = rest.index_of(row);
        assert(whole[whole.len() - rest.len() + at] == row);
    }
}

/// Every entry at the top stands in the outline, at no depth.
pub proof fn top_entries_are_listed(entries: Seq<TocEntry>, p: int)
    requires
        0 <= p < entries.len(),
        entries.len() <= usize::MAX,
        entries[p].parent_id is None,
    ensures
        outline_of(entries).contains(OutlineRow { place: p as usize, depth: 0 }),
{
    lemma_in_outline(entries, None, 0, entries.len() as int, 0, p);
}

// ---------------------------------------------------------------------------
// Lines and targets
// ---------------------------------------------------------------------------

/// What a line of an outline says of where the entry leads.
pub open spec fn target_text(target: Option<i64>) -> Seq<char> {
    match target {
        Some(id) => "-> Node #"@ + signed_decimal(id as int),
        None => "(unlinked)"@,
    }
}

/// What a line of an outline says of where the entry leads.
pub fn toc_target(target: Option<i64>) -> (r: String)
    ensures
        r@ == target_text(target),
{
    match target {
        Some(id) => {
            let mut out = "-> Node #".to_owned();
            push_signed(&mut out, id);
            out
        },
        None => "(unlinked)".to_owned(),
    }
}

/// What stands before the title on a line of an outline at a depth.
pub fn toc_indent(depth: usize) -> (r: String)
    requires
        depth < usize::MAX,
    ensures
        r@ == repeated("  "@, (depth + 1) as nat),
{
    let mut out = String::new();
    push_repeated(&mut out, "  ", depth + 1);
    assert(out@ =~= repeated("  "@, (depth + 1) as nat));
    out
}

/// The offsets of the nodes that the first `n` entries lead to.
pub open spec fn target_marks(
    entries: Seq<TocEntry>,
    marks: Seq<(i64, usize)>,
    n: int,
) -> Seq<usize>
    decreases n,
{
    if n <= 0 {
        Seq::empty()
    } else {
        let before = target_marks(entries, marks, n - 1);
        match entries[n - 1].target_node_id {
            Some(id) => match mark_from(marks, id, 0) {
                Some(offset) => before.push(offset),
                None => before,
            },
            None => before,
        }
    }
}

/// Whether offsets rise.
pub open spec fn is_rising(offsets: Seq<usize>) -> bool {
    forall|i: int, j: int| 0 <= i <= j < offsets.len() ==> offsets[i] <= offsets[j]
}

fn insert_sorted(offsets: &mut Vec<usize>, offset: usize)
    requires
        is_rising(old(offsets)@),
    ensures
        is_rising(final(offsets)@),
        final(offsets)@.to_multiset() == old(offsets)@.to_multiset().insert(offset),
{
    let ghost before = offsets@;
    let mut pos: usize = offsets.len();
    while pos > 0 && offsets[pos - 1] > offset
        invariant
            pos <= offsets@.len(),
            offsets@ == before,
            is_rising(before),
            forall|i: int| pos <= i < before.len() ==> before[i] > offset,
        decreases pos,
    {
        pos -= 1;
    }
    offsets.insert(pos, offset);
    proof {
        offsets@.to_multiset_ensures();
        assert(offsets@.remove(pos as int) =~= before);
        assert(offsets@[pos as int] == offset);
        assert(offsets@.contains(offset));
        assert(offsets@.to_multiset() =~= before.to_multiset().insert(offset));
        assert forall|i: int, j: int| 0 <= i <= j < offsets@.len() implies offsets@[i] <= offsets@[j] by {
            let a = if i < pos { i } else { i - 1 };
            let b = if j < pos { j } else { j - 1 };
            if i != pos && j != pos {
                assert(before[a] <= before[b]);
            } else if j == pos && i < pos {
                assert(before[i] <= before[pos - 1]);
            }
        }
    }
}

/// The offsets of the nodes that the entries of a table of contents lead to, in order.
pub fn chapter_offsets(entries: &Vec<TocEntry>, index: &NodeIndex) -> (r: Vec<usize>)
    ensures
        is_rising(r@),
        r@.to_multiset() == target_marks(entries@, index@, entries@.len() as int).to_multiset(),
{
    let mut out: Vec<usize> = Vec::new();
    let mut k: usize = 0;
    assert(out@ =~= Seq::<usize>::empty());
    while k < entries.len()
        invariant
            k <= entries@.len(),
            is_rising(out@),
            out@.to_multiset() == target_marks(entries@, index@, k as int).to_multiset(),
        decreases entries@.len() - k,
    {
        if let Some(id) = entries[k].target_node_id {
            if let Some(offset) = index.mark_for_node(id) {
                insert_sorted(&mut out, offset);
                proof {
                    target_marks(entries@, index@, k as int).to_multiset_ensures();
                }
            }
        }
        k += 1;
    }
    out
}

} // verus!
