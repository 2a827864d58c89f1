//! Where each node of a book starts in the text on the screen.

use vstd::arithmetic::power2::{lemma2_to64, lemma_pow2_pos, pow2};
use vstd::prelude::*;

use crate::double::{
    divide, divided, excess, lemma_excess, lemma_excess_bound, lemma_shortened,
    rounding_keeps_bounds, shorten, shortened, LEAST, LIMIT,
};
use crate::persistence::WHOLE_BOOK;

verus! {

/// The offsets at which the nodes of a book start, in reading order.
pub struct NodeIndex {
    pub entries: Vec<(i64, usize)>,
}

/// The offset of the first of the entries from `k` on that has this id.
pub open spec fn mark_from(entries: Seq<(i64, usize)>, node_id: i64, k: int) -> Option<usize>
    decreases entries.len() - k,
{
    if k < 0 || k >= entries.len() {
        None
    } else if entries[k].0 == node_id {
        Some(entries[k].1)
    } else {
        mark_from(entries, node_id, k + 1)
    }
}

/// The place of the last of the first `n` entries that starts at or before an offset.
pub open spec fn last_at_or_before(entries: Seq<(i64, usize)>, offset: int, n: int) -> Option<int>
    decreases n,
{
    if n <= 0 {
        None
    } else if entries[n - 1].1 <= offset {
        Some(n - 1)
    } else {
        last_at_or_before(entries, offset, n - 1)
    }
}

/// The node on the topmost visible line, which starts at `top`: the last node that starts at or
/// before it, or the first node where none does.
pub open spec fn topmost(entries: Seq<(i64, usize)>, top: int) -> Option<i64> {
    match last_at_or_before(entries, top, entries.len() as int) {
        Some(k) => Some(entries[k].0),
        None => if entries.len() > 0 {
            Some(entries[0].0)
        } else {
            None
        },
    }
}

/// Whether the entries start in the order in which they are listed.
pub open spec fn in_reading_order(entries: Seq<(i64, usize)>) -> bool {
    forall|i: int, j: int| 0 <= i <= j < entries.len() ==> entries[i].1 <= entries[j].1
}

impl View for NodeIndex {
    type V = Seq<(i64, usize)>;

    open spec fn view(&self) -> Seq<(i64, usize)> {
        self.entries@
    }
}

/// The bits of the fraction `offset / total` in double precision: one where the offset lies behind
/// the end, and zero where there is nothing to come through.
pub open spec fn fraction_bits(offset: nat, total: nat) -> int {
    if total == 0 {
        0
    } else if offset >= total {
        WHOLE_BOOK as int
    } else {
        let a = shortened(offset, 0);
        let b = shortened(total, 0);
        divided(a.m, b.m, a.e - b.e).bits()
    }
}

fn fraction_of(offset: usize, total: usize) -> (r: i64)
    ensures
        r == fraction_bits(offset as nat, total as nat),
{
    if total == 0 {
        return 0;
    }
    if offset >= total {
        return WHOLE_BOOK;
    }
    let a = shorten(offset as u128, 0);
    let b = shorten(total as u128, 0);
    proof {
        lemma2_to64();
        lemma_excess_bound(offset as nat, 64);
        lemma_excess_bound(total as nat, 64);
        lemma_shortened(total as nat, 0);
        if total == 1 {
            rounding_keeps_bounds(0, 1, 0, 0);
        } else {
            lemma_at_least_two(total as nat);
        }
        assert(a.m < LIMIT * b.m) by (nonlinear_arith)
            requires
                a.m == 0 && b.m >= 1 || a.m <= LIMIT && b.m >= 2,
                LIMIT == 0x20000000000000,
        ;
    }
    divide(a.m, b.m, a.e - b.e).to_bits()
}

proof fn lemma_at_least_two(n: nat)
    requires
        n >= 2,
    ensures
        shortened(n, 0).m >= 2,
{
    let k = excess(n);
    lemma_excess(n);
    lemma2_to64();
    lemma_pow2_pos(k);
    if k > 0 {
        rounding_keeps_bounds(n, pow2(k), LEAST as nat, LIMIT as nat);
    } else {
        rounding_keeps_bounds(n, 1, n, n);
    }
}

impl NodeIndex {
    /// An index of no nodes.
    pub fn new() -> (r: NodeIndex)
        ensures
            r@ == Seq::<(i64, usize)>::empty(),
    {
        NodeIndex { entries: Vec::new() }
    }

    /// Notes that a node starts at an offset.
    pub fn record(&mut self, offset: usize, node_id: i64)
        ensures
            final(self)@ == old(self)@.push((node_id, offset)),
    {
        self.entries.push((node_id, offset));
    }

    /// Whether no node was recorded.
    pub fn is_empty(&self) -> (r: bool)
        ensures
            r == (self@.len() == 0),
    {
        self.entries.len() == 0
    }

    /// How many nodes were recorded.
    pub fn len(&self) -> (r: usize)
        ensures
            r == self@.len(),
    {
        self.entries.len()
    }

    /// The offset at which a node starts; that of its first entry.
    pub fn mark_for_node(&self, node_id: i64) -> (r: Option<usize>)
        ensures
            r == mark_from(self@, node_id, 0),
    {
        let mut k: usize = 0;
        while k < self.entries.len()
            invariant
                k <= self@.len(),
                mark_from(self@, node_id, 0) == mark_from(self@, node_id, k as int),
            decreases self@.len() - k,
        {
            if self.entries[k].0 == node_id {
                return Some(self.entries[k].1);
            }
            k += 1;
        }
        None
    }

    /// The node on the topmost visible line, which starts at `top_offset`: the last node that
    /// starts at or before it, or the first node where none does.
    pub fn topmost_visible_node_id(&self, top_offset: usize) -> (r: Option<i64>)
        ensures
            r == topmost(self@, top_offset as int),
    {
        let mut n: usize = self.entries.len();
        while n > 0
            invariant
                n <= self@.len(),
                last_at_or_before(self@, top_offset as int, self@.len() as int)
                    == last_at_or_before(self@, top_offset as int, n as int),
            decreases n,
        {
            if self.entries[n - 1].1 <= top_offset {
                return Some(self.entries[n - 1].0);
            }
            n -= 1;
        }
        if self.entries.len() > 0 {
            Some(self.entries[0].0)
        } else {
            None
        }
    }

    /// How far through a text of `total` characters a node stands: the bits of the fraction in
    /// double precision.
    pub fn percent_through(&self, total: usize, node_id: i64) -> (r: Option<i64>)
        ensures
            match r {
                Some(p) => mark_from(self@, node_id, 0) matches Some(offset) && p == fraction_bits(
                    offset as nat,
                    total as nat,
                ),
                None => mark_from(self@, node_id, 0) is None,
            },
    {
        match self.mark_for_node(node_id) {
            None => None,
            Some(offset) => Some(fraction_of(offset, total)),
        }
    }

    /// The offsets at which the nodes start.
    pub fn boundaries(&self) -> (r: Vec<usize>)
        ensures
            r@ == self@.map_values(|e: (i64, usize)| e.1),
    {
        let mut out: Vec<usize> = Vec::new();
        let mut k: usize = 0;
        while k < self.entries.len()
            invariant
                k <= self@.len(),
                out@ =~= self@.take(k as int).map_values(|e: (i64, usize)| e.1),
            decreases self@.len() - k,
        {
            out.push(self.entries[k].1);
            k += 1;
        }
        assert(self@.take(k as int) =~= self@);
        out
    }
}

/// The offset to which a jump of one chapter goes: the first chapter behind the current offset,
/// or, backwards, the last one before it.
pub open spec fn chapter_target(
    chapters: Seq<usize>,
    current: int,
    forward: bool,
) -> Option<usize> {
    if forward {
        first_behind(chapters, current, 0)
    } else {
        last_before(chapters, current, chapters.len() as int)
    }
}

/// The first of the offsets from `k` on that lies behind an offset.
pub open spec fn first_behind(offsets: Seq<usize>, current: int, k: int) -> Option<usize>
    decreases offsets.len() - k,
{
    if k < 0 || k >= offsets.len() {
        None
    } else if offsets[k] > current {
        Some(offsets[k])
    } else {
        first_behind(offsets, current, k + 1)
    }
}

/// The last of the first `n` offsets that lies before an offset.
pub open spec fn last_before(offsets: Seq<usize>, current: int, n: int) -> Option<usize>
    decreases n,
{
    if n <= 0 {
        None
    } else if offsets[n - 1] < current {
        Some(offsets[n - 1])
    } else {
        last_before(offsets, current, n - 1)
    }
}

/// The offset to which a jump of one chapter goes from an offset.
fn chapter_from(chapter_offsets: &Vec<usize>, current: usize, forward: bool) -> (r: Option<usize>)
    ensures
        r == chapter_target(chapter_offsets@, current as int, forward),
{
    if forward {
        let mut k: usize = 0;
        while k < chapter_offsets.len()
            invariant
                forward,
                k <= chapter_offsets@.len(),
                first_behind(chapter_offsets@, current as int, 0) == first_behind(
                    chapter_offsets@,
                    current as int,
                    k as int,
                ),
            decreases chapter_offsets@.len() - k,
        {
            if chapter_offsets[k] > current {
                return Some(chapter_offsets[k]);
            }
            k += 1;
        }
        None
    } else {
        let mut n: usize = chapter_offsets.len();
        while n > 0
            invariant
                !forward,
                n <= chapter_offsets@.len(),
                last_before(chapter_offsets@, current as int, chapter_offsets@.len() as int)
                    == last_before(chapter_offsets@, current as int, n as int),
            decreases n,
        {
            if chapter_offsets[n - 1] < current {
                return Some(chapter_offsets[n - 1]);
            }
            n -= 1;
        }
        None
    }
}

/// Where a jump of one chapter goes from the node on the topmost visible line: to the first
/// chapter that starts behind the node, or backwards to the last that starts before it.
pub fn jump_chapter(
    index: &NodeIndex,
    chapter_offsets: &Vec<usize>,
    top_offset: usize,
    forward: bool,
) -> (r: Option<usize>)
    ensures
        r == (match topmost(index@, top_offset as int) {
            None => None,
            Some(id) => match mark_from(index@, id, 0) {
                None => None,
                Some(current) => chapter_target(chapter_offsets@, current as int, forward),
            },
        }),
{
    match index.topmost_visible_node_id(top_offset) {
        None => None,
        Some(id) => match index.mark_for_node(id) {
            None => None,
            Some(current) => chapter_from(chapter_offsets, current, forward),
        },
    }
}

/// The place that [`last_at_or_before`] gives is one of the entries.
pub proof fn lemma_last_at_or_before(entries: Seq<(i64, usize)>, offset: int, n: int)
    requires
        0 <= n <= entries.len(),
    ensures
        match last_at_or_before(entries, offset, n) {
            Some(k) => 0 <= k < n && entries[k].1 <= offset && forall|j: int|
                k < j < n ==> entries[j].1 > offset,
            None => forall|j: int| 0 <= j < n ==> entries[j].1 > offset,
        },
    decreases n,
{
    if n > 0 && entries[n - 1].1 > offset {
        lemma_last_at_or_before(entries, offset, n - 1);
    }
}

/// In an index in reading order, the topmost visible node starts at or before the top of the
/// screen, and no node that starts there or before it comes later in the book.
pub proof fn topmost_node_is_the_last_above(entries: Seq<(i64, usize)>, top: int, k: int)
    requires
        in_reading_order(entries),
        last_at_or_before(entries, top, entries.len() as int) == Some(k),
    ensures
        0 <= k < entries.len(),
        forall|j: int| 0 <= j <= k ==> entries[j].1 <= top,
        forall|j: int| k < j < entries.len() ==> entries[j].1 > top,
{
    lemma_last_at_or_before(entries, top, entries.len() as int);
    assert forall|j: int| 0 <= j <= k implies entries[j].1 <= top by {
        assert(entries[j].1 <= entries[k].1);
    }
}

/// A jump forwards lands behind the offset it starts from, a jump backwards before it.
pub proof fn jumps_go_somewhere_else(chapters: Seq<usize>, current: int, forward: bool)
    ensures
        match chapter_target(chapters, current, forward) {
            Some(offset) => chapters.contains(offset) && (if forward {
                offset > current
            } else {
                offset < current
            }),
            None => forall|i: int| 0 <= i < chapters.len() ==> if forward {
                chapters[i] <= current
            } else {
                chapters[i] >= current
            },
        },
{
    lemma_first_behind(chapters, current, 0);
    lemma_last_before(chapters, current, chapters.len() as int);
}

proof fn lemma_first_behind(offsets: Seq<usize>, current: int, k: int)
    requires
        0 <= k <= offsets.len(),
    ensures
        match first_behind(offsets, current, k) {
            Some(offset) => offset > current && offsets.contains(offset),
            None => forall|i: int| k <= i < offsets.len() ==> offsets[i] <= current,
        },
    decreases offsets.len() - k,
{
    if k < offsets.len() && offsets[k] <= current {
        lemma_first_behind(offsets, current, k + 1);
    }
}

proof fn lemma_last_before(offsets: Seq<usize>, current: int, n: int)
    requires
        0 <= n <= offsets.len(),
    ensures
        match last_before(offsets, current, n) {
            Some(offset) => offset < current && offsets.contains(offset),
            None => forall|i: int| 0 <= i < n ==> offsets[i] >= current,
        },
    decreases n,
{
    if n > 0 && offsets[n - 1] >= current {
        lemma_last_before(offsets, current, n - 1);
    }
}

} // verus!
