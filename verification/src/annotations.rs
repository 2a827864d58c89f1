//! Annotations on the words of a book: where they stand on the screen, how a selection becomes
//! one, and how they are listed and exported.

use vstd::prelude::*;

use crate::document::{
    content_stands_on_the_screen, content_start, document_text, is_annotatable,
    nodes_start_in_reading_order, opens_stanza, Document,
};
use crate::json::{as_true, get_field, opt_json, Json};
use crate::node_index::{
    in_reading_order, last_at_or_before, lemma_last_at_or_before, mark_from, NodeIndex,
};
use crate::schema::{
    annotations_view, ast_view, opt_text, AnnotationView, AstNode, AstView, NewAnnotation,
    UserAnnotation,
};
use crate::text::same_text;
use crate::toolkit::text_of_option;

verus! {

// ---------------------------------------------------------------------------
// Annotations by node
// ---------------------------------------------------------------------------

/// The annotations of a book, by the node that they are on.
pub struct AnnotationIndex {
    pub groups: Vec<(i64, Vec<UserAnnotation>)>,
}

/// The annotations on a node, in their order.
pub open spec fn on_node(annotations: Seq<AnnotationView>, node_id: i64) -> Seq<AnnotationView> {
    annotations.filter(|a: AnnotationView| a.node_id == node_id)
}

/// The place of the group of a node, from `k` on.
pub open spec fn group_from(
    groups: Seq<(i64, Vec<UserAnnotation>)>,
    node_id: i64,
    k: int,
) -> Option<int>
    decreases groups.len() - k,
{
    if k < 0 || k >= groups.len() {
        None
    } else if groups[k].0 == node_id {
        Some(k)
    } else {
        group_from(groups, node_id, k + 1)
    }
}

impl AnnotationIndex {
    /// The annotations that the index has for a node.
    pub open spec fn at(&self, node_id: i64) -> Seq<AnnotationView> {
        match group_from(self.groups@, node_id, 0) {
            Some(k) => annotations_view(self.groups@[k].1@),
            None => Seq::empty(),
        }
    }

    fn find(&self, node_id: i64) -> (r: Option<usize>)
        ensures
            match r {
                Some(k) => group_from(self.groups@, node_id, 0) == Some(k as int) && k < self.groups@.len(),
                None => group_from(self.groups@, node_id, 0) is None,
            },
    {
        let mut k: usize = 0;
        while k < self.groups.len()
            invariant
                k <= self.groups@.len(),
                group_from(self.groups@, node_id, 0) == group_from(self.groups@, node_id, k as int),
            decreases self.groups@.len() - k,
        {
            if self.groups[k].0 == node_id {
                return Some(k);
            }
            k += 1;
        }
        None
    }

    fn insert(&mut self, a: UserAnnotation)
        ensures
            forall|id: i64| #[trigger]
                final(self).at(id) == if id == a.node_id {
                    old(self).at(id).push(a@)
                } else {
                    old(self).at(id)
                },
    {
        let ghost before = *self;
        let ghost view = a@;
        let node_id: i64 = a.node_id;
        match self.find(node_id) {
            Some(k) => {
                self.groups[k].1.push(a);
                proof {
                    assert(annotations_view(self.groups@[k as int].1@) =~= annotations_view(
                        before.groups@[k as int].1@,
                    ).push(view));
                    assert forall|id: i64| #[trigger] self.at(id) == if id == node_id {
                        before.at(id).push(view)
                    } else {
                        before.at(id)
                    } by {
                        lemma_same_groups(before.groups@, self.groups@, id, 0);
                        lemma_group_from(before.groups@, id, 0);
                        lemma_group_from(before.groups@, node_id, 0);
                    }
                }
            },
            None => {
                let mut group: Vec<UserAnnotation> = Vec::new();
                group.push(a);
                self.groups.push((node_id, group));
                proof {
                    assert(annotations_view(group@) =~= Seq::<AnnotationView>::empty().push(view));
                    assert forall|id: i64| #[trigger] self.at(id) == if id == node_id {
                        before.at(id).push(view)
                    } else {
                        before.at(id)
                    } by {
                        lemma_more_groups(before.groups@, (node_id, group), id, 0);
                        lemma_group_from(before.groups@, id, 0);
                    }
                }
            },
        }
    }

    /// The annotations of a book, put under the nodes that they are on.
    pub fn load(annotations: Vec<UserAnnotation>) -> (r: AnnotationIndex)
        ensures
            forall|id: i64| #[trigger] r.at(id) == on_node(annotations_view(annotations@), id),
    {
        let ghost all = annotations_view(annotations@);
        let total: usize = annotations.len();
        let mut rest = annotations;
        let mut later: Vec<UserAnnotation> = Vec::new();
        while rest.len() > 0
            invariant
                rest@.len() + later@.len() == total,
                total == all.len(),
                annotations_view(rest@) == all.take(rest@.len() as int),
                forall|i: int| 0 <= i < later@.len() ==> (#[trigger] later@[i])@ == all[total - 1 - i],
            decreases rest@.len(),
        {
            let ghost before = rest@;
            proof {
                assert(annotations_view(before)[before.len() - 1] == before.last()@);
            }
            match rest.pop() {
                Some(a) => {
                    assert(annotations_view(rest@) =~= all.take(rest@.len() as int)) by {
                        assert(annotations_view(rest@) =~= annotations_view(before).drop_last());
                    }
                    later.push(a);
                },
                None => {},
            }
        }
        let mut index = AnnotationIndex { groups: Vec::new() };
        let ghost mut done: int = 0;
        assert(all.take(0) =~= Seq::<AnnotationView>::empty());
        while later.len() > 0
            invariant
                total == all.len(),
                done + later@.len() == total,
                0 <= done,
                forall|i: int| 0 <= i < later@.len() ==> (#[trigger] later@[i])@ == all[total - 1 - i],
                forall|id: i64| #[trigger] index.at(id) == on_node(all.take(done), id),
            decreases later@.len(),
        {
            match later.pop() {
                Some(a) => {
                    let ghost view = a@;
                    assert(view == all[done]);
                    index.insert(a);
                    proof {
                        assert forall|id: i64| #[trigger] index.at(id) == on_node(all.take(done + 1), id) by {
                            let keep = |a: AnnotationView| a.node_id == id;
                            all.take(done).lemma_filter_push(view, keep);
                            assert(all.take(done + 1) =~= all.take(done).push(view));
                        }
                        done = done + 1;
                    }
                },
                None => {},
            }
        }
        assert(all.take(done) =~= all);
        index
    }

    /// The annotations on a node.
    pub fn for_node(&self, node_id: i64) -> (r: &[UserAnnotation])
        ensures
            annotations_view(r@) == self.at(node_id),
    {
        match self.find(node_id) {
            Some(k) => self.groups[k].1.as_slice(),
            None => {
                let empty: &[UserAnnotation] = &[];
                assert(annotations_view(empty@) =~= Seq::<AnnotationView>::empty());
                empty
            },
        }
    }
}

proof fn lemma_group_from(groups: Seq<(i64, Vec<UserAnnotation>)>, node_id: i64, k: int)
    requires
        0 <= k,
    ensures
        group_from(groups, node_id, k) matches Some(g) ==> k <= g < groups.len() && groups[g].0 == node_id,
    decreases groups.len() - k,
{
    if k < groups.len() && groups[k].0 != node_id {
        lemma_group_from(groups, node_id, k + 1);
    }
}

proof fn lemma_same_groups(
    a: Seq<(i64, Vec<UserAnnotation>)>,
    b: Seq<(i64, Vec<UserAnnotation>)>,
    node_id: i64,
    k: int,
)
    requires
        a.len() == b.len(),
        forall|i: int| 0 <= i < a.len() ==> (#[trigger] a[i]).0 == b[i].0,
    ensures
        group_from(a, node_id, k) == group_from(b, node_id, k),
    decreases a.len() - k,
{
    if 0 <= k < a.len() {
        assert(a[k].0 == b[k].0);
        lemma_same_groups(a, b, node_id, k + 1);
    }
}

proof fn lemma_more_groups(
    a: Seq<(i64, Vec<UserAnnotation>)>,
    g: (i64, Vec<UserAnnotation>),
    node_id: i64,
    k: int,
)
    requires
        0 <= k <= a.len(),
    ensures
        group_from(a.push(g), node_id, k) == (match group_from(a, node_id, k) {
            Some(i) => Some(i),
            None => if g.0 == node_id {
                Some(a.len() as int)
            } else {
                None
            },
        }),
    decreases a.len() - k,
{
    reveal_with_fuel(group_from, 2);
    if k < a.len() {
        lemma_more_groups(a, g, node_id, k + 1);
    }
}

// ---------------------------------------------------------------------------
// Anchors
// ---------------------------------------------------------------------------

/// Whether every offset of an index is one that a screen can have.
pub open spec fn on_screen(entries: Seq<(i64, usize)>) -> bool {
    forall|k: int| 0 <= k < entries.len() ==> (#[trigger] entries[k]).1 < i32::MAX
}

/// The offset at which the text of a node starts, by an index.
pub open spec fn content_offset(n: AstView, entries: Seq<(i64, usize)>) -> Option<int> {
    match mark_from(entries, n.id as i64, 0) {
        Some(mark) => Some(mark + if opens_stanza(n) {
            1int
        } else {
            0int
        }),
        None => None,
    }
}

proof fn lemma_mark_is_an_entry(entries: Seq<(i64, usize)>, node_id: i64, k: int)
    requires
        0 <= k,
    ensures
        mark_from(entries, node_id, k) matches Some(mark) ==> exists|i: int|
            k <= i < entries.len() && (#[trigger] entries[i]).1 == mark && entries[i].0 == node_id,
    decreases entries.len() - k,
{
    if k < entries.len() && entries[k].0 != node_id {
        lemma_mark_is_an_entry(entries, node_id, k + 1);
    }
}

fn attributes_of(n: &AstNode) -> (r: Option<&Json>)
    ensures
        opt_json(r) == n@.attributes,
{
    match &n.attributes {
        Some(j) => Some(j),
        None => None,
    }
}

/// The offset at which the text of a node starts: where the node does, or below the blank line
/// above it.
pub fn content_start_offset(node: &AstNode, index: &NodeIndex) -> (r: Option<usize>)
    requires
        on_screen(index@),
    ensures
        match r {
            Some(offset) => content_offset(node@, index@) == Some(offset as int) && offset <= i32::MAX,
            None => content_offset(node@, index@) is None,
        },
{
    proof {
        lemma_mark_is_an_entry(index@, node.id, 0);
    }
    match index.mark_for_node(node.id) {
        Some(base) => {
            let stanza_start = same_text(node.node_type.as_str(), "verse_line") && as_true(
                get_field(attributes_of(node), "stanza_start"),
            );
            if stanza_start {
                Some(base + 1)
            } else {
                Some(base)
            }
        },
        None => None,
    }
}

/// The place of the node at an offset, where it starts and where it ends: the last node that
/// starts at or before the offset, up to the start of the next one or the end of the text.
pub open spec fn place_at(
    entries: Seq<(i64, usize)>,
    end: int,
    offset: int,
) -> Option<(int, int, int)> {
    match last_at_or_before(entries, offset, entries.len() as int) {
        Some(k) => Some(
            (
                k,
                entries[k].1 as int,
                if k + 1 < entries.len() {
                    entries[k + 1].1 as int
                } else {
                    end
                },
            ),
        ),
        None => None,
    }
}

/// The place of the node at an offset, where it starts and where it ends.
pub fn node_at_offset(
    index: &NodeIndex,
    end: usize,
    offset: usize,
) -> (r: Option<(usize, usize, usize)>)
    requires
        in_reading_order(index@),
    ensures
        match r {
            Some((k, from, to)) => place_at(index@, end as int, offset as int) == Some(
                (k as int, from as int, to as int),
            ) && k < index@.len() && from <= offset,
            None => place_at(index@, end as int, offset as int) is None,
        },
{
    let total: usize = index.entries.len();
    let mut lo: usize = 0;
    let mut hi: usize = total;
    while lo < hi
        invariant
            lo <= hi <= total,
            total == index@.len(),
            in_reading_order(index@),
            forall|i: int| 0 <= i < lo ==> (#[trigger] index@[i]).1 <= offset,
            forall|i: int| hi <= i < total ==> (#[trigger] index@[i]).1 > offset,
        decreases hi - lo,
    {
        let mid: usize = lo + (hi - lo) / 2;
        if index.entries[mid].1 <= offset {
            assert forall|i: int| 0 <= i <= mid implies (#[trigger] index@[i]).1 <= offset by {
                assert(index@[i].1 <= index@[mid as int].1);
            }
            lo = mid + 1;
        } else {
            assert forall|i: int| mid <= i < total implies (#[trigger] index@[i]).1 > offset by {
                assert(index@[mid as int].1 <= index@[i].1);
            }
            hi = mid;
        }
    }
    proof {
        lemma_last_at_or_before(index@, offset as int, total as int);
    }
    if lo == 0 {
        return None;
    }
    let k: usize = lo - 1;
    assert(index@[k as int].1 <= offset);
    let to: usize = if lo < total {
        index.entries[lo].1
    } else {
        end
    };
    Some((k, index.entries[k].1, to))
}

/// Words that a reader has marked: the node, the characters of it, and where they stand.
pub struct SelectionAnchor {
    pub node_id: i64,
    pub start_offset: i64,
    pub end_offset: i64,
    pub selected_text: String,
    pub buffer_start: usize,
    pub buffer_end: usize,
}

/// How far an offset lies behind another one, and nothing where it lies before it.
pub open spec fn behind(offset: int, start: int) -> int {
    if offset > start {
        offset - start
    } else {
        0
    }
}

/// The place of the node in which a selection lies whole, where a reader can mark words in it.
pub open spec fn anchor_place(
    nodes: Seq<AstView>,
    entries: Seq<(i64, usize)>,
    end: int,
    from: int,
    to: int,
) -> Option<
    int,
> {
    if from >= to {
        None
    } else {
        match place_at(entries, end, from) {
            Some((k, _, node_end)) => if to <= node_end && is_annotatable(nodes[k].node_type) && content_offset(
                nodes[k],
                entries,
            ) is Some {
                Some(k)
            } else {
                None
            },
            None => None,
        }
    }
}

/// Whether words can be marked in nodes of a type.
fn annotatable(node_type: &str) -> (r: bool)
    ensures
        r == is_annotatable(node_type@),
{
    same_text(node_type, "heading") || same_text(node_type, "paragraph") || same_text(node_type, "blockquote")
        || same_text(node_type, "verse_line")
}

/// The words that a selection marks. There are none where nothing is selected, where the
/// selection leaves the node it starts in, and where the node is not one to mark words in.
pub fn resolve_selection_anchor(
    selection: Option<(usize, usize)>,
    selected_text: &str,
    nodes: &Vec<AstNode>,
    index: &NodeIndex,
    end: usize,
) -> (r: Option<SelectionAnchor>)
    requires
        in_reading_order(index@),
        on_screen(index@),
        index@.len() <= nodes@.len(),
        selection matches Some((from, to)) ==> from <= i64::MAX && to <= i64::MAX,
    ensures
        match selection {
            Some((from, to)) => match anchor_place(ast_view(nodes@), index@, end as int, from as int, to as int) {
                Some(k) => {
                    let n = ast_view(nodes@)[k];
                    &&& r matches Some(a)
                    &&& a.node_id == n.id
                    &&& a.start_offset == behind(from as int, content_offset(n, index@)->0)
                    &&& a.end_offset == behind(to as int, content_offset(n, index@)->0)
                    &&& a.selected_text@ == selected_text@
                    &&& a.buffer_start == from
                    &&& a.buffer_end == to
                },
                None => r is None,
            },
            None => r is None,
        },
{
    let (from, to) = match selection {
        Some(s) => s,
        None => return None,
    };
    if from >= to {
        return None;
    }
    let (k, _, node_end) = match node_at_offset(index, end, from) {
        Some(p) => p,
        None => return None,
    };
    let ghost all = ast_view(nodes@);
    assert(all[k as int] == nodes@[k as int]@);
    if to > node_end || !annotatable(nodes[k].node_type.as_str()) {
        return None;
    }
    let start: usize = match content_start_offset(&nodes[k], index) {
        Some(s) => s,
        None => return None,
    };
    let start_offset: usize = if from > start {
        from - start
    } else {
        0
    };
    let end_offset: usize = if to > start {
        to - start
    } else {
        0
    };
    Some(
        SelectionAnchor {
            node_id: nodes[k].id,
            start_offset: start_offset as i64,
            end_offset: end_offset as i64,
            selected_text: selected_text.to_owned(),
            buffer_start: from,
            buffer_end: to,
        },
    )
}

/// Words marked within the text of a node are kept as the characters that they are: their
/// offsets within the node's text give back both the words and the place on the screen.
pub proof fn anchors_quote_the_text(d: Document, nodes: Seq<AstView>, from: int, to: int)
    requires
        d.shows(nodes),
        anchor_place(nodes, d.index@, d.char_count as int, from, to) is Some,
        ({
            let k = anchor_place(nodes, d.index@, d.char_count as int, from, to)->0;
            &&& content_start(nodes, k) <= from
            &&& to <= content_start(nodes, k) + text_of_option(nodes[k].content).len()
            &&& forall|i: int| 0 <= i < k ==> (#[trigger] nodes[i]).id != nodes[k].id
        }),
    ensures
        ({
            let k = anchor_place(nodes, d.index@, d.char_count as int, from, to)->0;
            let start = content_offset(nodes[k], d.index@)->0;
            let words = text_of_option(nodes[k].content).subrange(behind(from, start), behind(to, start));
            &&& start == content_start(nodes, k)
            &&& words == document_text(nodes).subrange(from, to)
            &&& start + behind(from, start) == from
            &&& start + behind(to, start) == to
        }),
{
    let k = anchor_place(nodes, d.index@, d.char_count as int, from, to)->0;
    lemma_last_at_or_before(d.index@, from, d.index@.len() as int);
    assert(d.index@[k].0 == nodes[k].id);
    lemma_mark_of_place(d.index@, nodes, k, 0);
    content_stands_on_the_screen(nodes, k);
    let start = content_start(nodes, k);
    let content = text_of_option(nodes[k].content);
    assert(content_offset(nodes[k], d.index@) == Some(start));
    assert forall|i: int| 0 <= i < to - from implies content.subrange(from - start, to - start)[i] == document_text(
        nodes,
    ).subrange(from, to)[i] by {
        assert(document_text(nodes).subrange(start, start + content.len())[from - start + i] == content[from - start
            + i]);
    }
    assert(content.subrange(from - start, to - start) =~= document_text(nodes).subrange(from, to));
}

proof fn lemma_mark_of_place(entries: Seq<(i64, usize)>, nodes: Seq<AstView>, k: int, i: int)
    requires
        0 <= i <= k < entries.len(),
        entries.len() == nodes.len(),
        forall|j: int| 0 <= j < nodes.len() ==> (#[trigger] entries[j]).0 == nodes[j].id,
        forall|j: int| 0 <= j < k ==> (#[trigger] nodes[j]).id != nodes[k].id,
    ensures
        mark_from(entries, nodes[k].id as i64, i) == Some(entries[k].1),
    decreases k - i,
{
    assert(entries[i].0 == nodes[i].id);
    assert(entries[k].0 == nodes[k].id);
    if i < k {
        lemma_mark_of_place(entries, nodes, k, i + 1);
    }
}

// ---------------------------------------------------------------------------
// Finding annotations
// ---------------------------------------------------------------------------

/// Where an annotation on a text that starts at `start` stands on the screen. Offsets on the
/// screen have 32 bits.
pub open spec fn screen_range(a: AnnotationView, start: int) -> (int, int) {
    (start + (a.start_offset as i32), start + (a.end_offset as i32))
}

/// The place of the first of the annotations from `k` on that covers an offset.
pub open spec fn covering_from(
    annotations: Seq<AnnotationView>,
    start: int,
    offset: int,
    k: int,
) -> Option<int>
    decreases annotations.len() - k,
{
    if k < 0 || k >= annotations.len() {
        None
    } else {
        let (from, to) = screen_range(annotations[k], start);
        if from <= offset < to {
            Some(k)
        } else {
            covering_from(annotations, start, offset, k + 1)
        }
    }
}

/// The node whose text an offset lies in or behind, and where that text starts.
pub open spec fn text_at(
    nodes: Seq<AstView>,
    entries: Seq<(i64, usize)>,
    end: int,
    offset: int,
) -> Option<(int, int)> {
    match place_at(entries, end, offset) {
        Some((k, _, _)) => match content_offset(nodes[k], entries) {
            Some(start) => Some((k, start)),
            None => None,
        },
        None => None,
    }
}

/// Where an annotation on a text that starts at `start` stands on the screen.
pub fn screen_bounds(a: &UserAnnotation, start: usize) -> (r: (i64, i64))
    requires
        start <= i32::MAX,
    ensures
        screen_range(a@, start as int) == (r.0 as int, r.1 as int),
{
    let from: i32 = #[verifier::truncate]
    (a.start_offset as i32);
    let to: i32 = #[verifier::truncate]
    (a.end_offset as i32);
    (start as i64 + from as i64, start as i64 + to as i64)
}

/// The annotation that covers an offset, and where it stands on the screen. The end of an
/// annotation is not part of it.
pub fn find_annotation_at<'a>(
    offset: usize,
    nodes: &Vec<AstNode>,
    index: &NodeIndex,
    end: usize,
    annotations: &'a AnnotationIndex,
) -> (r: Option<(&'a UserAnnotation, i64, i64)>)
    requires
        in_reading_order(index@),
        on_screen(index@),
        index@.len() <= nodes@.len(),
        offset <= i64::MAX,
    ensures
        ({
            let at = text_at(ast_view(nodes@), index@, end as int, offset as int);
            match at {
                Some((k, start)) => {
                    let marked = annotations.at(nodes@[k].id);
                    let hit = if offset < start {
                        None
                    } else {
                        covering_from(marked, start, offset as int, 0)
                    };
                    match r {
                        Some((a, from, to)) => hit is Some && a@ == marked[hit->0] && (from as int, to as int)
                            == screen_range(a@, start),
                        None => hit is None,
                    }
                },
                None => r is None,
            }
        }),
{
    let ghost all = ast_view(nodes@);
    let (k, _, _) = match node_at_offset(index, end, offset) {
        Some(p) => p,
        None => return None,
    };
    assert(all[k as int] == nodes@[k as int]@);
    let start: usize = match content_start_offset(&nodes[k], index) {
        Some(s) => s,
        None => return None,
    };
    if offset < start {
        return None;
    }
    let marked = annotations.for_node(nodes[k].id);
    let ghost views = annotations_view(marked@);
    let total: usize = marked.len();
    let mut i: usize = 0;
    while i < total
        invariant
            i <= total,
            total == marked@.len(),
            start <= i32::MAX,
            start <= offset <= i64::MAX,
            views == annotations_view(marked@),
            views == annotations.at(nodes@[k as int].id),
            text_at(ast_view(nodes@), index@, end as int, offset as int) == Some((k as int, start as int)),
            covering_from(views, start as int, offset as int, 0) == covering_from(
                views,
                start as int,
                offset as int,
                i as int,
            ),
        decreases total - i,
    {
        let a = &marked[i];
        assert(views[i as int] == marked@[i as int]@);
        let (from, to) = screen_bounds(a, start);
        if from <= offset as i64 && (offset as i64) < to {
            return Some((a, from, to));
        }
        i += 1;
    }
    None
}

proof fn lemma_covered(annotations: Seq<AnnotationView>, start: int, offset: int, k: int, m: int)
    requires
        0 <= k <= m < annotations.len(),
        screen_range(annotations[m], start).0 <= offset < screen_range(annotations[m], start).1,
    ensures
        covering_from(annotations, start, offset, k) matches Some(i) && k <= i <= m,
    decreases m - k,
{
    let (from, to) = screen_range(annotations[k], start);
    if !(from <= offset < to) {
        lemma_covered(annotations, start, offset, k + 1, m);
    }
}

/// Words that were marked within the text of a node are found again: the annotation on them stands
/// where they do, and at each of their characters there is an annotation, this one or one before
/// it.
pub proof fn marked_words_are_found_again(
    d: Document,
    nodes: Seq<AstView>,
    from: int,
    to: int,
    marked: Seq<AnnotationView>,
    m: int,
    offset: int,
)
    requires
        d.shows(nodes),
        anchor_place(nodes, d.index@, d.char_count as int, from, to) is Some,
        ({
            let k = anchor_place(nodes, d.index@, d.char_count as int, from, to)->0;
            let start = content_start(nodes, k);
            &&& start <= from
            &&& to <= start + text_of_option(nodes[k].content).len()
            &&& to <= i32::MAX
            &&& forall|i: int| 0 <= i < k ==> (#[trigger] nodes[i]).id != nodes[k].id
            &&& marked[m].start_offset == behind(from, start)
            &&& marked[m].end_offset == behind(to, start)
        }),
        0 <= m < marked.len(),
        from <= offset < to,
    ensures
        ({
            let k = anchor_place(nodes, d.index@, d.char_count as int, from, to)->0;
            let start = content_start(nodes, k);
            &&& text_at(nodes, d.index@, d.char_count as int, offset) == Some((k, start))
            &&& screen_range(marked[m], start) == (from, to)
            &&& covering_from(marked, start, offset, 0) matches Some(i) && i <= m
        }),
{
    let entries = d.index@;
    let k = anchor_place(nodes, entries, d.char_count as int, from, to)->0;
    let start = content_start(nodes, k);
    anchors_quote_the_text(d, nodes, from, to);
    nodes_start_in_reading_order(d, nodes);
    lemma_last_at_or_before(entries, from, entries.len() as int);
    lemma_last_at_or_before(entries, offset, entries.len() as int);
    if k + 1 < entries.len() {
        assert(entries[k + 1].1 >= to);
        assert forall|j: int| k < j < entries.len() implies entries[j].1 > offset by {
            assert(entries[k + 1].1 <= entries[j].1);
        }
    }
    assert(last_at_or_before(entries, offset, entries.len() as int) == Some(k));
    lemma_covered(marked, start, offset, 0, m);
}

/// Where an annotation stands, in lines and pixels.
pub struct Spot {
    pub start_line: i32,
    pub end_line: i32,
    pub start_x: i32,
    pub end_x: i32,
}

impl Spot {
    /// Whether some of the annotation stands on a line: it starts or ends there, or the line lies
    /// between.
    pub open spec fn touches(&self, line: i32) -> bool {
        self.start_line == line || self.end_line == line || self.start_line < line < self.end_line
    }

    /// How far to the side of the annotation a click lies.
    pub open spec fn distance(&self, x: i32) -> int {
        if x < self.start_x {
            self.start_x - x
        } else {
            behind(x as int, self.end_x as int)
        }
    }
}

/// The place of the one of the first `n` annotations that touches the line of a click and is
/// nearest to it; of those that are equally near, the first.
pub open spec fn nearest(spots: Seq<Spot>, line: i32, x: i32, n: int) -> Option<int>
    decreases n,
{
    if n <= 0 {
        None
    } else {
        let before = nearest(spots, line, x, n - 1);
        if spots[n - 1].touches(line) && (before is None || spots[n - 1].distance(x)
            < spots[before->0].distance(x)) {
            Some(n - 1)
        } else {
            before
        }
    }
}

/// The place of the annotation that touches the line of a click and is nearest to it; of those
/// that are equally near, the first.
pub fn nearest_spot(spots: &Vec<Spot>, line: i32, x: i32) -> (r: Option<usize>)
    ensures
        match r {
            Some(k) => k < spots@.len() && nearest(spots@, line, x, spots@.len() as int) == Some(k as int),
            None => nearest(spots@, line, x, spots@.len() as int) is None,
        },
{
    let mut best: Option<usize> = None;
    let mut least: i64 = 0;
    let mut i: usize = 0;
    while i < spots.len()
        invariant
            i <= spots@.len(),
            match best {
                Some(k) => {
                    &&& k < i
                    &&& nearest(spots@, line, x, i as int) == Some(k as int)
                    &&& least == spots@[k as int].distance(x)
                },
                None => nearest(spots@, line, x, i as int) is None,
            },
        decreases spots@.len() - i,
    {
        let s = &spots[i];
        if s.start_line == line || s.end_line == line || (s.start_line < line && line < s.end_line) {
            let dist: i64 = if x < s.start_x {
                s.start_x as i64 - x as i64
            } else if x > s.end_x {
                x as i64 - s.end_x as i64
            } else {
                0
            };
            if best.is_none() || dist < least {
                best = Some(i);
                least = dist;
            }
        }
        i += 1;
    }
    best
}

/// The annotation that is nearest to a click touches its line, none that touches the line is
/// nearer, and there is one whenever any touches the line.
pub proof fn nearest_annotations_are_nearest(spots: Seq<Spot>, line: i32, x: i32, n: int)
    requires
        0 <= n <= spots.len(),
    ensures
        match nearest(spots, line, x, n) {
            Some(k) => {
                &&& 0 <= k < n
                &&& spots[k].touches(line)
                &&& forall|i: int|
                    0 <= i < n && (#[trigger] spots[i]).touches(line) ==> spots[k].distance(x)
                        <= spots[i].distance(x)
            },
            None => forall|i: int| 0 <= i < n ==> !(#[trigger] spots[i]).touches(line),
        },
    decreases n,
{
    if n > 0 {
        nearest_annotations_are_nearest(spots, line, x, n - 1);
    }
}

/// The annotation that a click at an offset means, among those on the node there: the one that
/// covers the offset, or else the one nearest to the click.
pub open spec fn clicked(
    marked: Seq<AnnotationView>,
    start: int,
    offset: int,
    spots: Seq<Spot>,
    line: i32,
    x: i32,
) -> Option<int> {
    let exact = if offset < start {
        None
    } else {
        covering_from(marked, start, offset, 0)
    };
    if exact is Some {
        exact
    } else {
        nearest(spots, line, x, spots.len() as int)
    }
}

/// The annotation that a click means, and where it stands on the screen: the one that covers the
/// offset of the click, or else the nearest on its line, given where the annotations of the node
/// there stand.
pub fn find_annotation_near<'a>(
    offset: usize,
    line: i32,
    x: i32,
    spots: &Vec<Spot>,
    nodes: &Vec<AstNode>,
    index: &NodeIndex,
    end: usize,
    annotations: &'a AnnotationIndex,
) -> (r: Option<(&'a UserAnnotation, i64, i64)>)
    requires
        in_reading_order(index@),
        on_screen(index@),
        index@.len() <= nodes@.len(),
        offset <= i64::MAX,
        text_at(ast_view(nodes@), index@, end as int, offset as int) matches Some((k, _))
            ==> spots@.len() == annotations.at(nodes@[k].id).len(),
    ensures
        match text_at(ast_view(nodes@), index@, end as int, offset as int) {
            Some((k, start)) => {
                let marked = annotations.at(nodes@[k].id);
                let hit = clicked(marked, start, offset as int, spots@, line, x);
                match r {
                    Some((a, from, to)) => hit is Some && a@ == marked[hit->0] && (from as int, to as int)
                        == screen_range(a@, start),
                    None => hit is None,
                }
            },
            None => r is None,
        },
{
    let ghost all = ast_view(nodes@);
    let exact = find_annotation_at(offset, nodes, index, end, annotations);
    if exact.is_some() {
        return exact;
    }
    let (k, _, _) = match node_at_offset(index, end, offset) {
        Some(p) => p,
        None => return None,
    };
    assert(all[k as int] == nodes@[k as int]@);
    let start: usize = match content_start_offset(&nodes[k], index) {
        Some(s) => s,
        None => return None,
    };
    let marked = annotations.for_node(nodes[k].id);
    match nearest_spot(spots, line, x) {
        Some(m) => {
            let a = &marked[m];
            let (from, to) = screen_bounds(a, start);
            assert(annotations_view(marked@)[m as int] == a@);
            Some((a, from, to))
        },
        None => None,
    }
}

/// Whether a selection is one whole word: it starts where a word does, ends where one does, and
/// the word that starts there ends there.
pub fn selection_is_single_word(
    starts_word: bool,
    ends_word: bool,
    next_word_end: usize,
    end: usize,
) -> (r: bool)
    ensures
        r == (starts_word && ends_word && next_word_end == end),
{
    starts_word && ends_word && next_word_end == end
}

/// What follows when the reader lets go of the mouse.
#[derive(Clone, Copy, Debug, PartialEq, Eq, Structural)]
pub enum ReleaseAction {
    LookUpWord,
    CreateAnnotation,
    ViewAnnotation,
    Nothing,
}

/// What follows when the reader lets go of the mouse: a selected word is looked up, other
/// selected words are marked, and a click shows the annotation under it unless it has just
/// closed another one.
pub fn handle_release(
    had_open_popover: bool,
    has_selection: bool,
    single_word: bool,
    anchored: bool,
    hit: bool,
) -> (r: ReleaseAction)
    ensures
        r == ReleaseAction::LookUpWord <==> has_selection && single_word,
        r == ReleaseAction::CreateAnnotation <==> has_selection && !single_word && anchored,
        r == ReleaseAction::ViewAnnotation <==> !has_selection && !had_open_popover && hit,
{
    if has_selection {
        if single_word {
            ReleaseAction::LookUpWord
        } else if anchored {
            ReleaseAction::CreateAnnotation
        } else {
            ReleaseAction::Nothing
        }
    } else if !had_open_popover && hit {
        ReleaseAction::ViewAnnotation
    } else {
        ReleaseAction::Nothing
    }
}

/// The name under which a reader's annotations are written.
pub const AUTHOR_NAME: &'static str = "Reader";

/// The annotation to be written for marked words.
pub fn create_annotation(
    anchor: &SelectionAnchor,
    annotation_type: &str,
    comment: Option<String>,
    asset_id: Option<i64>,
) -> (r: NewAnnotation)
    ensures
        r.node_id == anchor.node_id,
        r.start_offset == anchor.start_offset,
        r.end_offset == anchor.end_offset,
        opt_text(r.selected_text) == Some(anchor.selected_text@),
        r.annotation_type@ == annotation_type@,
        r.comment == comment,
        r.asset_id == asset_id,
        r.author_name@ == "Reader"@,
{
    NewAnnotation {
        node_id: anchor.node_id,
        start_offset: anchor.start_offset,
        end_offset: anchor.end_offset,
        selected_text: Some(anchor.selected_text.clone()),
        annotation_type: annotation_type.to_owned(),
        comment,
        asset_id,
        author_name: AUTHOR_NAME.to_owned(),
    }
}

} // verus!
