//! Lines, and texts that are made of them.

use vstd::prelude::*;

use crate::text::join;

verus! {

/// Lines, each with a line feed behind it.
pub open spec fn closed(lines: Seq<Seq<char>>) -> Seq<char> {
    join(lines.push(Seq::empty()), "\n"@)
}

pub(crate) proof fn lemma_newline()
    ensures
        "\n"@ == seq!['\n'],
{
    reveal_strlit("\n");
    assert("\n"@ =~= seq!['\n']);
}

/// One more line stands behind the others, with its line feed.
pub proof fn lines_are_closed_one_by_one(lines: Seq<Seq<char>>, line: Seq<char>)
    ensures
        closed(Seq::empty()) == Seq::<char>::empty(),
        closed(lines.push(line)) == closed(lines) + line + "\n"@,
{
    lemma_newline();
    let none = Seq::<Seq<char>>::empty().push(Seq::<char>::empty());
    assert(join(none, "\n"@) == none[0]);
    let more = lines.push(line);
    assert(more.push(Seq::empty()).drop_last() =~= more);
    assert(more.drop_last() =~= lines);
    assert(lines.push(Seq::<char>::empty()).drop_last() =~= lines);
    if lines.len() == 0 {
        assert(lines =~= Seq::<Seq<char>>::empty());
        assert(join(more, "\n"@) == more[0]);
        assert(closed(lines) =~= Seq::<char>::empty());
    } else {
        assert(closed(lines) =~= join(lines, "\n"@) + "\n"@);
        assert(join(more, "\n"@) =~= join(lines, "\n"@) + "\n"@ + line);
    }
    assert(closed(more) =~= join(more, "\n"@) + "\n"@);
    assert(closed(more) =~= closed(lines) + line + "\n"@);
}

/// Texts one after another.
pub open spec fn in_a_row(parts: Seq<Seq<char>>) -> Seq<char> {
    join(parts, Seq::empty())
}

pub(crate) proof fn lemma_in_a_row(parts: Seq<Seq<char>>, part: Seq<char>)
    ensures
        in_a_row(Seq::empty()) == Seq::<char>::empty(),
        in_a_row(parts.push(part)) == in_a_row(parts) + part,
{
    let more = parts.push(part);
    assert(more.drop_last() =~= parts);
    if parts.len() == 0 {
        assert(join(more, Seq::empty()) == more[0]);
        assert(in_a_row(parts) =~= Seq::<char>::empty());
        assert(in_a_row(parts) + part =~= part);
    } else {
        assert(join(more, Seq::empty()) =~= join(parts, Seq::empty()) + part);
    }
}

} // verus!
