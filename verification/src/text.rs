//! Text as sequences of characters.

use vstd::prelude::*;

verus! {

/// `String::push` appends one character.
pub assume_specification[ String::push ](string: &mut String, ch: char)
    ensures
        final(string)@ == old(string)@.push(ch),
;

/// `String::push_str` appends a string slice.
pub assume_specification[ String::push_str ](string: &mut String, tail: &str)
    ensures
        final(string)@ == old(string)@ + tail@,
;

/// `lines` one below the other: joined by line breaks, without one at the end.
pub open spec fn join_lines(lines: Seq<Seq<char>>) -> Seq<char>
    decreases lines.len(),
{
    if lines.len() == 0 {
        Seq::empty()
    } else if lines.len() == 1 {
        lines[0]
    } else {
        join_lines(lines.drop_last()).push('\n') + lines.last()
    }
}

/// One more line is joined by a line break, unless it is the first.
pub proof fn lemma_join_lines_next(lines: Seq<Seq<char>>, i: int)
    requires
        0 <= i < lines.len(),
    ensures
        join_lines(lines.take(i + 1)) == if i == 0 {
            lines[0]
        } else {
            join_lines(lines.take(i)).push('\n') + lines[i]
        },
{
    assert(lines.take(i + 1).drop_last() =~= lines.take(i));
}

/// Two blocks of lines, one below the other, are joined by a line break, unless
/// one of them is empty.
pub proof fn lemma_join_lines_add(upper: Seq<Seq<char>>, lower: Seq<Seq<char>>)
    ensures
        join_lines(upper + lower) == if upper.len() == 0 {
            join_lines(lower)
        } else if lower.len() == 0 {
            join_lines(upper)
        } else {
            join_lines(upper).push('\n') + join_lines(lower)
        },
    decreases lower.len(),
{
    if lower.len() == 0 {
        assert(upper + lower =~= upper);
    } else if upper.len() == 0 {
        assert(upper + lower =~= lower);
    } else {
        lemma_join_lines_add(upper, lower.drop_last());
        assert((upper + lower).drop_last() =~= upper + lower.drop_last());
        assert(join_lines(upper + lower) =~= join_lines(upper).push('\n') + join_lines(lower));
    }
}

/// The lines of `text`, which line breaks separate.
pub open spec fn split_lines(text: Seq<char>) -> Seq<Seq<char>>
    decreases text.len(),
{
    if text.len() == 0 {
        seq![Seq::empty()]
    } else {
        let above = split_lines(text.drop_last());
        if text.last() == '\n' {
            above.push(Seq::empty())
        } else {
            above.drop_last().push(above.last().push(text.last()))
        }
    }
}

/// A line behind a line break is split off as it is.
proof fn lemma_split_last_line(above: Seq<char>, line: Seq<char>)
    requires
        !line.contains('\n'),
    ensures
        split_lines(above.push('\n') + line) == split_lines(above).push(line),
    decreases line.len(),
{
    let all = above.push('\n') + line;
    if line.len() == 0 {
        assert(all =~= above.push('\n'));
        assert(all.drop_last() =~= above);
        assert(line =~= Seq::empty());
    } else {
        let shorter = line.drop_last();
        assert forall|i: int| 0 <= i < shorter.len() implies shorter[i] != '\n' by {
            assert(line.contains(line[i]));
        }
        lemma_split_last_line(above, shorter);
        assert(line.contains(line.last()));
        assert(all.drop_last() =~= above.push('\n') + shorter);
        assert(shorter.push(line.last()) =~= line);
        assert(split_lines(all) =~= split_lines(above).push(line));
    }
}

/// A text without line breaks is one line.
proof fn lemma_split_one_line(line: Seq<char>)
    requires
        !line.contains('\n'),
    ensures
        split_lines(line) == seq![line],
    decreases line.len(),
{
    if line.len() == 0 {
        assert(line =~= Seq::empty());
    } else {
        let shorter = line.drop_last();
        assert forall|i: int| 0 <= i < shorter.len() implies shorter[i] != '\n' by {
            assert(line.contains(line[i]));
        }
        lemma_split_one_line(shorter);
        assert(line.contains(line.last()));
        assert(shorter.push(line.last()) =~= line);
        assert(split_lines(line) =~= seq![line]);
    }
}

/// Lines that are joined can be read back: splitting the text at its line breaks
/// gives them again, as many as there were and in their order.
pub proof fn law_joined_lines_read_back(lines: Seq<Seq<char>>)
    requires
        lines.len() > 0,
        forall|i: int| 0 <= i < lines.len() ==> !(#[trigger] lines[i]).contains('\n'),
    ensures
        split_lines(join_lines(lines)) == lines,
    decreases lines.len(),
{
    if lines.len() == 1 {
        lemma_split_one_line(lines[0]);
        assert(seq![lines[0]] =~= lines);
    } else {
        law_joined_lines_read_back(lines.drop_last());
        lemma_split_last_line(join_lines(lines.drop_last()), lines.last());
        assert(lines.drop_last().push(lines.last()) =~= lines);
    }
}

/// Joining loses no character and adds none but the line breaks in between,
/// whatever the lines hold.
pub proof fn law_joining_adds_line_breaks_only(upper: Seq<Seq<char>>, lower: Seq<Seq<char>>)
    requires
        upper.len() > 0,
        lower.len() > 0,
    ensures
        join_lines(upper + lower) == join_lines(upper) + seq!['\n'] + join_lines(lower),
        join_lines(seq![upper[0]]) == upper[0],
        join_lines(Seq::empty()).len() == 0,
{
    lemma_join_lines_add(upper, lower);
    assert(join_lines(upper + lower) =~= join_lines(upper) + seq!['\n'] + join_lines(lower));
}

} // verus!
