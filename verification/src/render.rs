//! Writing a solution as text: one group to a line, its indices in decimal
//! with a tab between them.

use crate::solver::{lemma_group_rows, Solution};
use vstd::prelude::*;
use vstd::string::StringExecFns;

verus! {

/// The character that writes a digit from 0 to 9.
pub open spec fn digit_char(digit: nat) -> char {
    seq!['0', '1', '2', '3', '4', '5', '6', '7', '8', '9'][digit as int]
}

/// The number in decimal, without leading zeros.
pub open spec fn decimal(number: nat) -> Seq<char>
    decreases number,
{
    if number < 10 {
        seq![digit_char(number)]
    } else {
        decimal(number / 10).push(digit_char(number % 10))
    }
}

/// The parts one after the other, with the separator between each two.
pub open spec fn joined(parts: Seq<Seq<char>>, separator: char) -> Seq<char>
    decreases parts.len(),
{
    if parts.len() == 0 {
        Seq::empty()
    } else if parts.len() == 1 {
        parts[0]
    } else {
        joined(parts.drop_last(), separator).push(separator) + parts.last()
    }
}

/// The indices of a group, each in decimal.
pub open spec fn group_parts(group: Seq<usize>) -> Seq<Seq<char>> {
    Seq::new(group.len(), |k: int| decimal(group[k] as nat))
}

/// The line of a group: its indices with a tab between each two.
pub open spec fn group_line(group: Seq<usize>) -> Seq<char> {
    joined(group_parts(group), '\t')
}

/// The lines of the groups.
pub open spec fn group_lines(groups: Seq<Seq<usize>>) -> Seq<Seq<char>> {
    Seq::new(groups.len(), |i: int| group_line(groups[i]))
}

/// The text of a list of groups: their lines with a line feed between each
/// two, and none at the end.
pub open spec fn rendered(groups: Seq<Seq<usize>>) -> Seq<char> {
    joined(group_lines(groups), '\n')
}

/// A row of parts with one more part: what was joined, the separator where
/// something stood before, and the new part.
proof fn lemma_joined_push(parts: Seq<Seq<char>>, part: Seq<char>, separator: char)
    ensures
        joined(parts.push(part), separator) == if parts.len() == 0 {
            part
        } else {
            joined(parts, separator).push(separator) + part
        },
{
    assert(parts.push(part).drop_last() =~= parts);
}

/// The text of one decimal digit.
fn digit_text(digit: usize) -> (text: &'static str)
    requires
        digit < 10,
    ensures
        text@ == seq![digit_char(digit as nat)],
{
    proof {
        reveal_strlit("0");
        reveal_strlit("1");
        reveal_strlit("2");
        reveal_strlit("3");
        reveal_strlit("4");
        reveal_strlit("5");
        reveal_strlit("6");
        reveal_strlit("7");
        reveal_strlit("8");
        reveal_strlit("9");
    }
    let text: &'static str = match digit {
        0 => "0",
        1 => "1",
        2 => "2",
        3 => "3",
        4 => "4",
        5 => "5",
        6 => "6",
        7 => "7",
        8 => "8",
        _ => "9",
    };
    assert(text@ =~= seq![digit_char(digit as nat)]);
    text
}

/// Appends a number in decimal.
fn push_decimal(out: &mut String, number: usize)
    ensures
        final(out)@ == old(out)@ + decimal(number as nat),
    decreases number,
{
    if number >= 10 {
        push_decimal(out, number / 10);
    }
    out.append(digit_text(number % 10));
    assert(out@ =~= old(out)@ + decimal(number as nat));
}

/// Appends the line of a group.
fn push_group(out: &mut String, group: &Vec<usize>)
    ensures
        final(out)@ == old(out)@ + group_line(group@),
{
    let ghost parts = group_parts(group@);
    let mut first: bool = true;
    assert(parts.take(0) =~= Seq::<Seq<char>>::empty());
    assert(out@ =~= old(out)@ + joined(parts.take(0), '\t'));
    for k in 0..group.len()
        invariant
            parts == group_parts(group@),
            first == (k == 0),
            out@ == old(out)@ + joined(parts.take(k as int), '\t'),
    {
        let ghost before = out@;
        if !first {
            proof {
                reveal_strlit("\t");
            }
            out.append("\t");
        } else {
            first = false;
        }
        push_decimal(out, group[k]);
        proof {
            assert(parts.take(k + 1) =~= parts.take(k as int).push(parts[k as int]));
            lemma_joined_push(parts.take(k as int), parts[k as int], '\t');
            assert("\t"@ =~= seq!['\t']) by {
                reveal_strlit("\t");
            }
            assert(out@ =~= old(out)@ + joined(parts.take(k + 1), '\t'));
        }
    }
    assert(parts.take(group@.len() as int) =~= parts);
}

impl Solution {
    /// The text of the solution: one group to a line, in their order, the
    /// indices of a group in decimal with a tab between each two; no line
    /// feed after the last line.
    pub fn render(&self) -> (text: String)
        ensures
            text@ == rendered(self.0.deep_view()),
    {
        let ghost lines = group_lines(self.0.deep_view());
        let mut text: String = String::new();
        let count: usize = self.0.len();
        proof {
            lemma_group_rows(&self.0);
            assert(lines.take(0) =~= Seq::<Seq<char>>::empty());
        }
        for i in 0..count
            invariant
                count == self.0@.len(),
                lines == group_lines(self.0.deep_view()),
                lines.len() == count,
                forall|k: int|
                    0 <= k < count ==> #[trigger] self.0.deep_view()[k] == self.0@[k]@,
                text@ == joined(lines.take(i as int), '\n') + if 0 < i < count {
                    seq!['\n']
                } else {
                    Seq::<char>::empty()
                },
        {
            let ghost before = text@;
            push_group(&mut text, &self.0[i]);
            if i != count - 1 {
                proof {
                    reveal_strlit("\n");
                }
                text.append("\n");
            }
            proof {
                assert("\n"@ =~= seq!['\n']) by {
                    reveal_strlit("\n");
                }
                assert(lines[i as int] == group_line(self.0@[i as int]@));
                assert(lines.take(i + 1) =~= lines.take(i as int).push(lines[i as int]));
                lemma_joined_push(lines.take(i as int), lines[i as int], '\n');
                assert(text@ =~= joined(lines.take(i + 1), '\n') + if 0 < i + 1 < count {
                    seq!['\n']
                } else {
                    Seq::<char>::empty()
                });
            }
        }
        assert(lines.take(count as int) =~= lines);
        assert(text@ =~= rendered(self.0.deep_view()));
        text
    }
}

} // verus!
