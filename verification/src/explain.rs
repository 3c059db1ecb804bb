//! The text of the ladder diagram that `explain` draws of a stretch of a
//! list.

use vstd::prelude::*;
use vstd::string::*;

verus! {

/// The widest stretch that a diagram shows.
pub const MAX_SPAN: usize = 20;

/// The text of one decimal digit.
pub open spec fn digit(d: nat) -> Seq<char> {
    if d == 0 {
        "0"@
    } else if d == 1 {
        "1"@
    } else if d == 2 {
        "2"@
    } else if d == 3 {
        "3"@
    } else if d == 4 {
        "4"@
    } else if d == 5 {
        "5"@
    } else if d == 6 {
        "6"@
    } else if d == 7 {
        "7"@
    } else if d == 8 {
        "8"@
    } else {
        "9"@
    }
}

/// The decimal text of `n`.
pub open spec fn digits(n: nat) -> Seq<char>
    decreases n,
{
    if n < 10 {
        digit(n)
    } else {
        digits(n / 10) + digit(n % 10)
    }
}

/// The first line: where the stretch starts, how many levels the list has,
/// how many values are shown and how many there are.
pub open spec fn header(left: nat, levels: nat, span: nat, total: nat) -> Seq<char> {
    "start: "@ + digits(left) + ", levels: "@ + digits(levels) + ", show_len: "@ + digits(span)
        + ", total_len: "@ + digits(total)
}

/// The mark of the value at `idx` of the stretch on a level: its number
/// where it has a link there, else dashes as wide as the number would be.
pub open spec fn cell(linked: bool, idx: nat) -> Seq<char> {
    if linked {
        "[+"@ + digits(idx) + "] "@
    } else if idx < 10 {
        "-----"@
    } else {
        "------"@
    }
}

/// What joins a mark to the next: an arrow where the next value has a link
/// on the level or there is no next value, else dashes.
pub open spec fn arrow(arrives: bool) -> Seq<char> {
    if arrives {
        "--> "@
    } else {
        "----"@
    }
}

/// The first `n` marks and joins of the line of `level`. `heights` holds the
/// number of levels of every value of the list, and the stretch starts at
/// `left`.
pub open spec fn ladder_line(heights: Seq<nat>, left: nat, level: nat, n: nat) -> Seq<char>
    decreases n,
{
    if n == 0 {
        Seq::empty()
    } else {
        let idx = (n - 1) as nat;
        ladder_line(heights, left, level, idx) + cell(heights[(left + idx) as int] > level, idx) + arrow(
            left + n >= heights.len() || heights[(left + n) as int] > level,
        )
    }
}

/// The lines of the levels below `top` down to `bottom`, highest first, each
/// after a line break.
pub open spec fn ladder(heights: Seq<nat>, left: nat, span: nat, top: nat, bottom: nat) -> Seq<
    char,
>
    decreases top - bottom,
{
    if top <= bottom {
        Seq::empty()
    } else {
        ladder(heights, left, span, top, bottom + 1) + "\n"@ + ladder_line(
            heights,
            left,
            bottom,
            span,
        )
    }
}

/// The lines of the first `n` values of the stretch: the number of each and
/// its text.
pub open spec fn value_lines(labels: Seq<Seq<char>>, n: nat) -> Seq<char>
    decreases n,
{
    if n == 0 {
        Seq::empty()
    } else {
        let idx = (n - 1) as nat;
        value_lines(labels, idx) + "[+"@ + digits(idx) + "]: "@ + labels[idx as int] + "\n"@
    }
}

/// The texts of `shown`.
pub open spec fn texts(shown: Seq<String>) -> Seq<Seq<char>> {
    Seq::new(shown.len(), |i: int| shown[i]@)
}

/// The whole diagram.
pub open spec fn diagram(
    heights: Seq<nat>,
    left: nat,
    span: nat,
    levels: nat,
    labels: Seq<Seq<char>>,
) -> Seq<char> {
    header(left, levels, span, heights.len()) + ladder(heights, left, span, levels, 0)
        + "\nvalues:\n"@ + value_lines(labels, span)
}

/// What `explain` answers when it is asked for too wide a stretch.
pub open spec fn too_wide() -> Seq<char> {
    "Range span is too big, the span should be smaller than 20"@
}

fn digit_str(d: usize) -> (s: &'static str)
    requires
        d < 10,
    ensures
        s@ == digit(d as nat),
{
    if d == 0 {
        "0"
    } else if d == 1 {
        "1"
    } else if d == 2 {
        "2"
    } else if d == 3 {
        "3"
    } else if d == 4 {
        "4"
    } else if d == 5 {
        "5"
    } else if d == 6 {
        "6"
    } else if d == 7 {
        "7"
    } else if d == 8 {
        "8"
    } else {
        "9"
    }
}

/// The decimal text of `n`.
pub fn decimal(n: usize) -> (s: String)
    ensures
        s@ == digits(n as nat),
    decreases n,
{
    if n < 10 {
        String::from_str(digit_str(n))
    } else {
        let mut s = decimal(n / 10);
        s.append(digit_str(n % 10));
        s
    }
}

/// Writes the first line of a diagram.
pub(crate) fn write_header(left: usize, levels: usize, span: usize, total: usize) -> (s: String)
    ensures
        s@ == header(left as nat, levels as nat, span as nat, total as nat),
{
    let mut s = String::from_str("start: ");
    s.append(decimal(left).as_str());
    s.append(", levels: ");
    s.append(decimal(levels).as_str());
    s.append(", show_len: ");
    s.append(decimal(span).as_str());
    s.append(", total_len: ");
    s.append(decimal(total).as_str());
    s
}

/// Adds the mark of a value to a line.
pub(crate) fn write_cell(line: &mut String, linked: bool, idx: usize)
    ensures
        final(line)@ == old(line)@ + cell(linked, idx as nat),
{
    if linked {
        line.append("[+");
        line.append(decimal(idx).as_str());
        line.append("] ");
        proof {
            assert(line@ =~= old(line)@ + cell(linked, idx as nat));
        }
    } else if idx < 10 {
        line.append("-----");
    } else {
        line.append("------");
    }
}

/// Adds what joins a mark to the next to a line.
pub(crate) fn write_arrow(line: &mut String, arrives: bool)
    ensures
        final(line)@ == old(line)@ + arrow(arrives),
{
    if arrives {
        line.append("--> ");
    } else {
        line.append("----");
    }
}

/// Adds the lines of the values to a diagram.
pub(crate) fn write_values(text: &mut String, shown: &Vec<String>, span: usize)
    requires
        shown@.len() == span,
    ensures
        final(text)@ == old(text)@ + value_lines(texts(shown@), span as nat),
{
    let ghost labels = texts(shown@);
    let mut idx: usize = 0;
    proof {
        assert(text@ =~= old(text)@ + value_lines(labels, 0));
    }
    while idx < span
        invariant
            idx <= span,
            shown@.len() == span,
            labels == texts(shown@),
            text@ == old(text)@ + value_lines(labels, idx as nat),
        decreases span - idx,
    {
        let ghost before = text@;
        text.append("[+");
        text.append(decimal(idx).as_str());
        text.append("]: ");
        text.append(shown[idx].as_str());
        text.append("\n");
        proof {
            assert(labels[idx as int] == shown@[idx as int]@);
            assert(text@ =~= old(text)@ + value_lines(labels, (idx + 1) as nat));
        }
        idx = idx + 1;
    }
}

} // verus!
