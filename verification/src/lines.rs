//! Mathematical model of splitting a text into lines.
//!
//! A text is split at `\n`; a line ending in `\r` directly before the `\n`
//! loses that `\r`; a final terminator produces no trailing empty line.

use vstd::prelude::*;

verus! {

/// Index of the first newline in `s`, or `s.len()` if there is none.
pub open spec fn first_nl(s: Seq<char>) -> nat
    decreases s.len(),
{
    if s.len() == 0 {
        0
    } else if s[0] == '\n' {
        0
    } else {
        1 + first_nl(s.drop_first())
    }
}

/// Remove one carriage return at the end of a line, if present.
pub open spec fn chomp_cr(line: Seq<char>) -> Seq<char> {
    if line.len() > 0 && line.last() == '\r' {
        line.drop_last()
    } else {
        line
    }
}

/// The lines of a text: split at `\n` or `\r\n`, the final line ending optional.
pub open spec fn lines_of(s: Seq<char>) -> Seq<Seq<char>>
    decreases s.len(),
{
    if s.len() == 0 {
        Seq::empty()
    } else {
        let i = first_nl(s);
        if i >= s.len() {
            seq![s]
        } else {
            seq![chomp_cr(s.take(i as int))] + lines_of(s.skip(i + 1 as int))
        }
    }
}

/// The lines of a sequence of owned strings, as character sequences.
pub open spec fn lines_view(ls: Seq<String>) -> Seq<Seq<char>> {
    ls.map(|i: int, l: String| l@)
}

/// A text has no lines exactly when it is empty.
pub proof fn lemma_lines_of_empty(s: Seq<char>)
    ensures
        lines_of(s).len() == 0 <==> s.len() == 0,
{
    if s.len() > 0 {
        if first_nl(s) >= s.len() {
            assert(lines_of(s).len() == 1);
        } else {
            assert(lines_of(s).len() >= 1);
        }
    }
}

} // verus!
