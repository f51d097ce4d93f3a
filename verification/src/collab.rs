//! The outside collaborators the pipeline consumes: the line splitter of
//! std, the diff engine of the `similar` crate, and the terminal styling of
//! the `console` crate. Each stands behind a trusted contract; everything
//! built on top of them is verified.

use vstd::prelude::*;

use crate::diff::LineOp;
use crate::diff::equal_ops_match;
use crate::diff::ops_cover;
use crate::lines::lines_of;
use crate::lines::lines_view;
use crate::words::ChangeKind;
use crate::words::WordChange;
use crate::words::WordChangeModel;
use crate::words::changes_view;
use crate::words::left_source;
use crate::words::right_source;

verus! {

/// The operations the Myers line diff returns for two line sequences.
/// A function of the two sequences alone: the algorithm is deterministic.
pub uninterp spec fn line_ops_of(old: Seq<Seq<char>>, new: Seq<Seq<char>>) -> Seq<LineOp>;

/// The change list the Myers word diff returns for two lines.
/// A function of the two lines alone: the algorithm is deterministic.
pub uninterp spec fn word_changes_of(left: Seq<char>, right: Seq<char>) -> Seq<WordChangeModel>;

/// A text as the styling collaborator marks it with the deletion role.
pub uninterp spec fn deletion_marked(text: Seq<char>) -> Seq<char>;

/// A text as the styling collaborator marks it with the addition role.
pub uninterp spec fn addition_marked(text: Seq<char>) -> Seq<char>;

/// Relies on str::lines: lines are split at `\n` or `\r\n`, and a final
/// line ending produces no trailing empty line.
#[verifier::external_body]
pub(crate) fn split_lines(text: &str) -> (r: Vec<String>)
    ensures
        lines_view(r@) == lines_of(text@),
{
    text.lines().map(|l| l.to_string()).collect()
}

/// Relies on similar::capture_diff_slices with Algorithm::Myers: it is
/// deterministic, its operations partition both input sequences exactly and
/// in order, and the runs paired by an equal operation hold identical lines.
#[verifier::external_body]
pub(crate) fn line_ops(old_lines: &Vec<String>, new_lines: &Vec<String>) -> (r: Vec<LineOp>)
    ensures
        r@ == line_ops_of(lines_view(old_lines@), lines_view(new_lines@)),
        ops_cover(r@, old_lines@.len() as int, new_lines@.len() as int),
        equal_ops_match(r@, lines_view(old_lines@), lines_view(new_lines@)),
{
    let ops = similar::capture_diff_slices(similar::Algorithm::Myers, old_lines, new_lines);
    ops.into_iter()
        .map(|op| match op {
            similar::DiffOp::Equal { old_index, new_index, len } =>
                LineOp::Equal { old_index, new_index, len },
            similar::DiffOp::Delete { old_index, old_len, new_index: _ } =>
                LineOp::Delete { old_index, old_len },
            similar::DiffOp::Insert { old_index: _, new_index, new_len } =>
                LineOp::Insert { new_index, new_len },
            similar::DiffOp::Replace { old_index, old_len, new_index, new_len } =>
                LineOp::Replace { old_index, old_len, new_index, new_len },
        })
        .collect()
}

/// Relies on similar::TextDiff::from_words with the Myers algorithm: it
/// tokenizes both lines losslessly into alternating word and whitespace
/// runs, is deterministic, and tags each token equal, delete or insert, in
/// order; concatenating the equal and delete tokens restores the left line,
/// the equal and insert tokens the right line.
#[verifier::external_body]
pub(crate) fn word_changes(left: &str, right: &str) -> (r: Vec<WordChange>)
    ensures
        changes_view(r@) == word_changes_of(left@, right@),
        left_source(changes_view(r@)) == left@,
        right_source(changes_view(r@)) == right@,
{
    let diff = similar::TextDiff::from_words(left, right);
    let mut out = Vec::new();
    for op in diff.ops() {
        for change in diff.iter_changes(op) {
            let kind = match change.tag() {
                similar::ChangeTag::Equal => ChangeKind::Same,
                similar::ChangeTag::Delete => ChangeKind::Removed,
                similar::ChangeTag::Insert => ChangeKind::Added,
            };
            out.push(WordChange { kind, text: change.value().to_string() });
        }
    }
    out
}

/// Relies on console::Style::apply_to with styling forced on: the deletion
/// style (black text on the red background of color 9) wraps the text in
/// fixed escape codes, a function of the text alone.
#[verifier::external_body]
pub(crate) fn style_deletion(text: &str) -> (r: String)
    ensures
        r@ == deletion_marked(text@),
{
    console::Style::new().on_color256(9).black().apply_to(text).force_styling(true).to_string()
}

/// Relies on console::Style::apply_to with styling forced on: the addition
/// style (black text on the green background of color 10) wraps the text in
/// fixed escape codes, a function of the text alone.
#[verifier::external_body]
pub(crate) fn style_addition(text: &str) -> (r: String)
    ensures
        r@ == addition_marked(text@),
{
    console::Style::new().on_color256(10).black().apply_to(text).force_styling(true).to_string()
}

} // verus!
