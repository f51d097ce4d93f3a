//! Side-by-side diff rows: the line aligner's operations expanded into
//! display rows, with word-level highlighting of the changed lines.

use vstd::prelude::*;

use crate::collab::line_ops;
use crate::collab::line_ops_of;
use crate::collab::split_lines;
use crate::collab::word_changes_of;
use crate::lines::lemma_lines_of_empty;
use crate::lines::lines_of;
use crate::lines::lines_view;
use crate::words::styled_left;
use crate::words::styled_right;

verus! {

/// A line-level edit operation produced by the line aligner.
#[derive(Clone, Copy)]
pub enum LineOp {
    /// A run of identical lines in both sequences.
    Equal { old_index: usize, new_index: usize, len: usize },
    /// A run of lines present only in the old sequence.
    Delete { old_index: usize, old_len: usize },
    /// A run of lines present only in the new sequence.
    Insert { new_index: usize, new_len: usize },
    /// A run of old lines replaced by a run of new lines; the runs may differ in length.
    Replace { old_index: usize, old_len: usize, new_index: usize, new_len: usize },
}

/// A single line (or line pair) of diff output.
pub struct DiffLine {
    pub left_num: Option<usize>,
    pub left_text: Option<String>,
    pub right_num: Option<usize>,
    pub right_text: Option<String>,
    /// now unused for coloring, but kept for future metadata
    pub left_diff: bool,
    pub right_diff: bool,
}

/// Model of a display row: optional line number and text on each side.
pub ghost struct RowModel {
    pub left_num: Option<int>,
    pub left_text: Option<Seq<char>>,
    pub right_num: Option<int>,
    pub right_text: Option<Seq<char>>,
    pub left_diff: bool,
    pub right_diff: bool,
}

impl View for DiffLine {
    type V = RowModel;

    open spec fn view(&self) -> RowModel {
        RowModel {
            left_num: match self.left_num {
                Some(n) => Some(n as int),
                None => None,
            },
            left_text: match self.left_text {
                Some(t) => Some(t@),
                None => None,
            },
            right_num: match self.right_num {
                Some(n) => Some(n as int),
                None => None,
            },
            right_text: match self.right_text {
                Some(t) => Some(t@),
                None => None,
            },
            left_diff: self.left_diff,
            right_diff: self.right_diff,
        }
    }
}

pub open spec fn rows_view(rs: Seq<DiffLine>) -> Seq<RowModel> {
    rs.map(|i: int, r: DiffLine| r@)
}

/// How many old lines an operation consumes.
pub open spec fn op_old_len(op: LineOp) -> int {
    match op {
        LineOp::Equal { len, .. } => len as int,
        LineOp::Delete { old_len, .. } => old_len as int,
        LineOp::Insert { .. } => 0,
        LineOp::Replace { old_len, .. } => old_len as int,
    }
}

/// How many new lines an operation consumes.
pub open spec fn op_new_len(op: LineOp) -> int {
    match op {
        LineOp::Equal { len, .. } => len as int,
        LineOp::Delete { .. } => 0,
        LineOp::Insert { new_len, .. } => new_len as int,
        LineOp::Replace { new_len, .. } => new_len as int,
    }
}

/// The operation's ranges begin exactly at positions `o` and `n`.
pub open spec fn op_starts_at(op: LineOp, o: int, n: int) -> bool {
    match op {
        LineOp::Equal { old_index, new_index, .. } => old_index == o && new_index == n,
        LineOp::Delete { old_index, .. } => old_index == o,
        LineOp::Insert { new_index, .. } => new_index == n,
        LineOp::Replace { old_index, new_index, .. } => old_index == o && new_index == n,
    }
}

/// The operations, taken in order from positions `o` and `n`, partition the
/// remainder of both sequences (of lengths `on` and `nn`) exactly.
pub open spec fn ops_cover_from(ops: Seq<LineOp>, o: int, n: int, on: int, nn: int) -> bool
    decreases ops.len(),
{
    if ops.len() == 0 {
        o == on && n == nn
    } else {
        &&& op_starts_at(ops[0], o, n)
        &&& o + op_old_len(ops[0]) <= on
        &&& n + op_new_len(ops[0]) <= nn
        &&& ops_cover_from(ops.drop_first(), o + op_old_len(ops[0]), n + op_new_len(ops[0]), on, nn)
    }
}

/// The operations partition both whole sequences exactly, in order.
pub open spec fn ops_cover(ops: Seq<LineOp>, on: int, nn: int) -> bool {
    ops_cover_from(ops, 0, 0, on, nn)
}

/// Lines paired by an equal operation are identical.
pub open spec fn equal_op_match(op: LineOp, old: Seq<Seq<char>>, new: Seq<Seq<char>>) -> bool {
    match op {
        LineOp::Equal { old_index, new_index, len } => forall|k: int|
            0 <= k < len ==> #[trigger] old[old_index + k] == new[new_index + k],
        _ => true,
    }
}

pub open spec fn equal_ops_match(ops: Seq<LineOp>, old: Seq<Seq<char>>, new: Seq<Seq<char>>) -> bool {
    forall|i: int| 0 <= i < ops.len() ==> equal_op_match(#[trigger] ops[i], old, new)
}

/// A row pairing old line `i` with new line `j`, both unstyled.
pub open spec fn equal_row(i: int, j: int, old: Seq<Seq<char>>, new: Seq<Seq<char>>) -> RowModel {
    RowModel {
        left_num: Some(i + 1),
        left_text: Some(old[i]),
        right_num: Some(j + 1),
        right_text: Some(new[j]),
        left_diff: false,
        right_diff: false,
    }
}

/// A row for old line `i` with no right side; the line is word-highlighted
/// against the empty string, so it is marked deleted in full.
pub open spec fn delete_row(i: int, old: Seq<Seq<char>>) -> RowModel {
    RowModel {
        left_num: Some(i + 1),
        left_text: Some(styled_left(old[i], Seq::empty())),
        right_num: None,
        right_text: None,
        left_diff: false,
        right_diff: false,
    }
}

/// A row for new line `j` with no left side, marked inserted in full.
pub open spec fn insert_row(j: int, new: Seq<Seq<char>>) -> RowModel {
    RowModel {
        left_num: None,
        left_text: None,
        right_num: Some(j + 1),
        right_text: Some(styled_right(Seq::empty(), new[j])),
        left_diff: false,
        right_diff: false,
    }
}

/// The `k`-th row of a replace block: the `k`-th old line paired positionally
/// with the `k`-th new line; a missing side diffs as the empty string and
/// records no line number.
pub open spec fn replace_row(
    k: int,
    oi: int,
    ol: int,
    ni: int,
    nl: int,
    old: Seq<Seq<char>>,
    new: Seq<Seq<char>>,
) -> RowModel {
    let lt = if k < ol {
        old[oi + k]
    } else {
        Seq::empty()
    };
    let rt = if k < nl {
        new[ni + k]
    } else {
        Seq::empty()
    };
    RowModel {
        left_num: if k < ol {
            Some(oi + k + 1)
        } else {
            None
        },
        left_text: Some(styled_left(lt, rt)),
        right_num: if k < nl {
            Some(ni + k + 1)
        } else {
            None
        },
        right_text: Some(styled_right(lt, rt)),
        left_diff: false,
        right_diff: false,
    }
}

/// The display rows one operation expands into.
pub open spec fn rows_of_op(op: LineOp, old: Seq<Seq<char>>, new: Seq<Seq<char>>) -> Seq<RowModel> {
    match op {
        LineOp::Equal { old_index, new_index, len } => Seq::new(
            len as nat,
            |k: int| equal_row(old_index + k, new_index + k, old, new),
        ),
        LineOp::Delete { old_index, old_len } => Seq::new(
            old_len as nat,
            |k: int| delete_row(old_index + k, old),
        ),
        LineOp::Insert { new_index, new_len } => Seq::new(
            new_len as nat,
            |k: int| insert_row(new_index + k, new),
        ),
        LineOp::Replace { old_index, old_len, new_index, new_len } => Seq::new(
            (if old_len >= new_len {
                old_len
            } else {
                new_len
            }) as nat,
            |k: int|
                replace_row(
                    k,
                    old_index as int,
                    old_len as int,
                    new_index as int,
                    new_len as int,
                    old,
                    new,
                ),
        ),
    }
}

/// The display rows of a whole operation list, in order.
pub open spec fn rows_of_ops(ops: Seq<LineOp>, old: Seq<Seq<char>>, new: Seq<Seq<char>>) -> Seq<
    RowModel,
>
    decreases ops.len(),
{
    if ops.len() == 0 {
        Seq::empty()
    } else {
        rows_of_op(ops[0], old, new) + rows_of_ops(ops.drop_first(), old, new)
    }
}

/// The full pipeline as a function of the two input texts: empty for equal
/// texts, otherwise the rows of the aligner's operations over the lines.
pub open spec fn diff_rows(t1: Seq<char>, t2: Seq<char>) -> Seq<RowModel> {
    if t1 == t2 {
        Seq::empty()
    } else {
        rows_of_ops(line_ops_of(lines_of(t1), lines_of(t2)), lines_of(t1), lines_of(t2))
    }
}

/// A row has at least one populated side.
pub open spec fn row_populated(row: RowModel) -> bool {
    row.left_num is Some || row.right_num is Some
}

pub open spec fn all_rows_populated(rows: Seq<RowModel>) -> bool {
    forall|i: int| 0 <= i < rows.len() ==> row_populated(#[trigger] rows[i])
}

/// The old-side line numbers of the rows, in order, absent entries skipped.
pub open spec fn old_nums(rows: Seq<RowModel>) -> Seq<int>
    decreases rows.len(),
{
    if rows.len() == 0 {
        Seq::empty()
    } else {
        (match rows[0].left_num {
            Some(n) => seq![n],
            None => Seq::empty(),
        }) + old_nums(rows.drop_first())
    }
}

/// The new-side line numbers of the rows, in order, absent entries skipped.
pub open spec fn new_nums(rows: Seq<RowModel>) -> Seq<int>
    decreases rows.len(),
{
    if rows.len() == 0 {
        Seq::empty()
    } else {
        (match rows[0].right_num {
            Some(n) => seq![n],
            None => Seq::empty(),
        }) + new_nums(rows.drop_first())
    }
}

/// The integers from `lo` (inclusive) to `hi` (exclusive), in order.
pub open spec fn num_range(lo: int, hi: int) -> Seq<int> {
    Seq::new(if hi >= lo {
        (hi - lo) as nat
    } else {
        0
    }, |k: int| lo + k)
}

/// The operation's ranges lie inside sequences of lengths `on` and `nn`.
pub open spec fn op_in_bounds(op: LineOp, on: int, nn: int) -> bool {
    match op {
        LineOp::Equal { old_index, new_index, len } => old_index + len <= on && new_index + len
            <= nn,
        LineOp::Delete { old_index, old_len } => old_index + old_len <= on,
        LineOp::Insert { new_index, new_len } => new_index + new_len <= nn,
        LineOp::Replace { old_index, old_len, new_index, new_len } => old_index + old_len <= on
            && new_index + new_len <= nn,
    }
}

proof fn lemma_cover_op_bounds(ops: Seq<LineOp>, o: int, n: int, on: int, nn: int)
    requires
        ops_cover_from(ops, o, n, on, nn),
    ensures
        forall|i: int| 0 <= i < ops.len() ==> op_in_bounds(#[trigger] ops[i], on, nn),
    decreases ops.len(),
{
    if ops.len() > 0 {
        lemma_cover_op_bounds(
            ops.drop_first(),
            o + op_old_len(ops[0]),
            n + op_new_len(ops[0]),
            on,
            nn,
        );
        assert forall|i: int| 0 <= i < ops.len() implies op_in_bounds(
            #[trigger] ops[i],
            on,
            nn,
        ) by {
            if i > 0 {
                assert(ops.drop_first()[i - 1] == ops[i]);
            }
        }
    }
}

proof fn lemma_rows_of_ops_snoc(ops: Seq<LineOp>, op: LineOp, old: Seq<Seq<char>>, new: Seq<Seq<char>>)
    ensures
        rows_of_ops(ops.push(op), old, new) == rows_of_ops(ops, old, new) + rows_of_op(
            op,
            old,
            new,
        ),
    decreases ops.len(),
{
    if ops.len() == 0 {
        assert(ops.push(op).drop_first() =~= Seq::<LineOp>::empty());
        assert(rows_of_ops(Seq::<LineOp>::empty(), old, new) == Seq::<RowModel>::empty());
        assert(rows_of_ops(ops.push(op), old, new) =~= rows_of_ops(ops, old, new) + rows_of_op(
            op,
            old,
            new,
        ));
    } else {
        assert(ops.push(op).drop_first() =~= ops.drop_first().push(op));
        lemma_rows_of_ops_snoc(ops.drop_first(), op, old, new);
        assert(rows_of_ops(ops.push(op), old, new) =~= rows_of_ops(ops, old, new) + rows_of_op(
            op,
            old,
            new,
        ));
    }
}

proof fn lemma_nums_concat(a: Seq<RowModel>, b: Seq<RowModel>)
    ensures
        old_nums(a + b) == old_nums(a) + old_nums(b),
        new_nums(a + b) == new_nums(a) + new_nums(b),
    decreases a.len(),
{
    if a.len() == 0 {
        assert(a + b =~= b);
        assert(old_nums(a) + old_nums(b) =~= old_nums(b));
        assert(new_nums(a) + new_nums(b) =~= new_nums(b));
    } else {
        assert((a + b).drop_first() =~= a.drop_first() + b);
        lemma_nums_concat(a.drop_first(), b);
        assert(old_nums(a + b) =~= old_nums(a) + old_nums(b));
        assert(new_nums(a + b) =~= new_nums(a) + new_nums(b));
    }
}

proof fn lemma_old_nums_range(rows: Seq<RowModel>, start: int)
    requires
        forall|k: int| 0 <= k < rows.len() ==> (#[trigger] rows[k]).left_num == Some(start + k),
    ensures
        old_nums(rows) == num_range(start, start + rows.len()),
    decreases rows.len(),
{
    if rows.len() == 0 {
        assert(old_nums(rows) =~= num_range(start, start));
    } else {
        assert forall|k: int| 0 <= k < rows.drop_first().len() implies (#[trigger] rows.drop_first()[k]).left_num
            == Some(start + 1 + k) by {
            assert(rows.drop_first()[k] == rows[k + 1]);
        }
        lemma_old_nums_range(rows.drop_first(), start + 1);
        assert(rows[0].left_num == Some(start));
        assert(old_nums(rows) =~= num_range(start, start + rows.len()));
    }
}

proof fn lemma_old_nums_none(rows: Seq<RowModel>)
    requires
        forall|k: int| 0 <= k < rows.len() ==> (#[trigger] rows[k]).left_num is None,
    ensures
        old_nums(rows) == Seq::<int>::empty(),
    decreases rows.len(),
{
    if rows.len() > 0 {
        assert(rows[0].left_num is None);
        assert forall|k: int| 0 <= k < rows.drop_first().len() implies (#[trigger] rows.drop_first()[k]).left_num is None by {
            assert(rows.drop_first()[k] == rows[k + 1]);
        }
        lemma_old_nums_none(rows.drop_first());
        assert(old_nums(rows) =~= Seq::<int>::empty());
    }
}

proof fn lemma_new_nums_range(rows: Seq<RowModel>, start: int)
    requires
        forall|k: int| 0 <= k < rows.len() ==> (#[trigger] rows[k]).right_num == Some(start + k),
    ensures
        new_nums(rows) == num_range(start, start + rows.len()),
    decreases rows.len(),
{
    if rows.len() == 0 {
        assert(new_nums(rows) =~= num_range(start, start));
    } else {
        assert forall|k: int| 0 <= k < rows.drop_first().len() implies (#[trigger] rows.drop_first()[k]).right_num
            == Some(start + 1 + k) by {
            assert(rows.drop_first()[k] == rows[k + 1]);
        }
        lemma_new_nums_range(rows.drop_first(), start + 1);
        assert(rows[0].right_num == Some(start));
        assert(new_nums(rows) =~= num_range(start, start + rows.len()));
    }
}

proof fn lemma_new_nums_none(rows: Seq<RowModel>)
    requires
        forall|k: int| 0 <= k < rows.len() ==> (#[trigger] rows[k]).right_num is None,
    ensures
        new_nums(rows) == Seq::<int>::empty(),
    decreases rows.len(),
{
    if rows.len() > 0 {
        assert(rows[0].right_num is None);
        assert forall|k: int| 0 <= k < rows.drop_first().len() implies (#[trigger] rows.drop_first()[k]).right_num is None by {
            assert(rows.drop_first()[k] == rows[k + 1]);
        }
        lemma_new_nums_none(rows.drop_first());
        assert(new_nums(rows) =~= Seq::<int>::empty());
    }
}

proof fn lemma_op_nums(op: LineOp, old: Seq<Seq<char>>, new: Seq<Seq<char>>, o: int, n: int)
    requires
        op_starts_at(op, o, n),
    ensures
        old_nums(rows_of_op(op, old, new)) == num_range(o + 1, o + op_old_len(op) + 1),
        new_nums(rows_of_op(op, old, new)) == num_range(n + 1, n + op_new_len(op) + 1),
{
    let rows = rows_of_op(op, old, new);
    match op {
        LineOp::Equal { old_index, new_index, len } => {
            lemma_old_nums_range(rows, o + 1);
            lemma_new_nums_range(rows, n + 1);
        },
        LineOp::Delete { old_index, old_len } => {
            lemma_old_nums_range(rows, o + 1);
            lemma_new_nums_none(rows);
            assert(num_range(n + 1, n + 1) =~= Seq::<int>::empty());
        },
        LineOp::Insert { new_index, new_len } => {
            lemma_new_nums_range(rows, n + 1);
            lemma_old_nums_none(rows);
            assert(num_range(o + 1, o + 1) =~= Seq::<int>::empty());
        },
        LineOp::Replace { old_index, old_len, new_index, new_len } => {
            assert(rows =~= rows.take(old_len as int) + rows.skip(old_len as int));
            lemma_nums_concat(rows.take(old_len as int), rows.skip(old_len as int));
            assert forall|k: int| 0 <= k < rows.take(old_len as int).len() implies (#[trigger] rows.take(
                old_len as int,
            )[k]).left_num == Some(o + 1 + k) by {
                assert(rows.take(old_len as int)[k] == rows[k]);
            }
            assert forall|k: int| 0 <= k < rows.skip(old_len as int).len() implies (#[trigger] rows.skip(
                old_len as int,
            )[k]).left_num is None by {
                assert(rows.skip(old_len as int)[k] == rows[old_len + k]);
            }
            lemma_old_nums_range(rows.take(old_len as int), o + 1);
            lemma_old_nums_none(rows.skip(old_len as int));
            assert(old_nums(rows) =~= num_range(o + 1, o + old_len + 1));
            assert(rows =~= rows.take(new_len as int) + rows.skip(new_len as int));
            lemma_nums_concat(rows.take(new_len as int), rows.skip(new_len as int));
            assert forall|k: int| 0 <= k < rows.take(new_len as int).len() implies (#[trigger] rows.take(
                new_len as int,
            )[k]).right_num == Some(n + 1 + k) by {
                assert(rows.take(new_len as int)[k] == rows[k]);
            }
            assert forall|k: int| 0 <= k < rows.skip(new_len as int).len() implies (#[trigger] rows.skip(
                new_len as int,
            )[k]).right_num is None by {
                assert(rows.skip(new_len as int)[k] == rows[new_len + k]);
            }
            lemma_new_nums_range(rows.take(new_len as int), n + 1);
            lemma_new_nums_none(rows.skip(new_len as int));
            assert(new_nums(rows) =~= num_range(n + 1, n + new_len + 1));
        },
    }
}

proof fn lemma_rows_nums(ops: Seq<LineOp>, old: Seq<Seq<char>>, new: Seq<Seq<char>>, o: int, n: int)
    requires
        ops_cover_from(ops, o, n, old.len() as int, new.len() as int),
    ensures
        old_nums(rows_of_ops(ops, old, new)) == num_range(o + 1, old.len() as int + 1),
        new_nums(rows_of_ops(ops, old, new)) == num_range(n + 1, new.len() as int + 1),
    decreases ops.len(),
{
    if ops.len() == 0 {
        assert(old_nums(rows_of_ops(ops, old, new)) =~= num_range(o + 1, old.len() as int + 1));
        assert(new_nums(rows_of_ops(ops, old, new)) =~= num_range(n + 1, new.len() as int + 1));
    } else {
        lemma_op_nums(ops[0], old, new, o, n);
        lemma_rows_nums(
            ops.drop_first(),
            old,
            new,
            o + op_old_len(ops[0]),
            n + op_new_len(ops[0]),
        );
        lemma_nums_concat(rows_of_op(ops[0], old, new), rows_of_ops(ops.drop_first(), old, new));
        assert(old_nums(rows_of_ops(ops, old, new)) =~= num_range(o + 1, old.len() as int + 1));
        assert(new_nums(rows_of_ops(ops, old, new)) =~= num_range(n + 1, new.len() as int + 1));
    }
}

proof fn lemma_rows_nonempty(ops: Seq<LineOp>, old: Seq<Seq<char>>, new: Seq<Seq<char>>, o: int, n: int)
    requires
        ops_cover_from(ops, o, n, old.len() as int, new.len() as int),
        o < old.len() || n < new.len(),
    ensures
        rows_of_ops(ops, old, new).len() > 0,
    decreases ops.len(),
{
    if op_old_len(ops[0]) > 0 || op_new_len(ops[0]) > 0 {
        assert(rows_of_op(ops[0], old, new).len() > 0);
    } else {
        lemma_rows_nonempty(ops.drop_first(), old, new, o, n);
    }
}

proof fn lemma_rows_populated(ops: Seq<LineOp>, old: Seq<Seq<char>>, new: Seq<Seq<char>>)
    ensures
        all_rows_populated(rows_of_ops(ops, old, new)),
    decreases ops.len(),
{
    if ops.len() > 0 {
        lemma_rows_populated(ops.drop_first(), old, new);
        let rows = rows_of_ops(ops, old, new);
        let first = rows_of_op(ops[0], old, new);
        let rest = rows_of_ops(ops.drop_first(), old, new);
        assert forall|i: int| 0 <= i < rows.len() implies row_populated(#[trigger] rows[i]) by {
            if i < first.len() {
                assert(rows[i] == first[i]);
            } else {
                assert(rows[i] == rest[i - first.len()]);
                assert(row_populated(rest[i - first.len()]));
            }
        }
    }
}

/// Law: every row arising from a matching span carries the source lines
/// verbatim — no style marker touches an equal row's text.
pub proof fn lemma_equal_rows_unstyled(
    old: Seq<Seq<char>>,
    new: Seq<Seq<char>>,
    old_index: usize,
    new_index: usize,
    len: usize,
)
    ensures
        rows_of_op(LineOp::Equal { old_index, new_index, len }, old, new).len() == len,
        forall|k: int|
            0 <= k < len ==> {
                let row =
                    #[trigger] rows_of_op(LineOp::Equal { old_index, new_index, len }, old, new)[k];
                &&& row.left_num == Some(old_index + k + 1)
                &&& row.left_text == Some(old[old_index + k])
                &&& row.right_num == Some(new_index + k + 1)
                &&& row.right_text == Some(new[new_index + k])
            },
{
}

proof fn lemma_rows_view_push(s: Seq<DiffLine>, x: DiffLine)
    ensures
        rows_view(s.push(x)) == rows_view(s).push(x@),
{
    assert(rows_view(s.push(x)) =~= rows_view(s).push(x@));
}

fn push_equal_rows(
    rows: &mut Vec<DiffLine>,
    old_lines: &Vec<String>,
    new_lines: &Vec<String>,
    old_index: usize,
    new_index: usize,
    len: usize,
)
    requires
        old_index + len <= old_lines@.len(),
        new_index + len <= new_lines@.len(),
    ensures
        rows_view(final(rows)@) == rows_view(old(rows)@) + rows_of_op(
            LineOp::Equal { old_index, new_index, len },
            lines_view(old_lines@),
            lines_view(new_lines@),
        ),
{
    let ghost op = LineOp::Equal { old_index, new_index, len };
    let ghost oldv = lines_view(old_lines@);
    let ghost newv = lines_view(new_lines@);
    let total_old = old_lines.len();
    let total_new = new_lines.len();
    let mut k: usize = 0;
    while k < len
        invariant
            k <= len,
            old_index + len <= total_old,
            new_index + len <= total_new,
            total_old == old_lines@.len(),
            total_new == new_lines@.len(),
            oldv == lines_view(old_lines@),
            newv == lines_view(new_lines@),
            op == (LineOp::Equal { old_index, new_index, len }),
            rows_view(rows@) == rows_view(old(rows)@) + rows_of_op(op, oldv, newv).take(k as int),
        decreases len - k,
    {
        let i = old_index + k;
        let j = new_index + k;
        let ghost prev = rows@;
        let row = DiffLine {
            left_num: Some(i + 1),
            left_text: Some(old_lines[i].clone()),
            right_num: Some(j + 1),
            right_text: Some(new_lines[j].clone()),
            left_diff: false,
            right_diff: false,
        };
        proof {
            assert(row@ == rows_of_op(op, oldv, newv)[k as int]);
        }
        rows.push(row);
        proof {
            let all = rows_of_op(op, oldv, newv);
            lemma_rows_view_push(prev, row);
            assert(all.take(k + 1) =~= all.take(k as int).push(all[k as int]));
            assert(rows_view(rows@) =~= rows_view(old(rows)@) + all.take(k + 1));
        }
        k += 1;
    }
    proof {
        let all = rows_of_op(op, oldv, newv);
        assert(all.take(len as int) =~= all);
    }
}

fn push_delete_rows(
    rows: &mut Vec<DiffLine>,
    old_lines: &Vec<String>,
    old_index: usize,
    old_len: usize,
    Ghost(newv): Ghost<Seq<Seq<char>>>,
)
    requires
        old_index + old_len <= old_lines@.len(),
    ensures
        rows_view(final(rows)@) == rows_view(old(rows)@) + rows_of_op(
            LineOp::Delete { old_index, old_len },
            lines_view(old_lines@),
            newv,
        ),
{
    let ghost op = LineOp::Delete { old_index, old_len };
    let ghost oldv = lines_view(old_lines@);
    let total_old = old_lines.len();
    let mut k: usize = 0;
    while k < old_len
        invariant
            k <= old_len,
            old_index + old_len <= total_old,
            total_old == old_lines@.len(),
            oldv == lines_view(old_lines@),
            op == (LineOp::Delete { old_index, old_len }),
            rows_view(rows@) == rows_view(old(rows)@) + rows_of_op(op, oldv, newv).take(k as int),
        decreases old_len - k,
    {
        let i = old_index + k;
        let styled = crate::words::apply_word_style(old_lines[i].as_str(), "");
        let ghost prev = rows@;
        let row = DiffLine {
            left_num: Some(i + 1),
            left_text: Some(styled.left),
            right_num: None,
            right_text: None,
            left_diff: false,
            right_diff: false,
        };
        proof {
            reveal_strlit("");
            assert(""@ =~= Seq::<char>::empty());
            assert(row@ == rows_of_op(op, oldv, newv)[k as int]);
        }
        rows.push(row);
        proof {
            let all = rows_of_op(op, oldv, newv);
            lemma_rows_view_push(prev, row);
            assert(all.take(k + 1) =~= all.take(k as int).push(all[k as int]));
            assert(rows_view(rows@) =~= rows_view(old(rows)@) + all.take(k + 1));
        }
        k += 1;
    }
    proof {
        let all = rows_of_op(op, oldv, newv);
        assert(all.take(old_len as int) =~= all);
    }
}

fn push_insert_rows(
    rows: &mut Vec<DiffLine>,
    new_lines: &Vec<String>,
    new_index: usize,
    new_len: usize,
    Ghost(oldv): Ghost<Seq<Seq<char>>>,
)
    requires
        new_index + new_len <= new_lines@.len(),
    ensures
        rows_view(final(rows)@) == rows_view(old(rows)@) + rows_of_op(
            LineOp::Insert { new_index, new_len },
            oldv,
            lines_view(new_lines@),
        ),
{
    let ghost op = LineOp::Insert { new_index, new_len };
    let ghost newv = lines_view(new_lines@);
    let total_new = new_lines.len();
    let mut k: usize = 0;
    while k < new_len
        invariant
            k <= new_len,
            new_index + new_len <= total_new,
            total_new == new_lines@.len(),
            newv == lines_view(new_lines@),
            op == (LineOp::Insert { new_index, new_len }),
            rows_view(rows@) == rows_view(old(rows)@) + rows_of_op(op, oldv, newv).take(k as int),
        decreases new_len - k,
    {
        let j = new_index + k;
        let styled = crate::words::apply_word_style("", new_lines[j].as_str());
        let ghost prev = rows@;
        let row = DiffLine {
            left_num: None,
            left_text: None,
            right_num: Some(j + 1),
            right_text: Some(styled.right),
            left_diff: false,
            right_diff: false,
        };
        proof {
            reveal_strlit("");
            assert(""@ =~= Seq::<char>::empty());
            assert(row@ == rows_of_op(op, oldv, newv)[k as int]);
        }
        rows.push(row);
        proof {
            let all = rows_of_op(op, oldv, newv);
            lemma_rows_view_push(prev, row);
            assert(all.take(k + 1) =~= all.take(k as int).push(all[k as int]));
            assert(rows_view(rows@) =~= rows_view(old(rows)@) + all.take(k + 1));
        }
        k += 1;
    }
    proof {
        let all = rows_of_op(op, oldv, newv);
        assert(all.take(new_len as int) =~= all);
    }
}

fn push_replace_rows(
    rows: &mut Vec<DiffLine>,
    old_lines: &Vec<String>,
    new_lines: &Vec<String>,
    old_index: usize,
    old_len: usize,
    new_index: usize,
    new_len: usize,
)
    requires
        old_index + old_len <= old_lines@.len(),
        new_index + new_len <= new_lines@.len(),
    ensures
        rows_view(final(rows)@) == rows_view(old(rows)@) + rows_of_op(
            LineOp::Replace { old_index, old_len, new_index, new_len },
            lines_view(old_lines@),
            lines_view(new_lines@),
        ),
{
    let ghost op = LineOp::Replace { old_index, old_len, new_index, new_len };
    let ghost oldv = lines_view(old_lines@);
    let ghost newv = lines_view(new_lines@);
    let total_old = old_lines.len();
    let total_new = new_lines.len();
    let line_count = if old_len >= new_len {
        old_len
    } else {
        new_len
    };
    let mut k: usize = 0;
    while k < line_count
        invariant
            k <= line_count,
            line_count == if old_len >= new_len {
                old_len
            } else {
                new_len
            },
            old_index + old_len <= total_old,
            new_index + new_len <= total_new,
            total_old == old_lines@.len(),
            total_new == new_lines@.len(),
            oldv == lines_view(old_lines@),
            newv == lines_view(new_lines@),
            op == (LineOp::Replace { old_index, old_len, new_index, new_len }),
            rows_view(rows@) == rows_view(old(rows)@) + rows_of_op(op, oldv, newv).take(k as int),
        decreases line_count - k,
    {
        let left_str: &str = if k < old_len {
            old_lines[old_index + k].as_str()
        } else {
            ""
        };
        let right_str: &str = if k < new_len {
            new_lines[new_index + k].as_str()
        } else {
            ""
        };
        let styled = crate::words::apply_word_style(left_str, right_str);
        let ghost prev = rows@;
        let row = DiffLine {
            left_num: if k < old_len {
                Some(old_index + k + 1)
            } else {
                None
            },
            left_text: Some(styled.left),
            right_num: if k < new_len {
                Some(new_index + k + 1)
            } else {
                None
            },
            right_text: Some(styled.right),
            left_diff: false,
            right_diff: false,
        };
        proof {
            reveal_strlit("");
            assert(""@ =~= Seq::<char>::empty());
            assert(row@ == rows_of_op(op, oldv, newv)[k as int]);
        }
        rows.push(row);
        proof {
            let all = rows_of_op(op, oldv, newv);
            lemma_rows_view_push(prev, row);
            assert(all.take(k + 1) =~= all.take(k as int).push(all[k as int]));
            assert(rows_view(rows@) =~= rows_view(old(rows)@) + all.take(k + 1));
        }
        k += 1;
    }
    proof {
        let all = rows_of_op(op, oldv, newv);
        assert(all.take(line_count as int) =~= all);
    }
}

/// Compute a side-by-side diff of two text files, returning a list of `DiffLine`s.
///
/// The result is empty exactly when the two texts are equal. Every row has
/// at least one populated side, and for unequal texts the old-side line
/// numbers of the rows run exactly over `1..=N` in order, the new-side
/// numbers over `1..=M`, where `N` and `M` are the two line counts.
pub fn compute_diff(text1: &str, text2: &str) -> (r: Vec<DiffLine>)
    ensures
        rows_view(r@) == diff_rows(text1@, text2@),
        text1@ == text2@ <==> r@.len() == 0,
        all_rows_populated(rows_view(r@)),
        text1@ != text2@ ==> old_nums(rows_view(r@)) == num_range(
            1,
            lines_of(text1@).len() as int + 1,
        ),
        text1@ != text2@ ==> new_nums(rows_view(r@)) == num_range(
            1,
            lines_of(text2@).len() as int + 1,
        ),
{
    let t1 = text1.to_owned();
    let t2 = text2.to_owned();
    if t1 == t2 {
        let empty_rows: Vec<DiffLine> = Vec::new();
        proof {
            assert(rows_view(empty_rows@) =~= Seq::<RowModel>::empty());
        }
        return empty_rows;
    }
    let old_lines = split_lines(text1);
    let new_lines = split_lines(text2);
    let ops = line_ops(&old_lines, &new_lines);
    let ghost oldv = lines_view(old_lines@);
    let ghost newv = lines_view(new_lines@);
    proof {
        assert(oldv.len() == old_lines@.len());
        assert(newv.len() == new_lines@.len());
        lemma_cover_op_bounds(
            ops@,
            0,
            0,
            old_lines@.len() as int,
            new_lines@.len() as int,
        );
    }
    let mut rows: Vec<DiffLine> = Vec::new();
    proof {
        assert(rows_view(rows@) =~= rows_of_ops(ops@.take(0), oldv, newv));
    }
    let n = ops.len();
    let mut idx: usize = 0;
    while idx < n
        invariant
            idx <= n,
            n == ops@.len(),
            oldv == lines_view(old_lines@),
            newv == lines_view(new_lines@),
            forall|i: int|
                0 <= i < ops@.len() ==> op_in_bounds(
                    #[trigger] ops@[i],
                    old_lines@.len() as int,
                    new_lines@.len() as int,
                ),
            rows_view(rows@) == rows_of_ops(ops@.take(idx as int), oldv, newv),
        decreases n - idx,
    {
        let op = ops[idx];
        proof {
            assert(op == ops@[idx as int]);
            assert(op_in_bounds(ops@[idx as int], old_lines@.len() as int, new_lines@.len() as int));
        }
        match op {
            LineOp::Equal { old_index, new_index, len } => {
                push_equal_rows(&mut rows, &old_lines, &new_lines, old_index, new_index, len);
            },
            LineOp::Delete { old_index, old_len } => {
                push_delete_rows(&mut rows, &old_lines, old_index, old_len, Ghost(newv));
            },
            LineOp::Insert { new_index, new_len } => {
                push_insert_rows(&mut rows, &new_lines, new_index, new_len, Ghost(oldv));
            },
            LineOp::Replace { old_index, old_len, new_index, new_len } => {
                push_replace_rows(
                    &mut rows,
                    &old_lines,
                    &new_lines,
                    old_index,
                    old_len,
                    new_index,
                    new_len,
                );
            },
        }
        proof {
            assert(ops@.take(idx + 1) =~= ops@.take(idx as int).push(ops@[idx as int]));
            lemma_rows_of_ops_snoc(ops@.take(idx as int), ops@[idx as int], oldv, newv);
        }
        idx += 1;
    }
    proof {
        assert(ops@.take(n as int) =~= ops@);
        assert(rows_view(rows@) == rows_of_ops(ops@, oldv, newv));
        lemma_rows_nums(ops@, oldv, newv, 0, 0);
        lemma_rows_populated(ops@, oldv, newv);
        lemma_lines_of_empty(text1@);
        lemma_lines_of_empty(text2@);
        if oldv.len() == 0 && newv.len() == 0 {
            assert(text1@ =~= text2@);
        }
        lemma_rows_nonempty(ops@, oldv, newv, 0, 0);
    }
    rows
}

/// Law: the pipeline is deterministic — the row model is a function of the
/// two input texts alone, so identical inputs yield identical row sequences.
pub proof fn lemma_deterministic(
    t1: Seq<char>,
    t2: Seq<char>,
    rows1: Seq<RowModel>,
    rows2: Seq<RowModel>,
)
    requires
        rows1 == diff_rows(t1, t2),
        rows2 == diff_rows(t1, t2),
    ensures
        rows1 == rows2,
{
}

} // verus!
