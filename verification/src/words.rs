//! The word highlighter: a word-granularity diff over two lines whose
//! changed spans are handed to the styling collaborator, the unchanged
//! spans copied verbatim.

use vstd::prelude::*;

use crate::collab::addition_marked;
use crate::collab::deletion_marked;
use crate::collab::style_addition;
use crate::collab::style_deletion;
use crate::collab::word_changes;
use crate::collab::word_changes_of;

verus! {

/// How one token of the word-level diff relates the two lines.
#[derive(Clone, Copy, PartialEq, Eq, Structural)]
pub enum ChangeKind {
    /// The token occurs in both lines.
    Same,
    /// The token occurs only in the left line.
    Removed,
    /// The token occurs only in the right line.
    Added,
}

/// One token of the word-level diff.
pub struct WordChange {
    pub kind: ChangeKind,
    pub text: String,
}

/// Model of a word-level change: its kind and its characters.
pub ghost struct WordChangeModel {
    pub kind: ChangeKind,
    pub text: Seq<char>,
}

impl View for WordChange {
    type V = WordChangeModel;

    open spec fn view(&self) -> WordChangeModel {
        WordChangeModel { kind: self.kind, text: self.text@ }
    }
}

pub open spec fn changes_view(cs: Seq<WordChange>) -> Seq<WordChangeModel> {
    cs.map(|i: int, c: WordChange| c@)
}

/// The left input reassembled from a change list: the tokens that are
/// present on the left, concatenated in order.
pub open spec fn left_source(cs: Seq<WordChangeModel>) -> Seq<char>
    decreases cs.len(),
{
    if cs.len() == 0 {
        Seq::empty()
    } else {
        (if cs[0].kind is Added {
            Seq::<char>::empty()
        } else {
            cs[0].text
        }) + left_source(cs.drop_first())
    }
}

/// The right input reassembled from a change list.
pub open spec fn right_source(cs: Seq<WordChangeModel>) -> Seq<char>
    decreases cs.len(),
{
    if cs.len() == 0 {
        Seq::empty()
    } else {
        (if cs[0].kind is Removed {
            Seq::<char>::empty()
        } else {
            cs[0].text
        }) + right_source(cs.drop_first())
    }
}

/// The role a span of text plays in a highlighted line.
#[derive(Clone, Copy, PartialEq, Eq, Structural)]
pub enum Role {
    /// The span matched the other side; it is never styled.
    Unchanged,
    /// The span is present only on the old side.
    Deletion,
    /// The span is present only on the new side.
    Addition,
}

/// A span of one side of a highlighted line, with its role.
pub struct Span {
    pub role: Role,
    pub text: String,
}

/// Model of a span: its role and its characters.
pub ghost struct SpanModel {
    pub role: Role,
    pub text: Seq<char>,
}

impl View for Span {
    type V = SpanModel;

    open spec fn view(&self) -> SpanModel {
        SpanModel { role: self.role, text: self.text@ }
    }
}

pub open spec fn spans_view(ss: Seq<Span>) -> Seq<SpanModel> {
    ss.map(|i: int, s: Span| s@)
}

/// The spans a single change contributes to the left side.
pub open spec fn left_span_one(c: WordChangeModel) -> Seq<SpanModel> {
    match c.kind {
        ChangeKind::Same => seq![SpanModel { role: Role::Unchanged, text: c.text }],
        ChangeKind::Removed => seq![SpanModel { role: Role::Deletion, text: c.text }],
        ChangeKind::Added => Seq::empty(),
    }
}

/// The spans a single change contributes to the right side.
pub open spec fn right_span_one(c: WordChangeModel) -> Seq<SpanModel> {
    match c.kind {
        ChangeKind::Same => seq![SpanModel { role: Role::Unchanged, text: c.text }],
        ChangeKind::Added => seq![SpanModel { role: Role::Addition, text: c.text }],
        ChangeKind::Removed => Seq::empty(),
    }
}

pub open spec fn left_spans_of(cs: Seq<WordChangeModel>) -> Seq<SpanModel>
    decreases cs.len(),
{
    if cs.len() == 0 {
        Seq::empty()
    } else {
        left_span_one(cs[0]) + left_spans_of(cs.drop_first())
    }
}

pub open spec fn right_spans_of(cs: Seq<WordChangeModel>) -> Seq<SpanModel>
    decreases cs.len(),
{
    if cs.len() == 0 {
        Seq::empty()
    } else {
        right_span_one(cs[0]) + right_spans_of(cs.drop_first())
    }
}

/// The text of a span sequence with every role marker dropped.
pub open spec fn span_texts(ss: Seq<SpanModel>) -> Seq<char>
    decreases ss.len(),
{
    if ss.len() == 0 {
        Seq::empty()
    } else {
        ss[0].text + span_texts(ss.drop_first())
    }
}

/// One span as the styling collaborator renders it.
pub open spec fn rendered_one(s: SpanModel) -> Seq<char> {
    match s.role {
        Role::Unchanged => s.text,
        Role::Deletion => deletion_marked(s.text),
        Role::Addition => addition_marked(s.text),
    }
}

/// A span sequence as the styling collaborator renders it.
pub open spec fn rendered(ss: Seq<SpanModel>) -> Seq<char>
    decreases ss.len(),
{
    if ss.len() == 0 {
        Seq::empty()
    } else {
        rendered_one(ss[0]) + rendered(ss.drop_first())
    }
}

/// The left side of a word-highlighted line pair, fully styled.
pub open spec fn styled_left(l: Seq<char>, r: Seq<char>) -> Seq<char> {
    rendered(left_spans_of(word_changes_of(l, r)))
}

/// The right side of a word-highlighted line pair, fully styled.
pub open spec fn styled_right(l: Seq<char>, r: Seq<char>) -> Seq<char> {
    rendered(right_spans_of(word_changes_of(l, r)))
}

proof fn lemma_left_spans_snoc(cs: Seq<WordChangeModel>, c: WordChangeModel)
    ensures
        left_spans_of(cs.push(c)) == left_spans_of(cs) + left_span_one(c),
    decreases cs.len(),
{
    if cs.len() == 0 {
        assert(cs.push(c).drop_first() =~= Seq::<WordChangeModel>::empty());
        assert(left_spans_of(Seq::<WordChangeModel>::empty()) == Seq::<SpanModel>::empty());
        assert(left_spans_of(cs.push(c)) =~= left_spans_of(cs) + left_span_one(c));
    } else {
        assert(cs.push(c).drop_first() =~= cs.drop_first().push(c));
        lemma_left_spans_snoc(cs.drop_first(), c);
        assert(left_spans_of(cs.push(c)) =~= left_spans_of(cs) + left_span_one(c));
    }
}

proof fn lemma_right_spans_snoc(cs: Seq<WordChangeModel>, c: WordChangeModel)
    ensures
        right_spans_of(cs.push(c)) == right_spans_of(cs) + right_span_one(c),
    decreases cs.len(),
{
    if cs.len() == 0 {
        assert(cs.push(c).drop_first() =~= Seq::<WordChangeModel>::empty());
        assert(right_spans_of(Seq::<WordChangeModel>::empty()) == Seq::<SpanModel>::empty());
        assert(right_spans_of(cs.push(c)) =~= right_spans_of(cs) + right_span_one(c));
    } else {
        assert(cs.push(c).drop_first() =~= cs.drop_first().push(c));
        lemma_right_spans_snoc(cs.drop_first(), c);
        assert(right_spans_of(cs.push(c)) =~= right_spans_of(cs) + right_span_one(c));
    }
}

proof fn lemma_rendered_snoc(ss: Seq<SpanModel>, s: SpanModel)
    ensures
        rendered(ss.push(s)) == rendered(ss) + rendered_one(s),
    decreases ss.len(),
{
    if ss.len() == 0 {
        assert(ss.push(s).drop_first() =~= Seq::<SpanModel>::empty());
        assert(rendered(Seq::<SpanModel>::empty()) == Seq::<char>::empty());
        assert(rendered(ss.push(s)) =~= rendered(ss) + rendered_one(s));
    } else {
        assert(ss.push(s).drop_first() =~= ss.drop_first().push(s));
        lemma_rendered_snoc(ss.drop_first(), s);
        assert(rendered(ss.push(s)) =~= rendered(ss) + rendered_one(s));
    }
}

proof fn lemma_span_texts_concat(a: Seq<SpanModel>, b: Seq<SpanModel>)
    ensures
        span_texts(a + b) == span_texts(a) + span_texts(b),
    decreases a.len(),
{
    if a.len() == 0 {
        assert(a + b =~= b);
        assert(span_texts(a) + span_texts(b) =~= span_texts(b));
    } else {
        assert((a + b).drop_first() =~= a.drop_first() + b);
        lemma_span_texts_concat(a.drop_first(), b);
        assert(span_texts(a + b) =~= span_texts(a) + span_texts(b));
    }
}

proof fn lemma_span_texts_one_left(c: WordChangeModel)
    ensures
        span_texts(left_span_one(c)) == (if c.kind is Added {
            Seq::<char>::empty()
        } else {
            c.text
        }),
{
    if !(c.kind is Added) {
        assert(left_span_one(c).drop_first() =~= Seq::<SpanModel>::empty());
        assert(span_texts(Seq::<SpanModel>::empty()) == Seq::<char>::empty());
        assert(span_texts(left_span_one(c)) =~= c.text);
    }
}

proof fn lemma_span_texts_one_right(c: WordChangeModel)
    ensures
        span_texts(right_span_one(c)) == (if c.kind is Removed {
            Seq::<char>::empty()
        } else {
            c.text
        }),
{
    if !(c.kind is Removed) {
        assert(right_span_one(c).drop_first() =~= Seq::<SpanModel>::empty());
        assert(span_texts(Seq::<SpanModel>::empty()) == Seq::<char>::empty());
        assert(span_texts(right_span_one(c)) =~= c.text);
    }
}

/// Stripping the role markers from the left-hand spans gives back exactly
/// the tokens the change list holds for the left line.
proof fn lemma_left_spans_texts(cs: Seq<WordChangeModel>)
    ensures
        span_texts(left_spans_of(cs)) == left_source(cs),
    decreases cs.len(),
{
    if cs.len() > 0 {
        lemma_left_spans_texts(cs.drop_first());
        lemma_span_texts_concat(left_span_one(cs[0]), left_spans_of(cs.drop_first()));
        lemma_span_texts_one_left(cs[0]);
    }
}

proof fn lemma_right_spans_texts(cs: Seq<WordChangeModel>)
    ensures
        span_texts(right_spans_of(cs)) == right_source(cs),
    decreases cs.len(),
{
    if cs.len() > 0 {
        lemma_right_spans_texts(cs.drop_first());
        lemma_span_texts_concat(right_span_one(cs[0]), right_spans_of(cs.drop_first()));
        lemma_span_texts_one_right(cs[0]);
    }
}

/// The word highlighter proper: diff two lines at word granularity and
/// assign each span of either side its role. The equal spans are returned
/// unchanged; spans only in `left` carry the deletion role, spans only in
/// `right` the addition role.
///
/// Removing all role markers — concatenating the span texts of a side —
/// reproduces that side's input exactly: the last two postconditions.
pub fn word_spans(left: &str, right: &str) -> (r: (Vec<Span>, Vec<Span>))
    ensures
        spans_view(r.0@) == left_spans_of(word_changes_of(left@, right@)),
        spans_view(r.1@) == right_spans_of(word_changes_of(left@, right@)),
        span_texts(spans_view(r.0@)) == left@,
        span_texts(spans_view(r.1@)) == right@,
{
    let changes = word_changes(left, right);
    let ghost cs = changes_view(changes@);
    let mut ls: Vec<Span> = Vec::new();
    let mut rs: Vec<Span> = Vec::new();
    let n = changes.len();
    let mut i: usize = 0;
    while i < n
        invariant
            i <= n,
            n == changes@.len(),
            cs == changes_view(changes@),
            spans_view(ls@) == left_spans_of(cs.take(i as int)),
            spans_view(rs@) == right_spans_of(cs.take(i as int)),
        decreases n - i,
    {
        let c = &changes[i];
        proof {
            assert(cs[i as int] == changes@[i as int]@);
        }
        match c.kind {
            ChangeKind::Same => {
                ls.push(Span { role: Role::Unchanged, text: c.text.clone() });
                rs.push(Span { role: Role::Unchanged, text: c.text.clone() });
            },
            ChangeKind::Removed => {
                ls.push(Span { role: Role::Deletion, text: c.text.clone() });
            },
            ChangeKind::Added => {
                rs.push(Span { role: Role::Addition, text: c.text.clone() });
            },
        }
        proof {
            let prev = cs.take(i as int);
            assert(cs.take(i + 1) =~= prev.push(cs[i as int]));
            lemma_left_spans_snoc(prev, cs[i as int]);
            lemma_right_spans_snoc(prev, cs[i as int]);
            assert(spans_view(ls@) =~= left_spans_of(cs.take(i + 1)));
            assert(spans_view(rs@) =~= right_spans_of(cs.take(i + 1)));
        }
        i += 1;
    }
    proof {
        assert(cs.take(n as int) =~= cs);
        lemma_left_spans_texts(cs);
        lemma_right_spans_texts(cs);
    }
    (ls, rs)
}

/// Hand each span to the styling collaborator as its role demands and
/// concatenate the results.
pub fn render_spans(spans: &Vec<Span>) -> (out: String)
    ensures
        out@ == rendered(spans_view(spans@)),
{
    let ghost sv = spans_view(spans@);
    let mut out = String::new();
    let n = spans.len();
    let mut i: usize = 0;
    while i < n
        invariant
            i <= n,
            n == spans@.len(),
            sv == spans_view(spans@),
            out@ == rendered(sv.take(i as int)),
        decreases n - i,
    {
        let s = &spans[i];
        proof {
            assert(sv[i as int] == spans@[i as int]@);
        }
        match s.role {
            Role::Unchanged => {
                out.append(s.text.as_str());
            },
            Role::Deletion => {
                let marked = style_deletion(s.text.as_str());
                out.append(marked.as_str());
            },
            Role::Addition => {
                let marked = style_addition(s.text.as_str());
                out.append(marked.as_str());
            },
        }
        proof {
            let prev = sv.take(i as int);
            assert(sv.take(i + 1) =~= prev.push(sv[i as int]));
            lemma_rendered_snoc(prev, sv[i as int]);
        }
        i += 1;
    }
    proof {
        assert(sv.take(n as int) =~= sv);
    }
    out
}

/// Intermediate result of styling two lines word-by-word.
pub struct StyledPair {
    pub left: String,
    pub right: String,
}

/// Do a word-level diff on `left` vs `right`, and return two strings where
/// only the changed words are styled.
pub fn apply_word_style(left: &str, right: &str) -> (r: StyledPair)
    ensures
        r.left@ == styled_left(left@, right@),
        r.right@ == styled_right(left@, right@),
{
    let (ls, rs) = word_spans(left, right);
    let styled_l = render_spans(&ls);
    let styled_r = render_spans(&rs);
    StyledPair { left: styled_l, right: styled_r }
}

} // verus!
