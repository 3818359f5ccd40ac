//! The directive language: `SELECTOR {text}`, `SELECTOR {html}` and
//! `SELECTOR attr{NAME}` clauses, separated by an optional comma and
//! white space.
use vstd::prelude::*;
use crate::text::{has_content, is_space, leading_space, trimmed, count_leading_space, string_of};

verus! {

/// What a clause asks of each element its selector matches.
#[derive(Debug, PartialEq, Eq)]
pub enum Operation {
    Text,
    Html,
    Attr(String),
}

/// The mathematical value of an [`Operation`].
pub enum OperationModel {
    Text,
    Html,
    Attr(Seq<char>),
}

impl View for Operation {
    type V = OperationModel;

    open spec fn view(&self) -> OperationModel {
        match self {
            Operation::Text => OperationModel::Text,
            Operation::Html => OperationModel::Html,
            Operation::Attr(name) => OperationModel::Attr(name@),
        }
    }
}

/// One clause as written: where it starts, its selector text (not yet
/// trimmed) and its operation.
pub struct ClauseModel {
    pub start: int,
    pub selector: Seq<char>,
    pub op: OperationModel,
}

/// A clause found by [`scan_clauses`].
pub struct Clause {
    pub start: usize,
    pub selector: Vec<char>,
    pub op: Operation,
}

impl View for Clause {
    type V = ClauseModel;

    open spec fn view(&self) -> ClauseModel {
        ClauseModel { start: self.start as int, selector: self.selector@, op: self.op@ }
    }
}

pub open spec fn is_brace(c: char) -> bool {
    c == '{' || c == '}'
}

/// Whether `w` occurs in `s` at position `i`.
pub open spec fn has_at(s: Seq<char>, i: int, w: Seq<char>) -> bool {
    &&& 0 <= i
    &&& i + w.len() <= s.len()
    &&& forall|k: int| 0 <= k < w.len() ==> s[i + k] == #[trigger] w[k]
}

pub open spec fn text_mark() -> Seq<char> {
    seq!['{', 't', 'e', 'x', 't', '}']
}

pub open spec fn html_mark() -> Seq<char> {
    seq!['{', 'h', 't', 'm', 'l', '}']
}

pub open spec fn attr_mark() -> Seq<char> {
    seq!['a', 't', 't', 'r', '{']
}

/// The first position at or after `i` that holds a brace, or the length.
pub open spec fn brace_from(s: Seq<char>, i: int) -> int
    decreases s.len() - i,
{
    if i < 0 || i >= s.len() {
        s.len() as int
    } else if is_brace(s[i]) {
        i
    } else {
        brace_from(s, i + 1)
    }
}

/// The first position at or after `i` that holds `}`, or the length.
pub open spec fn close_from(s: Seq<char>, i: int) -> int
    decreases s.len() - i,
{
    if i < 0 || i >= s.len() {
        s.len() as int
    } else if s[i] == '}' {
        i
    } else {
        close_from(s, i + 1)
    }
}

/// The first position at or after `i` that is not white space, or the length.
pub open spec fn space_end(s: Seq<char>, i: int) -> int {
    i + leading_space(s.subrange(i, s.len() as int))
}

/// The operation that follows a selector run starting at `a` and ending at
/// the brace at `q`: the operation, where the selector text ends, and where
/// the operation ends.
pub open spec fn operation_at(s: Seq<char>, a: int, q: int) -> Option<(OperationModel, int, int)> {
    if has_at(s, q, text_mark()) {
        Some((OperationModel::Text, q, q + 6))
    } else if has_at(s, q, html_mark()) {
        Some((OperationModel::Html, q, q + 6))
    } else if a + 1 <= q - 4 && has_at(s, q - 4, attr_mark()) {
        let r = close_from(s, q + 1);
        if q + 1 < r < s.len() {
            Some((OperationModel::Attr(s.subrange(q + 1, r)), q - 4, r + 1))
        } else {
            None
        }
    } else {
        None
    }
}

/// Where the separator after an operation ending at `e` ends: an optional
/// comma, then any white space.
pub open spec fn separator_end(s: Seq<char>, e: int) -> int {
    let e1 = if 0 <= e < s.len() && s[e] == ',' { e + 1 } else { e };
    space_end(s, e1)
}

/// The clauses of `s` from position `pos` on, left to right. A clause is a
/// run of characters other than braces followed by an operation; text that
/// forms no clause is passed over.
pub open spec fn clauses_from(s: Seq<char>, pos: int) -> Seq<ClauseModel>
    decreases s.len() + 1 - pos,
{
    if pos < 0 || pos >= s.len() {
        Seq::empty()
    } else if is_brace(s[pos]) {
        clauses_from(s, pos + 1)
    } else {
        let q = brace_from(s, pos);
        match operation_at(s, pos, q) {
            Some(found) => {
                let next = separator_end(s, found.2);
                if pos < next <= s.len() {
                    seq![ClauseModel { start: pos, selector: s.subrange(pos, found.1), op: found.0 }]
                        + clauses_from(s, next)
                } else {
                    Seq::empty()
                }
            },
            None => if pos < q <= s.len() {
                clauses_from(s, q + 1)
            } else {
                Seq::empty()
            },
        }
    }
}

/// The clauses of a directive string, in the order in which they are written.
pub open spec fn clauses(s: Seq<char>) -> Seq<ClauseModel> {
    clauses_from(s, 0)
}

/// Whether the clauses `cs` stand in `s` in the order of the sequence,
/// each selector being the text where its clause starts, and none
/// before `pos`.
pub open spec fn written_in_order(s: Seq<char>, cs: Seq<ClauseModel>, pos: int) -> bool {
    &&& forall|i: int|
        0 <= i < cs.len() ==> {
            &&& pos <= #[trigger] cs[i].start
            &&& cs[i].start + cs[i].selector.len() <= s.len()
            &&& s.subrange(cs[i].start, cs[i].start + cs[i].selector.len()) == cs[i].selector
        }
    &&& forall|i: int, j: int|
        0 <= i < j < cs.len() ==> #[trigger] cs[i].start + cs[i].selector.len()
            < #[trigger] cs[j].start
}

proof fn lemma_brace_from_bounds(s: Seq<char>, i: int)
    requires
        0 <= i <= s.len(),
    ensures
        i <= brace_from(s, i) <= s.len(),
    decreases s.len() - i,
{
    if i < s.len() && !is_brace(s[i]) {
        lemma_brace_from_bounds(s, i + 1);
    }
}

proof fn lemma_close_from_bounds(s: Seq<char>, i: int)
    requires
        0 <= i <= s.len(),
    ensures
        i <= close_from(s, i) <= s.len(),
    decreases s.len() - i,
{
    if i < s.len() && s[i] != '}' {
        lemma_close_from_bounds(s, i + 1);
    }
}

/// The bounds of an operation found after a selector run from `a`.
proof fn lemma_operation_bounds(s: Seq<char>, a: int)
    requires
        0 <= a < s.len(),
        !is_brace(s[a]),
    ensures
        operation_at(s, a, brace_from(s, a)) matches Some(found) ==> a < found.1 < found.2
            <= s.len(),
{
    let q = brace_from(s, a);
    lemma_brace_from_bounds(s, a + 1);
    assert(text_mark().len() == 6 && html_mark().len() == 6 && attr_mark().len() == 5);
    if q + 1 <= s.len() {
        lemma_close_from_bounds(s, q + 1);
    }
}

proof fn lemma_clauses_from_in_order(s: Seq<char>, pos: int)
    requires
        0 <= pos,
    ensures
        written_in_order(s, clauses_from(s, pos), pos),
    decreases s.len() + 1 - pos,
{
    if pos < 0 || pos >= s.len() {
    } else if is_brace(s[pos]) {
        lemma_clauses_from_in_order(s, pos + 1);
    } else {
        let q = brace_from(s, pos);
        match operation_at(s, pos, q) {
            Some(found) => {
                let next = separator_end(s, found.2);
                if pos < next <= s.len() {
                    lemma_clauses_from_in_order(s, next);
                    lemma_operation_bounds(s, pos);
                    crate::text::lemma_leading_space_bound(
                        s.subrange(if 0 <= found.2 < s.len() && s[found.2] == ',' {
                            found.2 + 1
                        } else {
                            found.2
                        }, s.len() as int),
                    );
                    let head = ClauseModel { start: pos, selector: s.subrange(pos, found.1), op: found.0 };
                    let rest = clauses_from(s, next);
                    let cs = clauses_from(s, pos);
                    assert(cs == seq![head] + rest);
                    assert forall|i: int, j: int|
                        0 <= i < j < cs.len() implies #[trigger] cs[i].start
                        + cs[i].selector.len() < #[trigger] cs[j].start by {
                        if i == 0 {
                            assert(cs[j] == rest[j - 1]);
                        } else {
                            assert(cs[i] == rest[i - 1]);
                            assert(cs[j] == rest[j - 1]);
                        }
                    }
                    assert forall|i: int| 0 <= i < cs.len() implies {
                        &&& pos <= #[trigger] cs[i].start
                        &&& cs[i].start + cs[i].selector.len() <= s.len()
                        &&& s.subrange(cs[i].start, cs[i].start + cs[i].selector.len())
                            == cs[i].selector
                    } by {
                        if i > 0 {
                            assert(cs[i] == rest[i - 1]);
                        } else {
                            assert(s.subrange(pos, pos + head.selector.len()) =~= head.selector);
                        }
                    }
                }
            },
            None => {
                if pos < q <= s.len() {
                    lemma_clauses_from_in_order(s, q + 1);
                }
            },
        }
    }
}

/// The clauses of a directive come out in the order in which they are
/// written: each clause's selector is the text where the clause starts,
/// and each clause starts after the selector of the one before it.
pub proof fn lemma_clauses_in_written_order(s: Seq<char>)
    ensures
        written_in_order(s, clauses(s), 0),
{
    lemma_clauses_from_in_order(s, 0);
}

/// The mark that writes operation `op`.
pub open spec fn mark_of(op: OperationModel) -> Seq<char> {
    match op {
        OperationModel::Text => text_mark(),
        OperationModel::Html => html_mark(),
        OperationModel::Attr(name) => attr_mark() + name + seq!['}'],
    }
}

/// A clause written out: its selector text, then its operation mark.
pub open spec fn clause_text(c: (Seq<char>, OperationModel)) -> Seq<char> {
    c.0 + mark_of(c.1)
}

/// Clauses written out one after the other, separated by `", "`.
pub open spec fn written(cs: Seq<(Seq<char>, OperationModel)>) -> Seq<char>
    decreases cs.len(),
{
    if cs.len() == 0 {
        Seq::empty()
    } else if cs.len() == 1 {
        clause_text(cs[0])
    } else {
        clause_text(cs[0]) + seq![',', ' '] + written(cs.drop_first())
    }
}

/// A clause that reads back as itself: a selector without braces that holds
/// some character other than white space, and for an attribute a non-empty
/// name without `}` that is not `text` or `html` (`attr{text}` reads as the
/// text mark after a selector ending in `attr`).
pub open spec fn well_written(c: (Seq<char>, OperationModel)) -> bool {
    &&& c.0.len() > 0
    &&& has_content(c.0)
    &&& forall|i: int| 0 <= i < c.0.len() ==> !is_brace(#[trigger] c.0[i])
    &&& match c.1 {
        OperationModel::Attr(name) => {
            &&& name.len() > 0
            &&& forall|i: int| 0 <= i < name.len() ==> #[trigger] name[i] != '}'
            &&& name != seq!['t', 'e', 'x', 't']
            &&& name != seq!['h', 't', 'm', 'l']
        },
        _ => true,
    }
}

/// The clauses `cl` as selector text, trimmed, and operation.
pub open spec fn trimmed_clauses(cl: Seq<ClauseModel>) -> Seq<(Seq<char>, OperationModel)> {
    cl.map_values(|c: ClauseModel| (trimmed(c.selector), c.op))
}

/// The clauses `cs` with each selector trimmed.
pub open spec fn trimmed_written(cs: Seq<(Seq<char>, OperationModel)>) -> Seq<(Seq<char>, OperationModel)> {
    cs.map_values(|c: (Seq<char>, OperationModel)| (trimmed(c.0), c.1))
}

proof fn lemma_brace_run(s: Seq<char>, i: int, q: int)
    requires
        0 <= i <= q < s.len(),
        forall|j: int| i <= j < q ==> !is_brace(#[trigger] s[j]),
        is_brace(s[q]),
    ensures
        brace_from(s, i) == q,
    decreases q - i,
{
    if i < q {
        lemma_brace_run(s, i + 1, q);
    }
}

proof fn lemma_close_run(s: Seq<char>, i: int, q: int)
    requires
        0 <= i <= q < s.len(),
        forall|j: int| i <= j < q ==> #[trigger] s[j] != '}',
        s[q] == '}',
    ensures
        close_from(s, i) == q,
    decreases q - i,
{
    if i < q {
        lemma_close_run(s, i + 1, q);
    }
}

/// A run `u` without braces followed by a well-written mark is one clause.
proof fn lemma_clause_step(s: Seq<char>, p: int, u: Seq<char>, op: OperationModel)
    requires
        0 <= p,
        u.len() > 0,
        p + u.len() + mark_of(op).len() <= s.len(),
        s.subrange(p, p + u.len() + mark_of(op).len()) == u + mark_of(op),
        well_written((u, op)),
    ensures
        clauses_from(s, p) == seq![ClauseModel { start: p, selector: u, op: op }] + clauses_from(
            s,
            separator_end(s, p + u.len() + mark_of(op).len()),
        ),
{
    let q = p + u.len();
    let m = mark_of(op);
    let w = u + m;
    assert forall|j: int| 0 <= j < w.len() implies s[p + j] == #[trigger] w[j] by {
        assert(s.subrange(p, p + w.len())[j] == s[p + j]);
    }
    assert(text_mark().len() == 6 && html_mark().len() == 6 && attr_mark().len() == 5);
    assert(s[q] == w[u.len() as int]);
    assert(s[p] == w[0]);
    match op {
        OperationModel::Attr(name) => {
            let at = q + 4;
            assert(s[at] == w[u.len() + 4int]);
            assert(forall|j: int| p <= j < at ==> #[trigger] s[j] == w[j - p]);
            lemma_brace_run(s, p, at);
            assert(s.subrange(q, at + 1) =~= attr_mark());
            assert(has_at(s, q, attr_mark()));
            let r = at + 1 + name.len();
            assert(s[r] == w[u.len() + 5 + name.len() as int]);
            assert forall|j: int| at + 1 <= j < r implies #[trigger] s[j] == name[j - at - 1] by {
                assert(s[p + (j - p)] == w[j - p]);
                assert(w[j - p] == m[j - p - u.len()]);
                assert(m[j - p - u.len()] == name[j - at - 1]);
            }
            lemma_close_run(s, at + 1, r);
            if has_at(s, at, text_mark()) {
                if name.len() < 4 {
                    assert(s[at + 1 + name.len()] == text_mark()[1 + name.len() as int]);
                } else if name.len() > 4 {
                    assert(s[at + 5] == name[4]);
                } else {
                    assert(name =~= seq!['t', 'e', 'x', 't']);
                }
            }
            if has_at(s, at, html_mark()) {
                if name.len() < 4 {
                    assert(s[at + 1 + name.len()] == html_mark()[1 + name.len() as int]);
                } else if name.len() > 4 {
                    assert(s[at + 5] == name[4]);
                } else {
                    assert(name =~= seq!['h', 't', 'm', 'l']);
                }
            }
            assert(s.subrange(at + 1, r) =~= name);
        },
        OperationModel::Text => {
            assert(forall|j: int| p <= j < q ==> #[trigger] s[j] == w[j - p]);
            lemma_brace_run(s, p, q);
            assert forall|k: int| 0 <= k < 6 implies s[q + k] == #[trigger] text_mark()[k] by {
                assert(s[p + (u.len() + k)] == w[u.len() + k]);
            }
            assert(s.subrange(q, q + 6) =~= text_mark());
        },
        OperationModel::Html => {
            assert(forall|j: int| p <= j < q ==> #[trigger] s[j] == w[j - p]);
            lemma_brace_run(s, p, q);
            assert forall|k: int| 0 <= k < 6 implies s[q + k] == #[trigger] html_mark()[k] by {
                assert(s[p + (u.len() + k)] == w[u.len() + k]);
            }
            assert(s.subrange(q, q + 6) =~= html_mark());
            assert(s[q + 1] == 'h');
        },
    }
    assert(s.subrange(p, q) =~= u);
    lemma_operation_bounds(s, p);
    crate::text::lemma_leading_space_bound(
        s.subrange(if 0 <= q + m.len() < s.len() && s[q + m.len()] == ',' {
            q + m.len() + 1
        } else {
            q + m.len()
        }, s.len() as int),
    );
}

proof fn lemma_written_from(
    s: Seq<char>,
    p: int,
    k: int,
    cs: Seq<(Seq<char>, OperationModel)>,
)
    requires
        cs.len() >= 1,
        forall|i: int| 0 <= i < cs.len() ==> well_written(#[trigger] cs[i]),
        0 <= p,
        p + written(cs).len() == s.len(),
        s.subrange(p, s.len() as int) == written(cs),
        0 <= k <= leading_space(cs[0].0),
    ensures
        trimmed_clauses(clauses_from(s, p + k)) == trimmed_written(cs),
    decreases cs.len(),
{
    let c = cs[0];
    let m = mark_of(c.1);
    let ct = clause_text(c);
    let wr = written(cs);
    assert(well_written(c));
    crate::text::lemma_leading_space_prefix(c.0, m);
    let tail = if cs.len() == 1 {
        Seq::<char>::empty()
    } else {
        seq![',', ' '] + written(cs.drop_first())
    };
    assert(wr =~= ct + tail);
    let u = c.0.subrange(k, c.0.len() as int);
    assert forall|j: int| 0 <= j < ct.len() implies s[p + j] == #[trigger] ct[j] by {
        assert(s.subrange(p, s.len() as int)[j] == s[p + j]);
        assert(wr[j] == ct[j]);
    }
    assert(s.subrange(p + k, p + ct.len()) =~= u + m) by {
        assert forall|j: int| 0 <= j < u.len() + m.len() implies s.subrange(p + k, p + ct.len())[j]
            == (u + m)[j] by {
            assert(s[p + (k + j)] == ct[k + j]);
        }
    }
    let i0 = choose|i: int| 0 <= i < c.0.len() && !crate::text::is_space(#[trigger] c.0[i]);
    crate::text::lemma_leading_space_bound(c.0);
    assert(u[i0 - k] == c.0[i0]);
    assert(well_written((u, c.1)));
    lemma_clause_step(s, p + k, u, c.1);
    crate::text::lemma_trimmed_skip(c.0, k);
    let e = p + ct.len();
    let cl = ClauseModel { start: p + k, selector: u, op: c.1 };
    if cs.len() == 1 {
        assert(s.subrange(e, s.len() as int) =~= Seq::<char>::empty());
        assert(separator_end(s, e) == e);
        assert(clauses_from(s, e) == Seq::<ClauseModel>::empty());
        assert(trimmed_clauses(seq![cl] + Seq::<ClauseModel>::empty()) =~= trimmed_written(cs));
    } else {
        let rest = cs.drop_first();
        let wr2 = written(rest);
        assert(s[e] == wr[ct.len() as int]);
        assert forall|j: int| 0 <= j < wr.len() implies s[p + j] == #[trigger] wr[j] by {
            assert(s.subrange(p, s.len() as int)[j] == s[p + j]);
        }
        assert(s.subrange(e + 1, s.len() as int) =~= seq![' '] + wr2) by {
            assert forall|j: int| 0 <= j < wr2.len() + 1 implies s.subrange(e + 1, s.len() as int)[j]
                == (seq![' '] + wr2)[j] by {
                assert(s[p + (ct.len() + 1 + j)] == wr[ct.len() + 1 + j]);
            }
        }
        assert((seq![' '] + wr2).drop_first() =~= wr2);
        assert(rest[0] == cs[1]);
        let c2 = rest[0];
        let tail2 = if rest.len() == 1 {
            Seq::<char>::empty()
        } else {
            seq![',', ' '] + written(rest.drop_first())
        };
        assert(wr2 =~= c2.0 + (mark_of(c2.1) + tail2));
        crate::text::lemma_leading_space_prefix(c2.0, mark_of(c2.1) + tail2);
        let next = separator_end(s, e);
        assert(next == e + 2 + leading_space(c2.0));
        assert(s.subrange(e + 2, s.len() as int) =~= wr2);
        assert forall|i: int| 0 <= i < rest.len() implies well_written(#[trigger] rest[i]) by {
            assert(rest[i] == cs[i + 1]);
        }
        lemma_written_from(s, e + 2, leading_space(c2.0) as int, rest);
        let later = clauses_from(s, next);
        assert(trimmed_clauses(seq![cl] + later) =~= seq![(trimmed(u), c.1)] + trimmed_clauses(later));
        assert(trimmed_written(cs) =~= seq![(trimmed(c.0), c.1)] + trimmed_written(rest));
    }
}

/// Clauses written one after the other with `", "` between them are read
/// back as exactly those clauses, in the same order, each selector trimmed.
pub proof fn lemma_written_clauses_read_back(cs: Seq<(Seq<char>, OperationModel)>)
    requires
        cs.len() >= 1,
        forall|i: int| 0 <= i < cs.len() ==> well_written(#[trigger] cs[i]),
    ensures
        trimmed_clauses(clauses(written(cs))) == trimmed_written(cs),
{
    let s = written(cs);
    assert(s.subrange(0, s.len() as int) =~= s);
    lemma_written_from(s, 0, 0, cs);
}

fn find_brace(s: &Vec<char>, i: usize) -> (r: usize)
    requires
        i <= s@.len(),
    ensures
        r == brace_from(s@, i as int),
        i <= r <= s@.len(),
{
    let mut j: usize = i;
    while j < s.len() && s[j] != '{' && s[j] != '}'
        invariant
            i <= j <= s@.len(),
            brace_from(s@, i as int) == brace_from(s@, j as int),
        decreases s@.len() - j,
    {
        j = j + 1;
    }
    j
}

fn find_close(s: &Vec<char>, i: usize) -> (r: usize)
    requires
        i <= s@.len(),
    ensures
        r == close_from(s@, i as int),
        i <= r <= s@.len(),
{
    let mut j: usize = i;
    while j < s.len() && s[j] != '}'
        invariant
            i <= j <= s@.len(),
            close_from(s@, i as int) == close_from(s@, j as int),
        decreases s@.len() - j,
    {
        j = j + 1;
    }
    j
}

/// Whether `w` occurs in `s` at position `i`.
pub(crate) fn word_at(s: &Vec<char>, i: usize, w: &Vec<char>) -> (r: bool)
    ensures
        r == has_at(s@, i as int, w@),
{
    let len = s.len();
    if i > len || w.len() > len - i {
        return false;
    }
    let mut k: usize = 0;
    while k < w.len()
        invariant
            len == s@.len(),
            i + w@.len() <= s@.len(),
            k <= w@.len(),
            forall|m: int| 0 <= m < k ==> s@[i + m] == #[trigger] w@[m],
        decreases w@.len() - k,
    {
        if s[i + k] != w[k] {
            return false;
        }
        k = k + 1;
    }
    true
}

fn operation_found(s: &Vec<char>, a: usize, q: usize) -> (r: Option<(Operation, usize, usize)>)
    requires
        a <= q <= s@.len(),
    ensures
        match operation_at(s@, a as int, q as int) {
            Some(m) => r matches Some(f) && f.0@ == m.0 && f.1 == m.1 && f.2 == m.2,
            None => r is None,
        },
{
    let text_w = vec!['{', 't', 'e', 'x', 't', '}'];
    let html_w = vec!['{', 'h', 't', 'm', 'l', '}'];
    let attr_w = vec!['a', 't', 't', 'r', '{'];
    assert(text_w@ =~= text_mark());
    assert(html_w@ =~= html_mark());
    assert(attr_w@ =~= attr_mark());
    assert(text_mark().len() == 6 && html_mark().len() == 6);
    let len = s.len();
    if word_at(s, q, &text_w) {
        Some((Operation::Text, q, q + 6))
    } else if word_at(s, q, &html_w) {
        Some((Operation::Html, q, q + 6))
    } else if q >= 5 && a < q - 4 && word_at(s, q - 4, &attr_w) {
        let r = find_close(s, q + 1);
        if q + 1 < r && r < s.len() {
            let mut name: Vec<char> = Vec::new();
            let mut k: usize = q + 1;
            while k < r
                invariant
                    q + 1 <= k <= r <= s@.len(),
                    name@ =~= s@.subrange(q + 1, k as int),
                decreases r - k,
            {
                name.push(s[k]);
                k = k + 1;
            }
            Some((Operation::Attr(string_of(&name)), q - 4, r + 1))
        } else {
            None
        }
    } else {
        None
    }
}

fn find_separator_end(s: &Vec<char>, e: usize) -> (r: usize)
    requires
        e <= s@.len(),
    ensures
        r == separator_end(s@, e as int),
        e <= r <= s@.len(),
{
    let e1 = if e < s.len() && s[e] == ',' { e + 1 } else { e };
    count_leading_space(s, e1)
}

/// The clauses of the directive `s`, left to right.
pub fn scan_clauses(s: &Vec<char>) -> (r: Vec<Clause>)
    ensures
        r@.map_values(|c: Clause| c@) == clauses(s@),
{
    let mut out: Vec<Clause> = Vec::new();
    let mut pos: usize = 0;
    while pos < s.len()
        invariant
            pos <= s@.len(),
            out@.map_values(|c: Clause| c@) + clauses_from(s@, pos as int) == clauses(s@),
        decreases s@.len() - pos,
    {
        if s[pos] == '{' || s[pos] == '}' {
            assert(clauses_from(s@, pos as int) == clauses_from(s@, pos + 1));
            pos = pos + 1;
        } else {
            let q = find_brace(s, pos);
            match operation_found(s, pos, q) {
                Some(found) => {
                    let (op, sel_end, e) = found;
                    let next = find_separator_end(s, e);
                    let mut sel: Vec<char> = Vec::new();
                    let mut k: usize = pos;
                    while k < sel_end
                        invariant
                            pos <= k <= sel_end <= s@.len(),
                            sel@ =~= s@.subrange(pos as int, k as int),
                        decreases sel_end - k,
                    {
                        sel.push(s[k]);
                        k = k + 1;
                    }
                    let c = Clause { start: pos, selector: sel, op };
                    let ghost before = out@.map_values(|c: Clause| c@);
                    let ghost cm = c@;
                    assert(clauses_from(s@, pos as int) == seq![cm] + clauses_from(s@, next as int));
                    out.push(c);
                    assert(out@.map_values(|c: Clause| c@) =~= before + seq![cm]);
                    assert(before + seq![cm] + clauses_from(s@, next as int) =~= before + (seq![cm]
                        + clauses_from(s@, next as int)));
                    pos = next;
                },
                None => {
                    assert(clauses_from(s@, pos as int) == clauses_from(s@, q + 1));
                    if q == s.len() {
                        pos = s.len();
                    } else {
                        pos = q + 1;
                    }
                },
            }
        }
    }
    assert(out@.map_values(|c: Clause| c@) =~= clauses(s@));
    out
}

} // verus!
