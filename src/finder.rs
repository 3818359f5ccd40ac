//! Finders: the clauses of a directive with their selectors compiled.
use vstd::prelude::*;
use crate::text::{trimmed, trim_chars, chars_of, string_of};
use crate::directive::{
    Operation, OperationModel, ClauseModel, clauses, clause_text, lemma_written_clauses_read_back,
    scan_clauses, trimmed_clauses, trimmed_written, well_written, written,
};

verus! {

/// The diagnostic that selector compilation gives for `text`, or `None`
/// where `text` compiles.
pub uninterp spec fn selector_error(text: Seq<char>) -> Option<Seq<char>>;

/// Relies on `scraper::Selector::parse`: it compiles `text` or fails with a
/// diagnostic (here its `Debug` form), depending on the text alone.
#[verifier::external_body]
fn compile_selector(text: &str) -> (r: Result<scraper::Selector, String>)
    ensures
        match r {
            Ok(_) => selector_error(text@) is None,
            Err(d) => selector_error(text@) == Some(d@),
        },
{
    scraper::Selector::parse(text).map_err(|e| format!("{:?}", e))
}

/// A compiled selector, the text it was compiled from, and the operation to
/// apply to what it matches. Only [`parse_directives`] makes one, so the
/// selector is always the one compiled from the source.
pub struct Finder {
    pub(crate) selector: scraper::Selector,
    source: String,
    operation: Operation,
}

impl Finder {
    /// The selector text.
    pub closed spec fn source_view(&self) -> Seq<char> {
        self.source@
    }

    /// The operation.
    pub closed spec fn operation_view(&self) -> OperationModel {
        self.operation@
    }

    /// The selector text and the operation.
    pub open spec fn model(&self) -> (Seq<char>, OperationModel) {
        (self.source_view(), self.operation_view())
    }

    /// The selector text, trimmed, that the selector was compiled from.
    pub fn source(&self) -> (r: &String)
        ensures
            r@ == self.source_view(),
    {
        &self.source
    }

    /// The operation to apply to each element the selector matches.
    pub fn operation(&self) -> (r: &Operation)
        ensures
            r@ == self.operation_view(),
    {
        &self.operation
    }
}

/// The selector that an empty directive stands for: the root element.
pub open spec fn root_selector() -> Seq<char> {
    seq!['h', 't', 'm', 'l']
}

/// The error for a selector that does not compile.
pub open spec fn bad_selector_message(selector: Seq<char>, diagnostic: Seq<char>) -> Seq<char> {
    seq!['\''] + selector + "' is a bad CSS selector: "@ + diagnostic
}

/// The error for a directive with no clause.
pub open spec fn no_directive_message() -> Seq<char> {
    "Please specify {text}, {html}, or attr{ATTRIBUTE}"@
}

/// `pre` put before the finders of `o`, if it has any.
pub open spec fn with_prefix(
    pre: Seq<(Seq<char>, OperationModel)>,
    o: Result<Seq<(Seq<char>, OperationModel)>, Seq<char>>,
) -> Result<Seq<(Seq<char>, OperationModel)>, Seq<char>> {
    match o {
        Ok(rest) => Ok(pre + rest),
        Err(m) => Err(m),
    }
}

/// The finders of clauses `cs[k..]`, each selector trimmed, or the error
/// for the first selector that does not compile.
pub open spec fn finders_from(cs: Seq<ClauseModel>, k: int) -> Result<
    Seq<(Seq<char>, OperationModel)>,
    Seq<char>,
>
    decreases cs.len() - k,
{
    if 0 <= k < cs.len() {
        let t = trimmed(cs[k].selector);
        match selector_error(t) {
            Some(d) => Err(bad_selector_message(t, d)),
            None => with_prefix(seq![(t, cs[k].op)], finders_from(cs, k + 1)),
        }
    } else {
        Ok(Seq::empty())
    }
}

/// What a directive string yields: for the empty string one finder that
/// prints the root element; else the finders of its clauses in order, the
/// error for the first bad selector, or the error for a directive without
/// clauses.
pub open spec fn parsed_directives(s: Seq<char>) -> Result<Seq<(Seq<char>, OperationModel)>, Seq<char>> {
    if s.len() == 0 {
        match selector_error(root_selector()) {
            Some(d) => Err(bad_selector_message(root_selector(), d)),
            None => Ok(seq![(root_selector(), OperationModel::Html)]),
        }
    } else {
        match finders_from(clauses(s), 0) {
            Ok(fs) => if fs.len() == 0 {
                Err(no_directive_message())
            } else {
                Ok(fs)
            },
            Err(m) => Err(m),
        }
    }
}

proof fn lemma_finders_from(cs: Seq<ClauseModel>, k: int)
    requires
        0 <= k <= cs.len(),
    ensures
        finders_from(cs, k) matches Ok(fs) ==> {
            &&& fs.len() == cs.len() - k
            &&& forall|j: int|
                0 <= j < fs.len() ==> #[trigger] fs[j] == (trimmed(cs[k + j].selector), cs[k + j].op)
        },
    decreases cs.len() - k,
{
    if k < cs.len() {
        lemma_finders_from(cs, k + 1);
        let t = trimmed(cs[k].selector);
        if selector_error(t) is None {
            if let Ok(rest) = finders_from(cs, k + 1) {
                let fs = seq![(t, cs[k].op)] + rest;
                assert forall|j: int|
                    0 <= j < fs.len() implies #[trigger] fs[j] == (trimmed(cs[k + j].selector), cs[k
                    + j].op) by {
                    if j > 0 {
                        assert(fs[j] == rest[j - 1]);
                        assert(k + 1 + (j - 1) == k + j);
                    }
                }
            }
        }
    }
}

/// The finders of a non-empty directive come out one for each clause, in the
/// order in which the clauses are written in the text; each selector is the
/// clause's selector text, trimmed.
pub proof fn lemma_finders_in_written_order(s: Seq<char>)
    requires
        s.len() > 0,
    ensures
        parsed_directives(s) matches Ok(fs) ==> {
            &&& fs.len() == clauses(s).len()
            &&& forall|k: int|
                0 <= k < fs.len() ==> #[trigger] fs[k] == (
                    trimmed(clauses(s)[k].selector),
                    clauses(s)[k].op,
                )
        },
        crate::directive::written_in_order(s, clauses(s), 0),
{
    lemma_finders_from(clauses(s), 0);
    crate::directive::lemma_clauses_in_written_order(s);
}

proof fn lemma_first_bad_selector(cs: Seq<ClauseModel>, i: int, k: int)
    requires
        0 <= i <= k < cs.len(),
        selector_error(trimmed(cs[k].selector)) is Some,
    ensures
        finders_from(cs, i) matches Err(m) && exists|j: int|
            i <= j <= k && #[trigger] selector_error(trimmed(cs[j].selector)) is Some && m
                == bad_selector_message(
                trimmed(cs[j].selector),
                selector_error(trimmed(cs[j].selector)).unwrap(),
            ),
    decreases k - i,
{
    if selector_error(trimmed(cs[i].selector)) is None {
        lemma_first_bad_selector(cs, i + 1, k);
    } else {
        assert(selector_error(trimmed(cs[i].selector)) is Some);
    }
}

/// A directive with a clause whose selector does not compile is rejected,
/// and the error quotes, right after its opening quote, the trimmed
/// selector of the first such clause.
pub proof fn lemma_bad_selector_quoted(s: Seq<char>, k: int)
    requires
        s.len() > 0,
        0 <= k < clauses(s).len(),
        selector_error(trimmed(clauses(s)[k].selector)) is Some,
    ensures
        parsed_directives(s) matches Err(m) && exists|j: int|
            0 <= j <= k && selector_error(trimmed(clauses(s)[j].selector)) is Some
                && #[trigger] m.subrange(1, 1 + trimmed(clauses(s)[j].selector).len() as int)
                == trimmed(clauses(s)[j].selector),
{
    let cs = clauses(s);
    lemma_first_bad_selector(cs, 0, k);
    let m = finders_from(cs, 0)->Err_0;
    let j = choose|j: int|
        0 <= j <= k && #[trigger] selector_error(trimmed(cs[j].selector)) is Some && m
            == bad_selector_message(
            trimmed(cs[j].selector),
            selector_error(trimmed(cs[j].selector)).unwrap(),
        );
    let t = trimmed(cs[j].selector);
    assert(m.subrange(1, 1 + t.len() as int) =~= t);
}

proof fn lemma_all_compile(cl: Seq<ClauseModel>, k: int)
    requires
        0 <= k <= cl.len(),
        forall|i: int| k <= i < cl.len() ==> selector_error(trimmed(#[trigger] cl[i].selector)) is None,
    ensures
        finders_from(cl, k) == Ok::<_, Seq<char>>(trimmed_clauses(cl).subrange(k, cl.len() as int)),
    decreases cl.len() - k,
{
    if k < cl.len() {
        lemma_all_compile(cl, k + 1);
        let t = trimmed_clauses(cl);
        assert(seq![t[k]] + t.subrange(k + 1, cl.len() as int) =~= t.subrange(k, cl.len() as int));
    } else {
        assert(trimmed_clauses(cl).subrange(k, cl.len() as int) =~= Seq::<
            (Seq<char>, OperationModel),
        >::empty());
    }
}

/// A directive written clause by clause, with `", "` between clauses, each
/// clause well written and its trimmed selector compiling, yields one
/// finder per clause, in the order written: the clause's selector trimmed,
/// and its operation.
pub proof fn lemma_written_directive_parsed(cs: Seq<(Seq<char>, OperationModel)>)
    requires
        cs.len() >= 1,
        forall|i: int| 0 <= i < cs.len() ==> well_written(#[trigger] cs[i]),
        forall|i: int| 0 <= i < cs.len() ==> selector_error(trimmed(#[trigger] cs[i].0)) is None,
    ensures
        parsed_directives(written(cs)) == Ok::<_, Seq<char>>(trimmed_written(cs)),
{
    lemma_written_clauses_read_back(cs);
    let s = written(cs);
    let cl = clauses(s);
    assert(trimmed_clauses(cl).len() == cs.len());
    assert forall|i: int| 0 <= i < cl.len() implies selector_error(
        trimmed(#[trigger] cl[i].selector),
    ) is None by {
        assert(trimmed_clauses(cl)[i] == trimmed_written(cs)[i]);
    }
    lemma_all_compile(cl, 0);
    assert(trimmed_clauses(cl).subrange(0, cl.len() as int) =~= trimmed_clauses(cl));
    let tail = if cs.len() == 1 {
        Seq::<char>::empty()
    } else {
        seq![',', ' '] + written(cs.drop_first())
    };
    assert(s =~= clause_text(cs[0]) + tail);
    assert(well_written(cs[0]));
}

fn copy_operation(op: &Operation) -> (r: Operation)
    ensures
        r@ == op@,
{
    match op {
        Operation::Text => Operation::Text,
        Operation::Html => Operation::Html,
        Operation::Attr(name) => Operation::Attr(name.clone()),
    }
}

fn bad_selector(selector: &String, diagnostic: &String) -> (r: String)
    ensures
        r@ == bad_selector_message(selector@, diagnostic@),
{
    let mut out: Vec<char> = Vec::new();
    out.push('\'');
    let mut part = chars_of(selector.as_str());
    out.append(&mut part);
    let mut part = chars_of("' is a bad CSS selector: ");
    out.append(&mut part);
    let mut part = chars_of(diagnostic.as_str());
    out.append(&mut part);
    assert(out@ =~= bad_selector_message(selector@, diagnostic@));
    string_of(&out)
}

/// Parses a directive string into finders, in the order of its clauses.
pub fn parse_directives(spec: &str) -> (r: Result<Vec<Finder>, String>)
    ensures
        match r {
            Ok(fs) => parsed_directives(spec@) == Ok::<_, Seq<char>>(
                fs@.map_values(|f: Finder| f.model()),
            ),
            Err(m) => parsed_directives(spec@) == Err::<Seq<(Seq<char>, OperationModel)>, _>(m@),
        },
{
    if spec.is_empty() {
        let root = vec!['h', 't', 'm', 'l'];
        assert(root@ =~= root_selector());
        let source = string_of(&root);
        return match compile_selector(source.as_str()) {
            Ok(selector) => {
                let mut fs: Vec<Finder> = Vec::new();
                fs.push(Finder { selector, source, operation: Operation::Html });
                assert(fs@.map_values(|f: Finder| f.model()) =~= seq![(root_selector(), OperationModel::Html)]);
                Ok(fs)
            },
            Err(d) => Err(bad_selector(&source, &d)),
        };
    }
    let s = chars_of(spec);
    let cl = scan_clauses(&s);
    let ghost cs = cl@.map_values(|c: crate::directive::Clause| c@);
    let mut fs: Vec<Finder> = Vec::new();
    let mut k: usize = 0;
    while k < cl.len()
        invariant
            k <= cl@.len(),
            cs == cl@.map_values(|c: crate::directive::Clause| c@),
            cs == clauses(s@),
            s@ == spec@,
            finders_from(cs, 0) == with_prefix(fs@.map_values(|f: Finder| f.model()), finders_from(cs, k as int)),
        decreases cl@.len() - k,
    {
        let source = string_of(&trim_chars(&cl[k].selector));
        let ghost pre = fs@.map_values(|f: Finder| f.model());
        assert(cs[k as int] == cl[k as int]@);
        match compile_selector(source.as_str()) {
            Ok(selector) => {
                let operation = copy_operation(&cl[k].op);
                let ghost x = (source@, operation@);
                fs.push(Finder { selector, source, operation });
                assert(fs@.map_values(|f: Finder| f.model()) =~= pre.push(x));
                proof {
                    match finders_from(cs, k + 1) {
                        Ok(rest) => {
                            assert(pre + (seq![x] + rest) =~= pre.push(x) + rest);
                        },
                        Err(_) => {},
                    }
                }
            },
            Err(d) => {
                return Err(bad_selector(&source, &d));
            },
        }
        k = k + 1;
    }
    assert(fs@.map_values(|f: Finder| f.model()) + Seq::empty() =~= fs@.map_values(|f: Finder| f.model()));
    if fs.len() == 0 {
        return Err("Please specify {text}, {html}, or attr{ATTRIBUTE}".to_owned());
    }
    Ok(fs)
}

} // verus!
