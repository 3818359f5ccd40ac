//! The matching engine: elements in document order, and for each element the
//! finders in the order they were declared.
use vstd::prelude::*;
use crate::text::{chars_of, string_of};
use crate::directive::{Operation, OperationModel};
use crate::dom::{
    Document, DomNode, NodeKind, document_nodes, selector_hits, subtree_end, subtree_end_of,
};
use crate::tree::{render, print_tree};
use crate::finder::{Finder, parsed_directives, parse_directives};

verus! {

/// The text nodes among `nodes[j..stop]`, concatenated in order.
pub open spec fn text_from(nodes: Seq<DomNode>, j: int, stop: int) -> Seq<char>
    decreases stop - j,
{
    if 0 <= j < stop && stop <= nodes.len() {
        let here = match nodes[j].kind {
            NodeKind::Text(t) => t@,
            _ => Seq::empty(),
        };
        here + text_from(nodes, j + 1, stop)
    } else {
        Seq::empty()
    }
}

/// The text of node `i`'s descendants, in document order, with nothing added.
pub open spec fn text_content(nodes: Seq<DomNode>, i: int) -> Seq<char> {
    text_from(nodes, i + 1, subtree_end(nodes, i))
}

/// The value of the first attribute named `name`.
pub open spec fn attr_value(attrs: Seq<(String, String)>, name: Seq<char>) -> Option<Seq<char>>
    decreases attrs.len(),
{
    if attrs.len() == 0 {
        None
    } else if attrs[0].0@ == name {
        Some(attrs[0].1@)
    } else {
        attr_value(attrs.drop_first(), name)
    }
}

/// What operation `op` yields on node `i`: nothing unless it is an element,
/// and nothing for an attribute it lacks.
pub open spec fn apply_operation(nodes: Seq<DomNode>, i: int, op: OperationModel) -> Option<Seq<char>> {
    if 0 <= i < nodes.len() {
        match nodes[i].kind {
            NodeKind::Element(e) => match op {
                OperationModel::Text => Some(text_content(nodes, i)),
                OperationModel::Html => Some(render(nodes, i, 0)),
                OperationModel::Attr(name) => attr_value(e.attrs@, name),
            },
            _ => None,
        }
    } else {
        None
    }
}

/// Whether finder `f` matches node `i` according to `table`, one row per
/// finder and one column per node.
pub open spec fn flagged(table: Seq<Seq<bool>>, f: int, i: int) -> bool {
    0 <= f < table.len() && 0 <= i < table[f].len() && table[f][i]
}

/// The values for node `i` of the finders from `f` on, in their order.
pub open spec fn node_values(
    nodes: Seq<DomNode>,
    i: int,
    ops: Seq<OperationModel>,
    table: Seq<Seq<bool>>,
    f: int,
) -> Seq<Seq<char>>
    decreases ops.len() - f,
{
    if 0 <= f < ops.len() {
        let here = if flagged(table, f, i) {
            match apply_operation(nodes, i, ops[f]) {
                Some(v) => seq![v],
                None => Seq::empty(),
            }
        } else {
            Seq::empty()
        };
        here + node_values(nodes, i, ops, table, f + 1)
    } else {
        Seq::empty()
    }
}

/// The values of nodes `i..` in document order; for each node, the values
/// of the finders in their order.
pub open spec fn extracted(
    nodes: Seq<DomNode>,
    ops: Seq<OperationModel>,
    table: Seq<Seq<bool>>,
    i: int,
) -> Seq<Seq<char>>
    decreases nodes.len() - i,
{
    if 0 <= i < nodes.len() {
        node_values(nodes, i, ops, table, 0) + extracted(nodes, ops, table, i + 1)
    } else {
        Seq::empty()
    }
}

pub open spec fn operations_of(finders: Seq<Finder>) -> Seq<OperationModel> {
    finders.map_values(|f: Finder| f.operation_view())
}

pub open spec fn operations_in(fs: Seq<(Seq<char>, OperationModel)>) -> Seq<OperationModel> {
    fs.map_values(|f: (Seq<char>, OperationModel)| f.1)
}

pub open spec fn strings_of(v: Seq<String>) -> Seq<Seq<char>> {
    v.map_values(|s: String| s@)
}

pub open spec fn rows_of(table: Seq<Vec<bool>>) -> Seq<Seq<bool>> {
    table.map_values(|row: Vec<bool>| row@)
}

proof fn lemma_unflagged_node(
    nodes: Seq<DomNode>,
    ops: Seq<OperationModel>,
    table: Seq<Seq<bool>>,
    i: int,
    f: int,
)
    requires
        0 <= f,
        forall|g: int| 0 <= g < ops.len() ==> !flagged(table, g, i),
    ensures
        node_values(nodes, i, ops, table, f) == Seq::<Seq<char>>::empty(),
    decreases ops.len() - f,
{
    if f < ops.len() {
        lemma_unflagged_node(nodes, ops, table, i, f + 1);
        assert(node_values(nodes, i, ops, table, f) =~= Seq::<Seq<char>>::empty());
    }
}

proof fn lemma_unflagged_run(
    nodes: Seq<DomNode>,
    ops: Seq<OperationModel>,
    table: Seq<Seq<bool>>,
    i: int,
    k: int,
)
    requires
        0 <= i <= k <= nodes.len(),
        forall|g: int, j: int| 0 <= g < ops.len() && i <= j < k ==> !flagged(table, g, j),
    ensures
        extracted(nodes, ops, table, i) == extracted(nodes, ops, table, k),
    decreases k - i,
{
    if i < k {
        lemma_unflagged_run(nodes, ops, table, i + 1, k);
        lemma_unflagged_node(nodes, ops, table, i, 0);
        assert(extracted(nodes, ops, table, i) =~= extracted(nodes, ops, table, i + 1));
    }
}

/// When two elements are matched by both of two finders and nothing else
/// is matched, the values come element by element: the two finders' values
/// for the first element, in finder order, then those for the second.
pub proof fn lemma_values_grouped_by_element(
    nodes: Seq<DomNode>,
    ops: Seq<OperationModel>,
    table: Seq<Seq<bool>>,
    e1: int,
    e2: int,
    a1: Seq<char>,
    b1: Seq<char>,
    a2: Seq<char>,
    b2: Seq<char>,
)
    requires
        ops.len() == 2,
        0 <= e1 < e2 < nodes.len(),
        forall|f: int, j: int|
            0 <= f < 2 && 0 <= j < nodes.len() ==> (flagged(table, f, j) <==> (j == e1 || j
                == e2)),
        apply_operation(nodes, e1, ops[0]) == Some(a1),
        apply_operation(nodes, e1, ops[1]) == Some(b1),
        apply_operation(nodes, e2, ops[0]) == Some(a2),
        apply_operation(nodes, e2, ops[1]) == Some(b2),
    ensures
        extracted(nodes, ops, table, 0) == seq![a1, b1, a2, b2],
{
    lemma_unflagged_run(nodes, ops, table, 0, e1);
    lemma_unflagged_run(nodes, ops, table, e1 + 1, e2);
    lemma_unflagged_run(nodes, ops, table, e2 + 1, nodes.len() as int);
    assert(extracted(nodes, ops, table, nodes.len() as int) == Seq::<Seq<char>>::empty());
    assert(node_values(nodes, e1, ops, table, 2) == Seq::<Seq<char>>::empty());
    assert(node_values(nodes, e2, ops, table, 2) == Seq::<Seq<char>>::empty());
    assert(flagged(table, 0, e1) && flagged(table, 1, e1));
    assert(flagged(table, 0, e2) && flagged(table, 1, e2));
    assert(node_values(nodes, e1, ops, table, 1) =~= seq![b1]);
    assert(node_values(nodes, e2, ops, table, 1) =~= seq![b2]);
    assert(node_values(nodes, e1, ops, table, 0) =~= seq![a1, b1]);
    assert(node_values(nodes, e2, ops, table, 0) =~= seq![a2, b2]);
    assert(extracted(nodes, ops, table, e2) =~= seq![a2, b2]);
    assert(extracted(nodes, ops, table, e1) =~= seq![a1, b1, a2, b2]);
}

/// For each finder, whether its selector matches each node of the document
/// parsed from `text`.
pub open spec fn hits_of(finders: Seq<Finder>, text: Seq<char>) -> Seq<Seq<bool>> {
    finders.map_values(|f: Finder| selector_hits(f.source_view(), text))
}

/// For each finder given as selector text and operation, whether its
/// selector matches each node of the document parsed from `text`.
pub open spec fn hits_in(fs: Seq<(Seq<char>, OperationModel)>, text: Seq<char>) -> Seq<Seq<bool>> {
    fs.map_values(|f: (Seq<char>, OperationModel)| selector_hits(f.0, text))
}

/// The text of node `i`'s descendants.
fn text_of(nodes: &Vec<DomNode>, i: usize) -> (r: String)
    requires
        i < nodes@.len(),
    ensures
        r@ == text_content(nodes@, i as int),
{
    let stop = subtree_end_of(nodes, i);
    let mut out: Vec<char> = Vec::new();
    let mut j: usize = i + 1;
    while j < stop
        invariant
            i < j <= stop <= nodes@.len(),
            stop == subtree_end(nodes@, i as int),
            out@ + text_from(nodes@, j as int, stop as int) == text_content(nodes@, i as int),
        decreases stop - j,
    {
        let ghost before = out@;
        let ghost rest = text_from(nodes@, j + 1, stop as int);
        match &nodes[j].kind {
            NodeKind::Text(t) => {
                let mut part = chars_of(t.as_str());
                out.append(&mut part);
                assert(before + (t@ + rest) =~= out@ + rest);
            },
            _ => {
                assert(before + (Seq::<char>::empty() + rest) =~= out@ + rest);
            },
        }
        j = j + 1;
    }
    assert(out@ + Seq::<char>::empty() =~= out@);
    string_of(&out)
}

/// The value of the first attribute of `attrs` named `name`.
fn find_attr(attrs: &Vec<(String, String)>, name: &String) -> (r: Option<String>)
    ensures
        match attr_value(attrs@, name@) {
            Some(v) => r matches Some(s) && s@ == v,
            None => r is None,
        },
{
    let mut k: usize = 0;
    assert(attrs@.skip(0) =~= attrs@);
    while k < attrs.len()
        invariant
            k <= attrs@.len(),
            attr_value(attrs@, name@) == attr_value(attrs@.skip(k as int), name@),
        decreases attrs@.len() - k,
    {
        assert(attrs@.skip(k as int).drop_first() =~= attrs@.skip(k + 1));
        assert(attrs@.skip(k as int)[0] == attrs@[k as int]);
        if attrs[k].0 == *name {
            return Some(attrs[k].1.clone());
        }
        k = k + 1;
    }
    None
}

/// What `op` yields on node `i`.
fn apply(nodes: &Vec<DomNode>, i: usize, op: &Operation) -> (r: Option<String>)
    requires
        i < nodes@.len(),
    ensures
        match apply_operation(nodes@, i as int, op@) {
            Some(v) => r matches Some(s) && s@ == v,
            None => r is None,
        },
{
    // a vector's length fits in usize, which bounds the printer's levels
    let _count = nodes.len();
    match &nodes[i].kind {
        NodeKind::Element(e) => match op {
            Operation::Text => Some(text_of(nodes, i)),
            Operation::Html => Some(print_tree(nodes, i, 0)),
            Operation::Attr(name) => find_attr(&e.attrs, name),
        },
        _ => None,
    }
}

/// The values that `finders` yield on `nodes`, where `table[f][i]` says
/// whether finder `f` matches node `i`: nodes in document order, and for
/// each node the finders in the order they were declared.
pub fn extract_values(nodes: &Vec<DomNode>, finders: &Vec<Finder>, table: &Vec<Vec<bool>>) -> (r: Vec<
    String,
>)
    ensures
        strings_of(r@) == extracted(nodes@, operations_of(finders@), rows_of(table@), 0),
{
    let ghost ops = operations_of(finders@);
    let ghost rows = rows_of(table@);
    let mut out: Vec<String> = Vec::new();
    let mut i: usize = 0;
    while i < nodes.len()
        invariant
            i <= nodes@.len(),
            ops == operations_of(finders@),
            rows == rows_of(table@),
            strings_of(out@) + extracted(nodes@, ops, rows, i as int) == extracted(nodes@, ops, rows, 0),
        decreases nodes@.len() - i,
    {
        let ghost at_node = strings_of(out@);
        let mut f: usize = 0;
        while f < finders.len()
            invariant
                i < nodes@.len(),
                f <= finders@.len(),
                ops == operations_of(finders@),
                rows == rows_of(table@),
                strings_of(out@) + node_values(nodes@, i as int, ops, rows, f as int) == at_node
                    + node_values(nodes@, i as int, ops, rows, 0),
            decreases finders@.len() - f,
        {
            let ghost before = strings_of(out@);
            let ghost rest = node_values(nodes@, i as int, ops, rows, f + 1);
            let hit = f < table.len() && i < table[f].len() && table[f][i];
            assert(hit == flagged(rows, f as int, i as int));
            if hit {
                match apply(nodes, i, finders[f].operation()) {
                    Some(v) => {
                        let ghost vv = v@;
                        out.push(v);
                        assert(strings_of(out@) =~= before.push(vv));
                        assert(before + (seq![vv] + rest) =~= before.push(vv) + rest);
                    },
                    None => {
                        assert(before + (Seq::<Seq<char>>::empty() + rest) =~= before + rest);
                    },
                }
            } else {
                assert(before + (Seq::<Seq<char>>::empty() + rest) =~= before + rest);
            }
            f = f + 1;
        }
        assert(strings_of(out@) + Seq::<Seq<char>>::empty() =~= strings_of(out@));
        let ghost rest = extracted(nodes@, ops, rows, i + 1);
        assert(at_node + (node_values(nodes@, i as int, ops, rows, 0) + rest) =~= (at_node
            + node_values(nodes@, i as int, ops, rows, 0)) + rest);
        i = i + 1;
    }
    assert(strings_of(out@) + Seq::<Seq<char>>::empty() =~= strings_of(out@));
    out
}

/// The values that `finders` yield on `document`, element by element in
/// document order, and for each element finder by finder.
pub fn select_all(document: &Document, finders: &Vec<Finder>) -> (r: Vec<String>)
    ensures
        strings_of(r@) == extracted(
            document.nodes_view(),
            operations_of(finders@),
            hits_of(finders@, document.text_view()),
            0,
        ),
{
    let mut table: Vec<Vec<bool>> = Vec::new();
    let mut f: usize = 0;
    while f < finders.len()
        invariant
            f <= finders@.len(),
            rows_of(table@) =~= hits_of(finders@, document.text_view()).take(f as int),
        decreases finders@.len() - f,
    {
        let ghost hits = hits_of(finders@, document.text_view());
        let ghost before = rows_of(table@);
        let row = document.matches(&finders[f]);
        let ghost rv = row@;
        table.push(row);
        assert(rows_of(table@) =~= before.push(rv));
        assert(hits.take(f + 1) =~= hits.take(f as int).push(hits[f as int]));
        f = f + 1;
    }
    assert(hits_of(finders@, document.text_view()).take(f as int) =~= hits_of(
        finders@,
        document.text_view(),
    ));
    extract_values(document.nodes(), finders, &table)
}

/// A directive string and the text of a document.
pub struct Inputs {
    pub selector: String,
    pub html: String,
}

/// Applies the directive of `inputs` to its document: the directive's error,
/// or the values extracted from the document parsed from the text, element
/// by element and finder by finder.
pub fn parse(inputs: Inputs) -> (r: Result<Vec<String>, String>)
    ensures
        parsed_directives(inputs.selector@) matches Err(m) ==> r matches Err(e) && e@ == m,
        parsed_directives(inputs.selector@) matches Ok(fs) ==> r matches Ok(values)
            && strings_of(values@) == extracted(
            document_nodes(inputs.html@),
            operations_in(fs),
            hits_in(fs, inputs.html@),
            0,
        ),
{
    match parse_directives(inputs.selector.as_str()) {
        Err(e) => Err(e),
        Ok(finders) => {
            let document = Document::parse(inputs.html.as_str());
            let values = select_all(&document, &finders);
            let ghost fsm = finders@.map_values(|f: Finder| f.model());
            assert(operations_of(finders@) =~= operations_in(fsm));
            assert(hits_of(finders@, inputs.html@) =~= hits_in(fsm, inputs.html@));
            Ok(values)
        },
    }
}

} // verus!
