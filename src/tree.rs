//! The tree printer: an element and its descendants as indented markup,
//! two spaces per level.
use vstd::prelude::*;
use crate::text::{
    has_content, is_space, is_space_char, leading_space, trimmed, without_leading,
    count_leading_space, trim_chars, chars_of, string_of,
};
use crate::dom::{DomNode, NodeKind, subtree_end, subtree_end_of, lemma_subtree_end_bounds};

verus! {

/// Spaces for one level of nesting.
pub const SPACES_PER_LEVEL: usize = 2;

/// The indentation of nesting level `level`.
pub open spec fn indent(level: nat) -> Seq<char> {
    Seq::new(SPACES_PER_LEVEL as nat * level, |k: int| ' ')
}

/// The closing tag of an element named `name`.
pub open spec fn closing(name: Seq<char>) -> Seq<char> {
    seq!['<', '/'] + name + seq!['>']
}

/// The elements that never have children, and are printed on one line.
pub open spec fn void_names() -> Seq<Seq<char>> {
    seq![
        seq!['a', 'r', 'e', 'a'],
        seq!['b', 'a', 's', 'e'],
        seq!['b', 'r'],
        seq!['c', 'o', 'l'],
        seq!['c', 'o', 'm', 'm', 'a', 'n', 'd'],
        seq!['e', 'm', 'b', 'e', 'd'],
        seq!['h', 'r'],
        seq!['i', 'm', 'g'],
        seq!['i', 'n', 'p', 'u', 't'],
        seq!['k', 'e', 'y', 'g', 'e', 'n'],
        seq!['l', 'i', 'n', 'k'],
        seq!['m', 'e', 't', 'a'],
        seq!['p', 'a', 'r', 'a', 'm'],
        seq!['s', 'o', 'u', 'r', 'c', 'e'],
        seq!['t', 'r', 'a', 'c', 'k'],
        seq!['w', 'b', 'r'],
    ]
}

pub open spec fn is_void(name: Seq<char>) -> bool {
    void_names().contains(name)
}

pub open spec fn script_name() -> Seq<char> {
    seq!['s', 'c', 'r', 'i', 'p', 't']
}

/// The lines of `t[..n]` that are complete, and the line being read.
pub open spec fn split_upto(t: Seq<char>, n: int) -> (Seq<Seq<char>>, Seq<char>)
    decreases n,
{
    if n <= 0 {
        (Seq::empty(), Seq::empty())
    } else {
        let (done, cur) = split_upto(t, n - 1);
        if t[n - 1] == '\n' {
            (done.push(cur), Seq::empty())
        } else {
            (done, cur.push(t[n - 1]))
        }
    }
}

/// The lines of `t`, split at each `\n`.
pub open spec fn lines(t: Seq<char>) -> Seq<Seq<char>> {
    let (done, cur) = split_upto(t, t.len() as int);
    done.push(cur)
}

/// The lines of `ls` that hold something other than white space.
pub open spec fn code_lines(ls: Seq<Seq<char>>) -> Seq<Seq<char>>
    decreases ls.len(),
{
    if ls.len() == 0 {
        Seq::empty()
    } else {
        let kept = code_lines(ls.drop_last());
        if has_content(ls.last()) {
            kept.push(ls.last())
        } else {
            kept
        }
    }
}

/// The lines of script text `t` placed at nesting level `level`: the blank
/// lines dropped, each line stripped of as much leading white space as the
/// first line has (no more than it has itself), then indented.
pub open spec fn script_lines(t: Seq<char>, level: nat) -> Seq<Seq<char>> {
    let code = code_lines(lines(t));
    let w = leading_space(code[0]);
    Seq::new(code.len(), |k: int| indent(level) + without_leading(code[k], w))
}

/// The lines `ls` joined by `\n`.
pub open spec fn joined(ls: Seq<Seq<char>>) -> Seq<char>
    decreases ls.len(),
{
    if ls.len() == 0 {
        Seq::empty()
    } else if ls.len() == 1 {
        ls[0]
    } else {
        joined(ls.drop_last()) + seq!['\n'] + ls.last()
    }
}

/// How node `c` is printed as a child of an element named `parent` that is
/// printed at level `level`.
pub open spec fn child_out(nodes: Seq<DomNode>, c: int, level: nat, parent: Seq<char>) -> Seq<
    char,
>
    decreases nodes.len() - c, 1int,
{
    if 0 <= c < nodes.len() {
        match nodes[c].kind {
            NodeKind::Comment(t) => seq!['\n'] + indent(level + 1) + seq!['<', '!', '-', '-', ' ']
                + trimmed(t@) + seq![' ', '-', '-', '>'],
            NodeKind::Element(_) => seq!['\n'] + render(nodes, c, level + 1),
            NodeKind::Text(t) => if !has_content(t@) {
                Seq::empty()
            } else if parent == script_name() {
                seq!['\n'] + joined(script_lines(t@, level + 1))
            } else {
                seq!['\n'] + indent(level + 1) + t@
            },
            NodeKind::Other => Seq::empty(),
        }
    } else {
        Seq::empty()
    }
}

/// The children of an element named `parent` printed at level `level`: the
/// nodes from `c` up to `stop`, each followed by its descendants.
pub open spec fn children_out(
    nodes: Seq<DomNode>,
    c: int,
    stop: int,
    level: nat,
    parent: Seq<char>,
) -> Seq<char>
    decreases nodes.len() - c, 2int,
{
    if 0 <= c < stop && stop <= nodes.len() {
        let next = subtree_end(nodes, c);
        if c < next <= nodes.len() {
            child_out(nodes, c, level, parent) + children_out(nodes, next, stop, level, parent)
        } else {
            Seq::empty()
        }
    } else {
        Seq::empty()
    }
}

/// Node `i` printed at level `level`: nothing for a node that is not an
/// element; the opening tag and its closing tag on one line for a void
/// element; else the opening tag, the children one level deeper, and the
/// closing tag on a line of its own.
pub open spec fn render(nodes: Seq<DomNode>, i: int, level: nat) -> Seq<char>
    decreases nodes.len() - i, 0int,
{
    if 0 <= i < nodes.len() {
        match nodes[i].kind {
            NodeKind::Element(e) => if is_void(e.name@) {
                indent(level) + e.tag@ + closing(e.name@)
            } else {
                indent(level) + e.tag@ + children_out(
                    nodes,
                    i + 1,
                    subtree_end(nodes, i),
                    level,
                    e.name@,
                ) + seq!['\n'] + indent(level) + closing(e.name@)
            },
            _ => Seq::empty(),
        }
    } else {
        Seq::empty()
    }
}

/// A void element is printed as its opening tag and its closing tag alone:
/// the nodes after it play no part, and the line holds no line break unless
/// the tag or the name does.
pub proof fn lemma_void_element_one_line(
    nodes: Seq<DomNode>,
    other: Seq<DomNode>,
    i: int,
    level: nat,
)
    requires
        0 <= i < nodes.len(),
        i < other.len(),
        other[i] == nodes[i],
        nodes[i].kind matches NodeKind::Element(e) && is_void(e.name@),
    ensures
        nodes[i].kind matches NodeKind::Element(e) && render(nodes, i, level) == indent(level)
            + e.tag@ + closing(e.name@) && (!e.tag@.contains('\n') && !e.name@.contains('\n')
            ==> !render(nodes, i, level).contains('\n')),
        render(other, i, level) == render(nodes, i, level),
{
    if let NodeKind::Element(e) = nodes[i].kind {
        let r = render(nodes, i, level);
        if !e.tag@.contains('\n') && !e.name@.contains('\n') {
            assert forall|k: int| 0 <= k < r.len() implies r[k] != '\n' by {
                let a = indent(level).len() as int;
                let b = a + e.tag@.len();
                if k < a {
                } else if k < b {
                    assert(r[k] == e.tag@[k - a]);
                } else if k < b + 2 {
                } else if k < b + 2 + e.name@.len() {
                    assert(r[k] == e.name@[k - b - 2]);
                }
            }
        }
    }
}

/// An element whose only child is a text node of white space alone is
/// printed as its opening tag and its closing tag, with no line between.
pub proof fn lemma_blank_text_child_skipped(nodes: Seq<DomNode>, i: int, level: nat)
    requires
        0 <= i,
        i + 1 < nodes.len(),
        subtree_end(nodes, i) == i + 2,
        nodes[i].kind matches NodeKind::Element(e) && !is_void(e.name@),
        nodes[i + 1].kind matches NodeKind::Text(t) && !has_content(t@),
    ensures
        nodes[i].kind matches NodeKind::Element(e) && render(nodes, i, level) == indent(level)
            + e.tag@ + seq!['\n'] + indent(level) + closing(e.name@),
{
    if let NodeKind::Element(e) = nodes[i].kind {
        lemma_subtree_end_bounds(nodes, i + 1);
        let next = subtree_end(nodes, i + 1);
        assert(children_out(nodes, next, i + 2, level, e.name@) == Seq::<char>::empty());
        assert(child_out(nodes, i + 1, level, e.name@) == Seq::<char>::empty());
        assert(children_out(nodes, i + 1, i + 2, level, e.name@) =~= Seq::<char>::empty());
        assert(indent(level) + e.tag@ + Seq::<char>::empty() =~= indent(level) + e.tag@);
    }
}

proof fn lemma_code_lines_have_content(ls: Seq<Seq<char>>)
    ensures
        forall|i: int|
            0 <= i < code_lines(ls).len() ==> has_content(#[trigger] code_lines(ls)[i]),
    decreases ls.len(),
{
    if ls.len() > 0 {
        lemma_code_lines_have_content(ls.drop_last());
        let kept = code_lines(ls.drop_last());
        if has_content(ls.last()) {
            assert forall|i: int|
                0 <= i < code_lines(ls).len() implies has_content(#[trigger] code_lines(ls)[i]) by {
                if i < kept.len() {
                    assert(code_lines(ls)[i] == kept[i]);
                }
            }
        }
    }
}

/// Re-indenting script text loses its own baseline: at level 0 the first
/// line starts with a character that is not white space.
pub proof fn lemma_script_baseline_removed(t: Seq<char>)
    requires
        script_lines(t, 0).len() > 0,
    ensures
        script_lines(t, 0)[0].len() > 0,
        !is_space(script_lines(t, 0)[0][0]),
{
    let code = code_lines(lines(t));
    lemma_code_lines_have_content(lines(t));
    assert(has_content(code[0]));
    let i = choose|i: int| 0 <= i < code[0].len() && !is_space(#[trigger] code[0][i]);
    crate::text::lemma_leading_space_bound(code[0]);
    let w = leading_space(code[0]);
    assert(script_lines(t, 0)[0] =~= code[0].subrange(w as int, code[0].len() as int));
}

/// Re-indenting script text for another level moves every line by the same
/// amount: at each level a line is that level's indentation followed by the
/// same text, so the lines keep their offsets from one another.
pub proof fn lemma_script_shift(t: Seq<char>, level: nat)
    ensures
        script_lines(t, level).len() == script_lines(t, 0).len(),
        forall|k: int|
            0 <= k < script_lines(t, 0).len() ==> #[trigger] script_lines(t, level)[k] == indent(
                level,
            ) + script_lines(t, 0)[k],
{
    let code = code_lines(lines(t));
    let w = leading_space(code[0]);
    assert forall|k: int|
        0 <= k < script_lines(t, 0).len() implies #[trigger] script_lines(t, level)[k] == indent(
        level,
    ) + script_lines(t, 0)[k] by {
        assert(indent(0) + without_leading(code[k], w) =~= without_leading(code[k], w));
    }
}

/// `x` with `pad` put after each of its line breaks.
pub open spec fn pad_lines(x: Seq<char>, pad: Seq<char>) -> Seq<char>
    decreases x.len(),
{
    if x.len() == 0 {
        Seq::empty()
    } else {
        let head = if x[0] == '\n' {
            seq!['\n'] + pad
        } else {
            seq![x[0]]
        };
        head + pad_lines(x.drop_first(), pad)
    }
}

proof fn lemma_pad_concat(x: Seq<char>, y: Seq<char>, pad: Seq<char>)
    ensures
        pad_lines(x + y, pad) == pad_lines(x, pad) + pad_lines(y, pad),
    decreases x.len(),
{
    if x.len() == 0 {
        assert(x + y =~= y);
    } else {
        lemma_pad_concat(x.drop_first(), y, pad);
        assert((x + y).drop_first() =~= x.drop_first() + y);
        assert((x + y)[0] == x[0]);
    }
}

proof fn lemma_pad_no_break(x: Seq<char>, pad: Seq<char>)
    requires
        !x.contains('\n'),
    ensures
        pad_lines(x, pad) == x,
    decreases x.len(),
{
    if x.len() > 0 {
        assert(!x.drop_first().contains('\n')) by {
            if x.drop_first().contains('\n') {
                let j = choose|j: int| 0 <= j < x.drop_first().len() && x.drop_first()[j] == '\n';
                assert(x[j + 1] == '\n');
            }
        }
        lemma_pad_no_break(x.drop_first(), pad);
        assert(x[0] != '\n');
        assert(seq![x[0]] + x.drop_first() =~= x);
    }
}

proof fn lemma_split_no_break(t: Seq<char>, n: int)
    requires
        0 <= n <= t.len(),
    ensures
        forall|k: int|
            0 <= k < split_upto(t, n).0.len() ==> !(#[trigger] split_upto(t, n).0[k]).contains('\n'),
        !split_upto(t, n).1.contains('\n'),
        (exists|j: int| 0 <= j < n && !is_space(#[trigger] t[j])) ==> has_content(split_upto(t, n).1)
            || exists|k: int|
            0 <= k < split_upto(t, n).0.len() && has_content(#[trigger] split_upto(t, n).0[k]),
    decreases n,
{
    if n > 0 {
        lemma_split_no_break(t, n - 1);
        let (done, cur) = split_upto(t, n - 1);
        if t[n - 1] == '\n' {
            assert forall|k: int| 0 <= k < done.push(cur).len() implies !(#[trigger] done.push(
                cur,
            )[k]).contains('\n') by {
                if k < done.len() {
                    assert(done.push(cur)[k] == done[k]);
                }
            }
            if exists|j: int| 0 <= j < n && !is_space(#[trigger] t[j]) {
                let j = choose|j: int| 0 <= j < n && !is_space(#[trigger] t[j]);
                assert(j < n - 1);
                if has_content(cur) {
                    assert(done.push(cur)[done.len() as int] == cur);
                } else {
                    let k = choose|k: int| 0 <= k < done.len() && has_content(#[trigger] done[k]);
                    assert(done.push(cur)[k] == done[k]);
                }
            }
        } else {
            let c2 = cur.push(t[n - 1]);
            assert(!c2.contains('\n')) by {
                if c2.contains('\n') {
                    let j = choose|j: int| 0 <= j < c2.len() && c2[j] == '\n';
                    if j < cur.len() {
                        assert(c2[j] == cur[j]);
                    }
                }
            }
            if exists|j: int| 0 <= j < n && !is_space(#[trigger] t[j]) {
                let j = choose|j: int| 0 <= j < n && !is_space(#[trigger] t[j]);
                if j == n - 1 {
                    assert(c2[cur.len() as int] == t[n - 1]);
                } else if has_content(cur) {
                    let m = choose|m: int| 0 <= m < cur.len() && !is_space(#[trigger] cur[m]);
                    assert(c2[m] == cur[m]);
                }
            }
        }
    }
}

proof fn lemma_code_lines_props(ls: Seq<Seq<char>>)
    ensures
        (forall|k: int| 0 <= k < ls.len() ==> !(#[trigger] ls[k]).contains('\n')) ==> forall|k: int|
            0 <= k < code_lines(ls).len() ==> !(#[trigger] code_lines(ls)[k]).contains('\n'),
        (exists|k: int| 0 <= k < ls.len() && has_content(#[trigger] ls[k])) ==> code_lines(
            ls,
        ).len() > 0,
    decreases ls.len(),
{
    if ls.len() > 0 {
        let init = ls.drop_last();
        lemma_code_lines_props(init);
        if forall|k: int| 0 <= k < ls.len() ==> !(#[trigger] ls[k]).contains('\n') {
            assert forall|k: int| 0 <= k < init.len() implies !(#[trigger] init[k]).contains('\n') by {
                assert(init[k] == ls[k]);
            }
            let kept = code_lines(init);
            assert forall|k: int|
                0 <= k < code_lines(ls).len() implies !(#[trigger] code_lines(ls)[k]).contains(
                '\n',
            ) by {
                if k < kept.len() {
                    assert(code_lines(ls)[k] == kept[k]);
                }
            }
        }
        if exists|k: int| 0 <= k < ls.len() && has_content(#[trigger] ls[k]) {
            let k = choose|k: int| 0 <= k < ls.len() && has_content(#[trigger] ls[k]);
            if k < ls.len() - 1 {
                assert(init[k] == ls[k]);
            }
        }
    }
}

/// The lines of the script block of text `t` with content: none holds a
/// line break, and there is at least one.
proof fn lemma_script_lines_props(t: Seq<char>, level: nat)
    requires
        has_content(t),
    ensures
        script_lines(t, level).len() > 0,
        forall|k: int|
            0 <= k < script_lines(t, level).len() ==> !(#[trigger] script_lines(t, level)[k]).contains(
                '\n',
            ),
{
    let (done, cur) = split_upto(t, t.len() as int);
    lemma_split_no_break(t, t.len() as int);
    let ls = lines(t);
    assert forall|k: int| 0 <= k < ls.len() implies !(#[trigger] ls[k]).contains('\n') by {
        if k < done.len() {
            assert(ls[k] == done[k]);
        }
    }
    if has_content(cur) {
        assert(ls[done.len() as int] == cur);
    } else {
        let k = choose|k: int| 0 <= k < done.len() && has_content(#[trigger] done[k]);
        assert(ls[k] == done[k]);
    }
    lemma_code_lines_props(ls);
    let code = code_lines(ls);
    let w = leading_space(code[0]);
    assert forall|k: int|
        0 <= k < script_lines(t, level).len() implies !(#[trigger] script_lines(t, level)[k]).contains(
        '\n',
    ) by {
        let x = script_lines(t, level)[k];
        let c = code[k];
        if x.contains('\n') {
            let j = choose|j: int| 0 <= j < x.len() && x[j] == '\n';
            let a = indent(level).len() as int;
            if j >= a {
                let k0 = (if w < leading_space(c) { w } else { leading_space(c) }) as int;
                crate::text::lemma_leading_space_bound(c);
                assert(x[j] == c[k0 + j - a]);
            }
        }
    }
}

/// `pad` before the lines `ls` joined, with `pad` after each line break, is
/// the lines each behind `pad`, joined.
proof fn lemma_pad_joined(ls: Seq<Seq<char>>, pad: Seq<char>)
    requires
        ls.len() > 0,
        forall|k: int| 0 <= k < ls.len() ==> !(#[trigger] ls[k]).contains('\n'),
    ensures
        pad + pad_lines(joined(ls), pad) == joined(Seq::new(ls.len(), |k: int| pad + ls[k])),
    decreases ls.len(),
{
    let padded = Seq::new(ls.len(), |k: int| pad + ls[k]);
    lemma_pad_no_break(ls.last(), pad);
    if ls.len() == 1 {
        lemma_pad_no_break(ls[0], pad);
    } else {
        let init = ls.drop_last();
        assert forall|k: int| 0 <= k < init.len() implies !(#[trigger] init[k]).contains('\n') by {
            assert(init[k] == ls[k]);
        }
        lemma_pad_joined(init, pad);
        assert(padded.drop_last() =~= Seq::new(init.len(), |k: int| pad + init[k]));
        lemma_pad_concat(joined(init) + seq!['\n'], ls.last(), pad);
        lemma_pad_concat(joined(init), seq!['\n'], pad);
        let nl = seq!['\n'];
        assert(pad_lines(nl, pad) =~= seq!['\n'] + pad) by {
            assert(nl[0] == '\n');
            assert(nl.drop_first() =~= Seq::<char>::empty());
            assert(pad_lines(nl.drop_first(), pad) == Seq::<char>::empty());
            assert(pad_lines(nl, pad) == (seq!['\n'] + pad) + pad_lines(nl.drop_first(), pad));
        }
        assert(pad + (pad_lines(joined(init), pad) + (seq!['\n'] + pad) + ls.last()) =~= (pad
            + pad_lines(joined(init), pad)) + seq!['\n'] + (pad + ls.last()));
    }
}

proof fn lemma_pad_newline(x: Seq<char>, pad: Seq<char>)
    ensures
        pad_lines(seq!['\n'] + x, pad) == seq!['\n'] + pad + pad_lines(x, pad),
{
    let nl = seq!['\n'];
    assert(nl[0] == '\n');
    assert(nl.drop_first() =~= Seq::<char>::empty());
    assert(pad_lines(nl.drop_first(), pad) == Seq::<char>::empty());
    assert(pad_lines(nl, pad) =~= seq!['\n'] + pad);
    lemma_pad_concat(nl, x, pad);
}

proof fn lemma_script_child_shift(nodes: Seq<DomNode>, c: int, level: nat)
    requires
        0 <= c < nodes.len(),
        nodes[c].kind is Text,
    ensures
        pad_lines(child_out(nodes, c, 0, script_name()), indent(level)) == child_out(
            nodes,
            c,
            level,
            script_name(),
        ),
{
    if let NodeKind::Text(t) = nodes[c].kind {
        let pad = indent(level);
        if has_content(t@) {
            let ls1 = script_lines(t@, 1);
            lemma_script_lines_props(t@, 1);
            lemma_pad_joined(ls1, pad);
            lemma_script_shift(t@, 1);
            lemma_script_shift(t@, level + 1);
            let ls0 = script_lines(t@, 0);
            let lsl = script_lines(t@, level + 1);
            assert(indent(level + 1) =~= pad + indent(1));
            let padded = Seq::new(ls1.len(), |k: int| pad + ls1[k]);
            assert forall|k: int| 0 <= k < ls1.len() implies #[trigger] padded[k] == lsl[k] by {
                assert(ls1[k] == indent(1) + ls0[k]);
                assert(lsl[k] == indent(level + 1) + ls0[k]);
                assert(pad + (indent(1) + ls0[k]) =~= (pad + indent(1)) + ls0[k]);
            }
            assert(padded =~= lsl);
            lemma_pad_newline(joined(ls1), pad);
            assert(seq!['\n'] + pad + pad_lines(joined(ls1), pad) =~= seq!['\n'] + (pad + pad_lines(
                joined(ls1),
                pad,
            )));
        } else {
            assert(pad_lines(Seq::<char>::empty(), pad) == Seq::<char>::empty());
        }
    }
}

proof fn lemma_script_children_shift(nodes: Seq<DomNode>, c: int, stop: int, level: nat)
    requires
        0 <= c,
        stop <= nodes.len(),
        forall|j: int| c <= j < stop ==> #[trigger] nodes[j].kind is Text,
    ensures
        pad_lines(children_out(nodes, c, stop, 0, script_name()), indent(level)) == children_out(
            nodes,
            c,
            stop,
            level,
            script_name(),
        ),
    decreases nodes.len() - c,
{
    let pad = indent(level);
    if 0 <= c < stop && stop <= nodes.len() {
        let next = subtree_end(nodes, c);
        lemma_subtree_end_bounds(nodes, c);
        lemma_script_children_shift(nodes, next, stop, level);
        lemma_script_child_shift(nodes, c, level);
        lemma_pad_concat(
            child_out(nodes, c, 0, script_name()),
            children_out(nodes, next, stop, 0, script_name()),
            pad,
        );
    } else {
        assert(pad_lines(Seq::<char>::empty(), pad) == Seq::<char>::empty());
    }
}

/// A script element whose descendants are all text is printed at any
/// level exactly as at level 0, with every line, code and tags alike,
/// moved right by that level's indentation.
pub proof fn lemma_script_element_shift(nodes: Seq<DomNode>, i: int, level: nat)
    requires
        0 <= i < nodes.len(),
        nodes[i].kind matches NodeKind::Element(e) && e.name@ == script_name() && !e.tag@.contains(
            '\n',
        ),
        forall|j: int| i < j < subtree_end(nodes, i) ==> #[trigger] nodes[j].kind is Text,
    ensures
        render(nodes, i, level) == indent(level) + pad_lines(render(nodes, i, 0), indent(level)),
{
    if let NodeKind::Element(e) = nodes[i].kind {
        let pad = indent(level);
        let end = subtree_end(nodes, i);
        lemma_subtree_end_bounds(nodes, i);
        assert(!is_void(script_name())) by {
            if is_void(script_name()) {
                let k = choose|k: int| 0 <= k < void_names().len() && void_names()[k] == script_name();
                assert(void_names()[k][0] == 's');
                assert(void_names()[k].len() == 6);
                assert(void_names()[k][1] == 'c');
            }
        }
        let co0 = children_out(nodes, i + 1, end, 0, script_name());
        let cl = closing(script_name());
        lemma_script_children_shift(nodes, i + 1, end, level);
        assert(!cl.contains('\n')) by {
            if cl.contains('\n') {
                let j = choose|j: int| 0 <= j < cl.len() && cl[j] == '\n';
                assert(cl =~= seq!['<', '/', 's', 'c', 'r', 'i', 'p', 't', '>']);
            }
        }
        lemma_pad_no_break(e.tag@, pad);
        lemma_pad_no_break(cl, pad);
        assert(indent(0) =~= Seq::<char>::empty());
        let r0 = render(nodes, i, 0);
        assert(r0 =~= e.tag@ + co0 + (seq!['\n'] + cl));
        lemma_pad_concat(e.tag@ + co0, seq!['\n'] + cl, pad);
        lemma_pad_concat(e.tag@, co0, pad);
        lemma_pad_newline(cl, pad);
        assert(render(nodes, i, level) =~= pad + (e.tag@ + pad_lines(co0, pad) + (seq!['\n'] + pad
            + cl)));
    }
}

fn append_chars(out: &mut Vec<char>, s: &Vec<char>)
    ensures
        final(out)@ == old(out)@ + s@,
{
    let ghost start = out@;
    let mut k: usize = 0;
    while k < s.len()
        invariant
            k <= s@.len(),
            out@ =~= start + s@.take(k as int),
        decreases s@.len() - k,
    {
        out.push(s[k]);
        k = k + 1;
    }
    assert(s@.take(s@.len() as int) =~= s@);
}

fn append_str(out: &mut Vec<char>, s: &str)
    ensures
        final(out)@ == old(out)@ + s@,
{
    let v = chars_of(s);
    append_chars(out, &v);
}

fn append_indent(out: &mut Vec<char>, level: usize)
    ensures
        final(out)@ == old(out)@ + indent(level as nat),
{
    let ghost start = out@;
    let mut k: usize = 0;
    while k < level
        invariant
            k <= level,
            out@ =~= start + indent(k as nat),
        decreases level - k,
    {
        out.push(' ');
        out.push(' ');
        k = k + 1;
    }
}

fn append_closing(out: &mut Vec<char>, name: &Vec<char>)
    ensures
        final(out)@ == old(out)@ + closing(name@),
{
    let ghost start = out@;
    out.push('<');
    out.push('/');
    append_chars(out, name);
    out.push('>');
    assert(out@ =~= start + closing(name@));
}

fn same_chars(a: &Vec<char>, b: &Vec<char>) -> (r: bool)
    ensures
        r == (a@ == b@),
{
    if a.len() != b.len() {
        return false;
    }
    let mut k: usize = 0;
    while k < a.len()
        invariant
            a@.len() == b@.len(),
            k <= a@.len(),
            forall|m: int| 0 <= m < k ==> a@[m] == b@[m],
        decreases a@.len() - k,
    {
        if a[k] != b[k] {
            return false;
        }
        k = k + 1;
    }
    assert(a@ =~= b@);
    true
}

fn is_void_name(name: &Vec<char>) -> (r: bool)
    ensures
        r == is_void(name@),
{
    let names = vec![
        vec!['a', 'r', 'e', 'a'],
        vec!['b', 'a', 's', 'e'],
        vec!['b', 'r'],
        vec!['c', 'o', 'l'],
        vec!['c', 'o', 'm', 'm', 'a', 'n', 'd'],
        vec!['e', 'm', 'b', 'e', 'd'],
        vec!['h', 'r'],
        vec!['i', 'm', 'g'],
        vec!['i', 'n', 'p', 'u', 't'],
        vec!['k', 'e', 'y', 'g', 'e', 'n'],
        vec!['l', 'i', 'n', 'k'],
        vec!['m', 'e', 't', 'a'],
        vec!['p', 'a', 'r', 'a', 'm'],
        vec!['s', 'o', 'u', 'r', 'c', 'e'],
        vec!['t', 'r', 'a', 'c', 'k'],
        vec!['w', 'b', 'r'],
    ];
    assert(names@.map_values(|v: Vec<char>| v@) =~= void_names());
    let mut k: usize = 0;
    while k < names.len()
        invariant
            k <= names@.len(),
            names@.map_values(|v: Vec<char>| v@) == void_names(),
            forall|m: int| 0 <= m < k ==> void_names()[m] != name@,
        decreases names@.len() - k,
    {
        if same_chars(&names[k], name) {
            assert(void_names()[k as int] == name@);
            return true;
        }
        k = k + 1;
    }
    false
}

fn is_script_name(name: &Vec<char>) -> (r: bool)
    ensures
        r == (name@ == script_name()),
{
    let s = vec!['s', 'c', 'r', 'i', 'p', 't'];
    assert(s@ =~= script_name());
    same_chars(&s, name)
}

/// Whether some character of `s` is not white space.
fn has_content_chars(s: &Vec<char>) -> (r: bool)
    ensures
        r == has_content(s@),
{
    let mut i: usize = 0;
    while i < s.len()
        invariant
            i <= s@.len(),
            forall|j: int| 0 <= j < i ==> is_space(#[trigger] s@[j]),
        decreases s@.len() - i,
    {
        if !is_space_char(s[i]) {
            return true;
        }
        i = i + 1;
    }
    false
}

/// Whether `s` holds a character that is not white space.
pub fn is_present(s: &str) -> (r: bool)
    ensures
        r == has_content(s@),
{
    has_content_chars(&chars_of(s))
}

/// `s` without at most `n` of its leading white-space characters.
fn strip_leading(s: &Vec<char>, n: usize) -> (r: Vec<char>)
    ensures
        r@ == without_leading(s@, n as nat),
{
    let k = count_leading_space(s, 0);
    assert(s@.subrange(0, s@.len() as int) =~= s@);
    let k = if n < k { n } else { k };
    let mut r: Vec<char> = Vec::new();
    let mut i: usize = k;
    while i < s.len()
        invariant
            k <= i <= s@.len(),
            r@ =~= s@.subrange(k as int, i as int),
        decreases s@.len() - i,
    {
        r.push(s[i]);
        i = i + 1;
    }
    r
}

/// `s` with at most `n` of its leading white-space characters removed.
pub fn trim_start_n(s: &str, n: usize) -> (r: String)
    ensures
        r@ == without_leading(s@, n as nat),
{
    let v = chars_of(s);
    string_of(&strip_leading(&v, n))
}

/// The indentation of nesting level `level`.
pub fn indentation(level: usize) -> (r: String)
    ensures
        r@ == indent(level as nat),
{
    let mut out: Vec<char> = Vec::new();
    append_indent(&mut out, level);
    assert(out@ =~= indent(level as nat));
    string_of(&out)
}

/// The lines of `t` that hold something other than white space.
fn code_lines_of(t: &Vec<char>) -> (r: Vec<Vec<char>>)
    ensures
        r@.map_values(|v: Vec<char>| v@) == code_lines(lines(t@)),
{
    let mut code: Vec<Vec<char>> = Vec::new();
    let mut cur: Vec<char> = Vec::new();
    let mut n: usize = 0;
    while n < t.len()
        invariant
            n <= t@.len(),
            split_upto(t@, n as int).1 == cur@,
            code@.map_values(|v: Vec<char>| v@) == code_lines(split_upto(t@, n as int).0),
        decreases t@.len() - n,
    {
        let ghost done = split_upto(t@, n as int).0;
        if t[n] == '\n' {
            let ghost c = cur@;
            assert(done.push(c).drop_last() =~= done);
            let ghost before = code@.map_values(|v: Vec<char>| v@);
            if has_content_chars(&cur) {
                code.push(cur);
                assert(code@.map_values(|v: Vec<char>| v@) =~= before.push(c));
            }
            cur = Vec::new();
        } else {
            cur.push(t[n]);
        }
        n = n + 1;
    }
    let ghost done = split_upto(t@, t@.len() as int).0;
    let ghost c = cur@;
    assert(done.push(c).drop_last() =~= done);
    let ghost before = code@.map_values(|v: Vec<char>| v@);
    if has_content_chars(&cur) {
        code.push(cur);
        assert(code@.map_values(|v: Vec<char>| v@) =~= before.push(c));
    }
    code
}

proof fn lemma_joined_take(ls: Seq<Seq<char>>, k: int)
    requires
        0 <= k < ls.len(),
    ensures
        joined(ls.take(k + 1)) == if k == 0 {
            ls[0]
        } else {
            joined(ls.take(k)) + seq!['\n'] + ls[k]
        },
{
    if k > 0 {
        assert(ls.take(k + 1).drop_last() =~= ls.take(k));
    }
}

/// Appends the script text `t` re-indented for level `level`.
#[verifier::rlimit(40)]
fn append_script(out: &mut Vec<char>, t: &Vec<char>, level: usize)
    ensures
        final(out)@ == old(out)@ + joined(script_lines(t@, level as nat)),
{
    let code = code_lines_of(t);
    let ghost ls = script_lines(t@, level as nat);
    let ghost start = out@;
    let ghost cm = code@.map_values(|v: Vec<char>| v@);
    if code.len() == 0 {
        assert(ls =~= Seq::<Seq<char>>::empty());
        assert(out@ =~= start + joined(ls));
        return;
    }
    let w = count_leading_space(&code[0], 0);
    assert(code[0]@.subrange(0, code[0]@.len() as int) =~= code[0]@);
    assert(cm[0] == code[0]@);
    let mut k: usize = 0;
    while k < code.len()
        invariant
            k <= code@.len(),
            cm == code@.map_values(|v: Vec<char>| v@),
            cm == code_lines(lines(t@)),
            w == leading_space(cm[0]),
            ls == script_lines(t@, level as nat),
            ls.len() == code@.len(),
            out@ == start + joined(ls.take(k as int)),
        decreases code@.len() - k,
    {
        proof {
            lemma_joined_take(ls, k as int);
        }
        let ghost before = out@;
        if k > 0 {
            out.push('\n');
        }
        append_indent(out, level);
        let line = strip_leading(&code[k], w);
        append_chars(out, &line);
        assert(cm[k as int] == code[k as int]@);
        assert(ls[k as int] == indent(level as nat) + line@);
        if k > 0 {
            assert(out@ =~= before + seq!['\n'] + ls[k as int]);
        } else {
            assert(ls.take(0) =~= Seq::<Seq<char>>::empty());
            assert(out@ =~= before + ls[k as int]);
        }
        k = k + 1;
    }
    assert(ls.take(ls.len() as int) =~= ls);
}

/// Appends node `c` printed as a child of an element named `parent` that is
/// printed at level `level`.
fn append_child(nodes: &Vec<DomNode>, c: usize, level: usize, parent: &Vec<char>, out: &mut Vec<char>)
    requires
        c < nodes@.len(),
        level + 1 + (nodes@.len() - c) <= usize::MAX,
    ensures
        final(out)@ == old(out)@ + child_out(nodes@, c as int, level as nat, parent@),
    decreases nodes@.len() - c, 1int,
{
    let ghost start = out@;
    match &nodes[c].kind {
        NodeKind::Comment(t) => {
            let body = trim_chars(&chars_of(t.as_str()));
            out.push('\n');
            append_indent(out, level + 1);
            out.push('<');
            out.push('!');
            out.push('-');
            out.push('-');
            out.push(' ');
            append_chars(out, &body);
            out.push(' ');
            out.push('-');
            out.push('-');
            out.push('>');
            assert(out@ =~= start + child_out(nodes@, c as int, level as nat, parent@));
        },
        NodeKind::Element(_) => {
            out.push('\n');
            render_into(nodes, c, level + 1, out);
            assert(out@ =~= start + child_out(nodes@, c as int, level as nat, parent@));
        },
        NodeKind::Text(t) => {
            let tc = chars_of(t.as_str());
            if !has_content_chars(&tc) {
                assert(out@ =~= start + child_out(nodes@, c as int, level as nat, parent@));
            } else if is_script_name(parent) {
                out.push('\n');
                append_script(out, &tc, level + 1);
                assert(out@ =~= start + child_out(nodes@, c as int, level as nat, parent@));
            } else {
                out.push('\n');
                append_indent(out, level + 1);
                append_chars(out, &tc);
                assert(out@ =~= start + child_out(nodes@, c as int, level as nat, parent@));
            }
        },
        NodeKind::Other => {
            assert(out@ =~= start + child_out(nodes@, c as int, level as nat, parent@));
        },
    }
}

/// Appends the children from `c` up to `stop` of an element named `parent`
/// printed at level `level`.
fn append_children(
    nodes: &Vec<DomNode>,
    c: usize,
    stop: usize,
    level: usize,
    parent: &Vec<char>,
    out: &mut Vec<char>,
)
    requires
        c <= stop <= nodes@.len(),
        level + 1 + (nodes@.len() - c) <= usize::MAX,
    ensures
        final(out)@ == old(out)@ + children_out(nodes@, c as int, stop as int, level as nat, parent@),
    decreases nodes@.len() - c, 2int,
{
    let ghost start = out@;
    let mut cc: usize = c;
    while cc < stop
        invariant
            c <= cc <= nodes@.len(),
            stop <= nodes@.len(),
            level + 1 + (nodes@.len() - c) <= usize::MAX,
            start + children_out(nodes@, c as int, stop as int, level as nat, parent@) == out@
                + children_out(nodes@, cc as int, stop as int, level as nat, parent@),
        decreases nodes@.len() - cc,
    {
        let next = subtree_end_of(nodes, cc);
        let ghost before = out@;
        let ghost rest = children_out(nodes@, next as int, stop as int, level as nat, parent@);
        let ghost here = child_out(nodes@, cc as int, level as nat, parent@);
        assert(children_out(nodes@, cc as int, stop as int, level as nat, parent@) == here + rest);
        append_child(nodes, cc, level, parent, out);
        assert(before + (here + rest) =~= (before + here) + rest);
        cc = next;
    }
    assert(children_out(nodes@, cc as int, stop as int, level as nat, parent@) =~= Seq::<char>::empty());
    assert(out@ =~= out@ + Seq::<char>::empty());
}

/// Appends node `i` printed at level `level`.
fn render_into(nodes: &Vec<DomNode>, i: usize, level: usize, out: &mut Vec<char>)
    requires
        i < nodes@.len(),
        level + (nodes@.len() - i) <= usize::MAX,
    ensures
        final(out)@ == old(out)@ + render(nodes@, i as int, level as nat),
    decreases nodes@.len() - i, 0int,
{
    let ghost start = out@;
    match &nodes[i].kind {
        NodeKind::Element(e) => {
            let name = chars_of(e.name.as_str());
            append_indent(out, level);
            append_str(out, e.tag.as_str());
            if is_void_name(&name) {
                append_closing(out, &name);
                assert(out@ =~= start + render(nodes@, i as int, level as nat));
            } else {
                let end = subtree_end_of(nodes, i);
                append_children(nodes, i + 1, end, level, &name, out);
                out.push('\n');
                append_indent(out, level);
                append_closing(out, &name);
                assert(out@ =~= start + render(nodes@, i as int, level as nat));
            }
        },
        _ => {
            assert(out@ =~= start + render(nodes@, i as int, level as nat));
        },
    }
}

/// Node `i` of `nodes` and its descendants printed as indented markup,
/// starting at nesting level `indent_level`.
pub fn print_tree(nodes: &Vec<DomNode>, i: usize, indent_level: usize) -> (r: String)
    requires
        i < nodes@.len(),
        indent_level + (nodes@.len() - i) <= usize::MAX,
    ensures
        r@ == render(nodes@, i as int, indent_level as nat),
{
    let mut out: Vec<char> = Vec::new();
    render_into(nodes, i, indent_level, &mut out);
    assert(out@ =~= render(nodes@, i as int, indent_level as nat));
    string_of(&out)
}

} // verus!
