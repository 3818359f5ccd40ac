//! Character-level helpers shared by the parsers and the tree printer.
use vstd::prelude::*;

verus! {

/// The Unicode `White_Space` property, as used by `char::is_whitespace`.
pub open spec fn is_space(c: char) -> bool {
    ||| ('\u{9}' <= c && c <= '\u{d}')
    ||| c == ' '
    ||| c == '\u{85}'
    ||| c == '\u{a0}'
    ||| c == '\u{1680}'
    ||| ('\u{2000}' <= c && c <= '\u{200a}')
    ||| c == '\u{2028}'
    ||| c == '\u{2029}'
    ||| c == '\u{202f}'
    ||| c == '\u{205f}'
    ||| c == '\u{3000}'
}

pub fn is_space_char(c: char) -> (r: bool)
    ensures
        r == is_space(c),
{
    ('\u{9}' <= c && c <= '\u{d}') || c == ' ' || c == '\u{85}' || c == '\u{a0}' || c == '\u{1680}'
        || ('\u{2000}' <= c && c <= '\u{200a}') || c == '\u{2028}' || c == '\u{2029}' || c
        == '\u{202f}' || c == '\u{205f}' || c == '\u{3000}'
}

/// Whether some character of `s` is not white space.
pub open spec fn has_content(s: Seq<char>) -> bool {
    exists|i: int| 0 <= i < s.len() && !is_space(#[trigger] s[i])
}

/// The number of white-space characters at the start of `s`.
pub open spec fn leading_space(s: Seq<char>) -> nat
    decreases s.len(),
{
    if s.len() > 0 && is_space(s[0]) {
        1 + leading_space(s.drop_first())
    } else {
        0
    }
}

/// The number of white-space characters at the end of `s`.
pub open spec fn trailing_space(s: Seq<char>) -> nat
    decreases s.len(),
{
    if s.len() > 0 && is_space(s.last()) {
        1 + trailing_space(s.drop_last())
    } else {
        0
    }
}

/// `s` without its leading and trailing white space.
pub open spec fn trimmed(s: Seq<char>) -> Seq<char> {
    let a = leading_space(s) as int;
    let b = s.len() - trailing_space(s.subrange(a, s.len() as int)) as int;
    s.subrange(a, b)
}

/// `s` without at most `n` of its leading white-space characters.
pub open spec fn without_leading(s: Seq<char>, n: nat) -> Seq<char> {
    let k = if n < leading_space(s) { n } else { leading_space(s) };
    s.subrange(k as int, s.len() as int)
}

pub proof fn lemma_leading_space_bound(s: Seq<char>)
    ensures
        leading_space(s) <= s.len(),
        forall|i: int| 0 <= i < leading_space(s) ==> is_space(#[trigger] s[i]),
        leading_space(s) < s.len() ==> !is_space(s[leading_space(s) as int]),
    decreases s.len(),
{
    if s.len() > 0 && is_space(s[0]) {
        lemma_leading_space_bound(s.drop_first());
        assert forall|i: int| 0 <= i < leading_space(s) implies is_space(#[trigger] s[i]) by {
            if i > 0 {
                assert(s[i] == s.drop_first()[i - 1]);
            }
        }
    }
}

/// Text that holds a non-space character decides alone how much white
/// space starts any text it begins.
pub proof fn lemma_leading_space_prefix(x: Seq<char>, y: Seq<char>)
    requires
        has_content(x),
    ensures
        leading_space(x + y) == leading_space(x),
        leading_space(x) < x.len(),
    decreases x.len(),
{
    let i = choose|i: int| 0 <= i < x.len() && !is_space(#[trigger] x[i]);
    assert((x + y)[0] == x[0]);
    if is_space(x[0]) {
        assert(x.drop_first()[i - 1] == x[i]);
        lemma_leading_space_prefix(x.drop_first(), y);
        assert((x + y).drop_first() =~= x.drop_first() + y);
    }
}

proof fn lemma_leading_space_skip(x: Seq<char>, k: int)
    requires
        0 <= k <= leading_space(x),
    ensures
        leading_space(x.subrange(k, x.len() as int)) == leading_space(x) - k,
    decreases k,
{
    lemma_leading_space_bound(x);
    if k > 0 {
        lemma_leading_space_skip(x.drop_first(), k - 1);
        assert(x.drop_first().subrange(k - 1, x.drop_first().len() as int) =~= x.subrange(
            k,
            x.len() as int,
        ));
    } else {
        assert(x.subrange(0, x.len() as int) =~= x);
    }
}

proof fn lemma_trailing_space_le(s: Seq<char>)
    ensures
        trailing_space(s) <= s.len(),
    decreases s.len(),
{
    if s.len() > 0 && is_space(s.last()) {
        lemma_trailing_space_le(s.drop_last());
    }
}

/// Dropping some of its leading white space leaves the trimmed text as it is.
pub proof fn lemma_trimmed_skip(x: Seq<char>, k: int)
    requires
        0 <= k <= leading_space(x),
    ensures
        trimmed(x.subrange(k, x.len() as int)) == trimmed(x),
{
    lemma_leading_space_bound(x);
    lemma_leading_space_skip(x, k);
    let y = x.subrange(k, x.len() as int);
    let a = leading_space(x) as int;
    assert(y.subrange(a - k, y.len() as int) =~= x.subrange(a, x.len() as int));
    let t = trailing_space(x.subrange(a, x.len() as int)) as int;
    lemma_trailing_space_le(x.subrange(a, x.len() as int));
    assert(y.subrange(a - k, y.len() - t) =~= x.subrange(a, x.len() - t));
}

/// The number of white-space characters that start `s[from..]`.
pub(crate) fn count_leading_space(s: &Vec<char>, from: usize) -> (r: usize)
    requires
        from <= s@.len(),
    ensures
        r == from + leading_space(s@.subrange(from as int, s@.len() as int)),
        r <= s@.len(),
{
    let mut i: usize = from;
    while i < s.len() && is_space_char(s[i])
        invariant
            from <= i <= s@.len(),
            leading_space(s@.subrange(from as int, s@.len() as int)) == (i - from)
                + leading_space(s@.subrange(i as int, s@.len() as int)),
        decreases s@.len() - i,
    {
        let ghost t = s@.subrange(i as int, s@.len() as int);
        assert(t.drop_first() =~= s@.subrange(i + 1, s@.len() as int));
        i = i + 1;
    }
    i
}

/// `s` with its leading and trailing white space removed.
pub fn trim_chars(s: &Vec<char>) -> (r: Vec<char>)
    ensures
        r@ == trimmed(s@),
{
    let a = count_leading_space(s, 0);
    assert(s@.subrange(0, s@.len() as int) =~= s@);
    let ghost rest = s@.subrange(a as int, s@.len() as int);
    let mut b: usize = s.len();
    while b > a && is_space_char(s[b - 1])
        invariant
            a <= b <= s@.len(),
            trailing_space(rest) == (s@.len() - b) + trailing_space(s@.subrange(a as int, b as int)),
        decreases b,
    {
        assert(s@.subrange(a as int, b as int).drop_last() =~= s@.subrange(a as int, b - 1));
        b = b - 1;
    }
    let mut r: Vec<char> = Vec::new();
    let mut i: usize = a;
    while i < b
        invariant
            a <= i <= b <= s@.len(),
            r@ =~= s@.subrange(a as int, i as int),
        decreases b - i,
    {
        r.push(s[i]);
        i = i + 1;
    }
    r
}

/// Relies on `str::chars`: the characters of `s`, in order.
#[verifier::external_body]
pub(crate) fn chars_of(s: &str) -> (r: Vec<char>)
    ensures
        r@ == s@,
{
    s.chars().collect()
}

/// Relies on `String: FromIterator<char>`: the string made of `v`'s characters.
#[verifier::external_body]
pub(crate) fn string_of(v: &Vec<char>) -> (r: String)
    ensures
        r@ == v@,
{
    v.iter().collect()
}

} // verus!
