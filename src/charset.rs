//! Choosing how to decode a document's bytes: a lossy UTF-8 reading first,
//! then the charset that a `<meta charset=...>` tag near the start declares.
use vstd::prelude::*;
use crate::text::{is_space, leading_space, count_leading_space, chars_of, string_of};
use crate::directive::space_end;

verus! {

/// How many characters of the first reading are searched for a charset.
pub const SCAN_LIMIT: usize = 1024;

/// What `String::from_utf8_lossy` makes of `b`.
pub uninterp spec fn utf8_lossy(b: Seq<u8>) -> Seq<char>;

/// What `encoding_rs` makes of `b` with the encoding that `label` names, if
/// the label names one.
pub uninterp spec fn decoded_with_label(label: Seq<char>, b: Seq<u8>) -> Option<Seq<char>>;

/// Relies on `String::from_utf8_lossy`: decoding never fails, and the result
/// depends on the bytes alone.
#[verifier::external_body]
fn lossy_utf8(b: &[u8]) -> (r: String)
    ensures
        r@ == utf8_lossy(b@),
{
    String::from_utf8_lossy(b).into_owned()
}

/// Relies on `encoding_rs::Encoding::for_label`, which looks a label up in
/// the registry of the Encoding Standard, and on `Encoding::decode`, which
/// decodes the whole buffer with the encoding found. Both depend on their
/// arguments alone.
#[verifier::external_body]
fn decode_labelled(label: &str, b: &[u8]) -> (r: Option<String>)
    ensures
        match r {
            Some(t) => decoded_with_label(label@, b@) == Some(t@),
            None => decoded_with_label(label@, b@) is None,
        },
{
    encoding_rs::Encoding::for_label(label.as_bytes()).map(|e| e.decode(b).0.into_owned())
}

/// `c` equals `w` when ASCII letters are compared without case (`w` is
/// written in lower case).
pub open spec fn same_letter(c: char, w: char) -> bool {
    c == w || ('a' <= w && w <= 'z' && c as u32 + 32 == w as u32)
}

/// Whether `w` occurs in `s` at `i`, ASCII letters compared without case.
pub open spec fn has_at_nocase(s: Seq<char>, i: int, w: Seq<char>) -> bool {
    &&& 0 <= i
    &&& i + w.len() <= s.len()
    &&& forall|k: int| 0 <= k < w.len() ==> same_letter(s[i + k], #[trigger] w[k])
}

pub open spec fn meta_mark() -> Seq<char> {
    seq!['<', 'm', 'e', 't', 'a']
}

pub open spec fn charset_mark() -> Seq<char> {
    seq!['c', 'h', 'a', 'r', 's', 'e', 't', '=']
}

pub open spec fn is_quote(c: char) -> bool {
    c == '"' || c == '\''
}

/// The first position at or after `i` that holds a quote, or the length.
pub open spec fn quote_from(s: Seq<char>, i: int) -> int
    decreases s.len() - i,
{
    if i < 0 || i >= s.len() {
        s.len() as int
    } else if is_quote(s[i]) {
        i
    } else {
        quote_from(s, i + 1)
    }
}

/// The label of a tag `<meta charset="LABEL"` (or with single quotes) that
/// starts at `i`: `<meta` and `charset=` in any case, white space between
/// them, a non-empty label of characters other than quotes.
pub open spec fn charset_at(s: Seq<char>, i: int) -> Option<Seq<char>> {
    if has_at_nocase(s, i, meta_mark()) {
        let w = space_end(s, i + 5);
        if w > i + 5 && has_at_nocase(s, w, charset_mark()) && w + 8 < s.len() && is_quote(
            s[w + 8],
        ) {
            let r = quote_from(s, w + 9);
            if w + 9 < r < s.len() {
                Some(s.subrange(w + 9, r))
            } else {
                None
            }
        } else {
            None
        }
    } else {
        None
    }
}

/// The label of the first charset tag that starts at or after `i`.
pub open spec fn charset_from(s: Seq<char>, i: int) -> Option<Seq<char>>
    decreases s.len() - i,
{
    if i < 0 || i >= s.len() {
        None
    } else {
        match charset_at(s, i) {
            Some(label) => Some(label),
            None => charset_from(s, i + 1),
        }
    }
}

/// The first `SCAN_LIMIT` characters of `text`, or all of them.
pub open spec fn scanned_prefix(text: Seq<char>) -> Seq<char> {
    if text.len() <= SCAN_LIMIT {
        text
    } else {
        text.take(SCAN_LIMIT as int)
    }
}

/// The charset that `text` declares within its scanned prefix.
pub open spec fn declared_charset(text: Seq<char>) -> Option<Seq<char>> {
    charset_from(scanned_prefix(text), 0)
}

/// The text a document's bytes stand for: the lossy UTF-8 reading, unless
/// that reading declares a charset the registry knows, in which case the
/// whole buffer decoded with that charset.
pub open spec fn resolved_text(b: Seq<u8>) -> Seq<char> {
    let first = utf8_lossy(b);
    match declared_charset(first) {
        Some(label) => match decoded_with_label(label, b) {
            Some(t) => t,
            None => first,
        },
        None => first,
    }
}

proof fn lemma_leading_space_exact(y: Seq<char>, n: int)
    requires
        0 <= n < y.len(),
        forall|j: int| 0 <= j < n ==> is_space(#[trigger] y[j]),
        !is_space(y[n]),
    ensures
        leading_space(y) == n,
    decreases n,
{
    if n > 0 {
        assert forall|j: int| 0 <= j < n - 1 implies is_space(#[trigger] y.drop_first()[j]) by {
            assert(y.drop_first()[j] == y[j + 1]);
        }
        lemma_leading_space_exact(y.drop_first(), n - 1);
        assert(is_space(y[0]));
    }
}

proof fn lemma_quote_run(s: Seq<char>, i: int, r: int)
    requires
        0 <= i <= r < s.len(),
        forall|j: int| i <= j < r ==> !is_quote(#[trigger] s[j]),
        is_quote(s[r]),
    ensures
        quote_from(s, i) == r,
    decreases r - i,
{
    if i < r {
        lemma_quote_run(s, i + 1, r);
    }
}

proof fn lemma_quote_from_bounds(s: Seq<char>, i: int)
    requires
        0 <= i <= s.len(),
    ensures
        i <= quote_from(s, i) <= s.len(),
        forall|j: int| i <= j < quote_from(s, i) ==> !is_quote(#[trigger] s[j]),
        quote_from(s, i) < s.len() ==> is_quote(s[quote_from(s, i)]),
    decreases s.len() - i,
{
    if i < s.len() && !is_quote(s[i]) {
        lemma_quote_from_bounds(s, i + 1);
    }
}

/// A tag found in the first `n` characters of `x` is found, the same, in `x`.
proof fn lemma_charset_in_prefix(x: Seq<char>, n: int, i: int)
    requires
        0 <= i < n <= x.len(),
    ensures
        charset_at(x.take(n), i) matches Some(label) ==> charset_at(x, i) == Some(label),
{
    let p = x.take(n);
    if let Some(label) = charset_at(p, i) {
        assert(meta_mark().len() == 5 && charset_mark().len() == 8);
        assert(has_at_nocase(x, i, meta_mark())) by {
            assert forall|k: int| 0 <= k < 5 implies same_letter(x[i + k], #[trigger] meta_mark()[k]) by {
                assert(p[i + k] == x[i + k]);
            }
        }
        let yp = p.subrange(i + 5, n);
        let yx = x.subrange(i + 5, x.len() as int);
        let l = leading_space(yp) as int;
        let w = i + 5 + l;
        crate::text::lemma_leading_space_bound(yp);
        assert(w < n);
        assert forall|j: int| 0 <= j < l implies is_space(#[trigger] yx[j]) by {
            assert(yx[j] == yp[j]);
        }
        assert(yx[l] == yp[l]);
        lemma_leading_space_exact(yx, l);
        assert(space_end(x, i + 5) == w);
        assert(has_at_nocase(x, w, charset_mark())) by {
            assert forall|k: int| 0 <= k < 8 implies same_letter(x[w + k], #[trigger] charset_mark()[k]) by {
                assert(p[w + k] == x[w + k]);
            }
        }
        assert(p[w + 8] == x[w + 8]);
        let r = quote_from(p, w + 9);
        lemma_quote_from_bounds(p, w + 9);
        assert(forall|j: int| w + 9 <= j < r ==> #[trigger] x[j] == p[j]);
        assert(x[r] == p[r]);
        lemma_quote_run(x, w + 9, r);
        assert(p.subrange(w + 9, r) =~= x.subrange(w + 9, r));
    }
}

proof fn lemma_no_charset_from(x: Seq<char>, n: int, i: int)
    requires
        0 <= i,
        n == scanned_prefix(x).len(),
        forall|j: int| 0 <= j < SCAN_LIMIT ==> #[trigger] charset_at(x, j) is None,
    ensures
        charset_from(scanned_prefix(x), i) is None,
    decreases n - i,
{
    let p = scanned_prefix(x);
    if i < n {
        if x.len() <= SCAN_LIMIT {
            assert(charset_at(x, i) is None);
        } else {
            lemma_charset_in_prefix(x, SCAN_LIMIT as int, i);
            assert(charset_at(x, i) is None);
        }
        lemma_no_charset_from(x, n, i + 1);
    }
}

/// A charset tag is only honoured where it starts within the first
/// `SCAN_LIMIT` characters of the lossy reading: where none starts there,
/// the text is the lossy reading, whatever tags come later.
pub proof fn lemma_late_charset_ignored(b: Seq<u8>)
    requires
        forall|j: int| 0 <= j < SCAN_LIMIT ==> #[trigger] charset_at(utf8_lossy(b), j) is None,
    ensures
        resolved_text(b) == utf8_lossy(b),
{
    let x = utf8_lossy(b);
    lemma_no_charset_from(x, scanned_prefix(x).len() as int, 0);
}

fn word_at_nocase(s: &Vec<char>, i: usize, w: &Vec<char>) -> (r: bool)
    ensures
        r == has_at_nocase(s@, i as int, w@),
{
    let len = s.len();
    if i > len || w.len() > len - i {
        return false;
    }
    let mut k: usize = 0;
    while k < w.len()
        invariant
            len == s@.len(),
            i + w@.len() <= s@.len(),
            k <= w@.len(),
            forall|m: int| 0 <= m < k ==> same_letter(s@[i + m], #[trigger] w@[m]),
        decreases w@.len() - k,
    {
        let c = s[i + k];
        let d = w[k];
        if !(c == d || ('a' <= d && d <= 'z' && (d as u32) >= 32 && (c as u32) == (d as u32) - 32)) {
            return false;
        }
        k = k + 1;
    }
    true
}

fn find_quote(s: &Vec<char>, i: usize) -> (r: usize)
    requires
        i <= s@.len(),
    ensures
        r == quote_from(s@, i as int),
        i <= r <= s@.len(),
{
    let mut j: usize = i;
    while j < s.len() && s[j] != '"' && s[j] != '\''
        invariant
            i <= j <= s@.len(),
            quote_from(s@, i as int) == quote_from(s@, j as int),
        decreases s@.len() - j,
    {
        j = j + 1;
    }
    j
}

fn charset_found(s: &Vec<char>, i: usize) -> (r: Option<Vec<char>>)
    requires
        i < s@.len(),
    ensures
        match charset_at(s@, i as int) {
            Some(label) => r matches Some(v) && v@ == label,
            None => r is None,
        },
{
    let len = s.len();
    let meta_w = vec!['<', 'm', 'e', 't', 'a'];
    let charset_w = vec!['c', 'h', 'a', 'r', 's', 'e', 't', '='];
    assert(meta_w@ =~= meta_mark());
    assert(charset_w@ =~= charset_mark());
    if !word_at_nocase(s, i, &meta_w) {
        return None;
    }
    let w = count_leading_space(s, i + 5);
    if !(w > i + 5 && word_at_nocase(s, w, &charset_w) && w + 8 < len) {
        return None;
    }
    if s[w + 8] != '"' && s[w + 8] != '\'' {
        return None;
    }
    let r = find_quote(s, w + 9);
    if !(w + 9 < r && r < len) {
        return None;
    }
    let mut label: Vec<char> = Vec::new();
    let mut k: usize = w + 9;
    while k < r
        invariant
            w + 9 <= k <= r <= s@.len(),
            label@ =~= s@.subrange(w + 9, k as int),
        decreases r - k,
    {
        label.push(s[k]);
        k = k + 1;
    }
    Some(label)
}

/// The label of the first `<meta charset=...>` tag within the first
/// `SCAN_LIMIT` characters of `text`.
pub fn meta_charset(text: &str) -> (r: Option<String>)
    ensures
        match declared_charset(text@) {
            Some(label) => r matches Some(l) && l@ == label,
            None => r is None,
        },
{
    let all = chars_of(text);
    let mut s: Vec<char> = Vec::new();
    let mut k: usize = 0;
    while k < all.len() && k < SCAN_LIMIT
        invariant
            k <= all@.len(),
            k <= SCAN_LIMIT,
            s@ =~= all@.take(k as int),
        decreases all@.len() - k,
    {
        s.push(all[k]);
        k = k + 1;
    }
    assert(s@ =~= scanned_prefix(text@));
    let mut i: usize = 0;
    while i < s.len()
        invariant
            i <= s@.len(),
            s@ == scanned_prefix(text@),
            charset_from(s@, 0) == charset_from(s@, i as int),
        decreases s@.len() - i,
    {
        match charset_found(&s, i) {
            Some(label) => {
                assert(charset_from(s@, i as int) == Some(label@));
                return Some(string_of(&label));
            },
            None => {
                assert(charset_from(s@, i as int) == charset_from(s@, i + 1));
            },
        }
        i = i + 1;
    }
    None
}

/// The text of a document given as bytes: the lossy UTF-8 reading, or, where
/// that reading declares a known charset near its start, the whole buffer
/// decoded again with that charset.
pub fn decode_html(bytes: &[u8]) -> (r: String)
    ensures
        r@ == resolved_text(bytes@),
{
    let first = lossy_utf8(bytes);
    match meta_charset(first.as_str()) {
        Some(label) => match decode_labelled(label.as_str(), bytes) {
            Some(t) => t,
            None => first,
        },
        None => first,
    }
}

} // verus!
