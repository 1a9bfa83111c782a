//! Comparisons of texts by their characters.
//!
//! Texts are compared character by character on their Unicode scalar values. On UTF-8 encoded
//! strings this order is the order of their bytes, which is how Rust orders `str`.
use vstd::prelude::*;

verus! {

/// Whether `a` comes strictly before `b` in lexicographic order of scalar values.
pub open spec fn lex_lt(a: Seq<char>, b: Seq<char>) -> bool
    decreases a.len(),
{
    if a.len() == 0 {
        b.len() > 0
    } else if b.len() == 0 {
        false
    } else if a[0] != b[0] {
        (a[0] as int) < (b[0] as int)
    } else {
        lex_lt(a.drop_first(), b.drop_first())
    }
}

/// The order is irreflexive.
pub proof fn lemma_lex_lt_irreflexive(a: Seq<char>)
    ensures
        !lex_lt(a, a),
    decreases a.len(),
{
    if a.len() > 0 {
        lemma_lex_lt_irreflexive(a.drop_first());
    }
}

/// The order is transitive.
pub proof fn lemma_lex_lt_transitive(a: Seq<char>, b: Seq<char>, c: Seq<char>)
    requires
        lex_lt(a, b),
        lex_lt(b, c),
    ensures
        lex_lt(a, c),
    decreases a.len(),
{
    if a.len() > 0 && b.len() > 0 && c.len() > 0 && a[0] == b[0] && b[0] == c[0] {
        lemma_lex_lt_transitive(a.drop_first(), b.drop_first(), c.drop_first());
    }
}

/// Any two different texts are ordered one way or the other.
pub proof fn lemma_lex_lt_total(a: Seq<char>, b: Seq<char>)
    requires
        a != b,
    ensures
        lex_lt(a, b) || lex_lt(b, a),
    decreases a.len(),
{
    if a.len() == 0 {
        assert(b.len() > 0) by {
            if b.len() == 0 {
                assert(a =~= b);
            }
        }
    } else if b.len() == 0 {
    } else if a[0] != b[0] {
        assert((a[0] as int) != (b[0] as int));
    } else {
        if a.drop_first() == b.drop_first() {
            assert(a =~= seq![a[0]] + a.drop_first());
            assert(b =~= seq![b[0]] + b.drop_first());
        }
        lemma_lex_lt_total(a.drop_first(), b.drop_first());
    }
}

/// Whether two texts hold the same characters.
pub fn text_eq(a: &str, b: &str) -> (r: bool)
    ensures
        r == (a@ == b@),
{
    let n = a.unicode_len();
    if n != b.unicode_len() {
        return false;
    }
    let mut i: usize = 0;
    while i < n
        invariant
            n == a@.len(),
            n == b@.len(),
            i <= n,
            forall|k: int| 0 <= k < i ==> a@[k] == b@[k],
        decreases n - i,
    {
        if a.get_char(i) != b.get_char(i) {
            return false;
        }
        i = i + 1;
    }
    assert(a@ =~= b@);
    true
}

/// Whether `a` comes strictly before `b` (see [`lex_lt`]).
pub fn text_lt(a: &str, b: &str) -> (r: bool)
    ensures
        r == lex_lt(a@, b@),
{
    let n = a.unicode_len();
    let m = b.unicode_len();
    let mut i: usize = 0;
    assert(a@.skip(0) =~= a@);
    assert(b@.skip(0) =~= b@);
    while i < n && i < m && a.get_char(i) == b.get_char(i)
        invariant
            n == a@.len(),
            m == b@.len(),
            i <= n,
            i <= m,
            lex_lt(a@, b@) == lex_lt(a@.skip(i as int), b@.skip(i as int)),
        decreases n - i,
    {
        proof {
            let sa = a@.skip(i as int);
            let sb = b@.skip(i as int);
            assert(sa.drop_first() =~= a@.skip(i + 1));
            assert(sb.drop_first() =~= b@.skip(i + 1));
        }
        i = i + 1;
    }
    if i == n {
        i < m
    } else if i == m {
        false
    } else {
        let ca = a.get_char(i);
        let cb = b.get_char(i);
        assert(a@.skip(i as int)[0] == ca);
        assert(b@.skip(i as int)[0] == cb);
        (ca as u32) < (cb as u32)
    }
}

/// Calls std's `String::from_iter` on the characters: the text made of them, in order (vstd
/// specifies no way to build a `String` from characters).
#[verifier::external_body]
pub(crate) fn string_from_chars(chars: &[char]) -> (r: String)
    ensures
        r@ == chars@,
{
    String::from_iter(chars.iter())
}

/// The characters of a text.
pub fn chars_of(text: &str) -> (r: Vec<char>)
    ensures
        r@ == text@,
{
    let n = text.unicode_len();
    let mut r: Vec<char> = Vec::new();
    let mut i: usize = 0;
    while i < n
        invariant
            n == text@.len(),
            i <= n,
            r@ == text@.take(i as int),
        decreases n - i,
    {
        r.push(text.get_char(i));
        assert(r@ =~= text@.take(i + 1));
        i = i + 1;
    }
    assert(text@.take(n as int) =~= text@);
    r
}

/// The texts of `parts` joined by `sep`.
pub open spec fn join_with(parts: Seq<Seq<char>>, sep: Seq<char>) -> Seq<char>
    decreases parts.len(),
{
    if parts.len() == 0 {
        Seq::empty()
    } else if parts.len() == 1 {
        parts[0]
    } else {
        join_with(parts.drop_last(), sep) + sep + parts.last()
    }
}

/// The characters of every text of a list.
pub open spec fn texts(parts: Seq<String>) -> Seq<Seq<char>> {
    parts.map_values(|s: String| s@)
}

/// Joins texts with a separator.
pub fn join_texts(parts: &[String], sep: &str) -> (r: String)
    ensures
        r@ == join_with(texts(parts@), sep@),
{
    let mut r = String::new();
    let mut i: usize = 0;
    while i < parts.len()
        invariant
            i <= parts@.len(),
            r@ == join_with(texts(parts@.take(i as int)), sep@),
        decreases parts@.len() - i,
    {
        proof {
            assert(texts(parts@.take(i + 1)).drop_last() =~= texts(parts@.take(i as int)));
        }
        if i > 0 {
            r.append(sep);
        } else {
            assert(texts(parts@.take(1)) =~= seq![parts@[0]@]);
        }
        r.append(parts[i].as_str());
        i = i + 1;
    }
    assert(parts@.take(parts@.len() as int) =~= parts@);
    r
}

/// Whether `needle` occurs in `text`.
pub open spec fn occurs_in(needle: Seq<char>, text: Seq<char>) -> bool {
    exists|i: int| 0 <= i <= text.len() - needle.len() && #[trigger] text.subrange(i, i + needle.len()) == needle
}

/// Whether `text` holds `://`, the mark of a URL scheme.
pub fn holds_scheme_mark(text: &str) -> (r: bool)
    ensures
        r == occurs_in(seq![':', '/', '/'], text@),
{
    let c = chars_of(text);
    let n = c.len();
    if n < 3 {
        assert forall|i: int| 0 <= i <= n - 3 implies #[trigger] text@.subrange(i, i + 3) != seq![':', '/', '/'] by {}
        return false;
    }
    let mut i: usize = 0;
    while i <= n - 3
        invariant
            c@ == text@,
            n == c@.len(),
            n >= 3,
            i <= n - 2,
            forall|k: int| 0 <= k < i ==> #[trigger] text@.subrange(k, k + 3) != seq![':', '/', '/'],
        decreases n - i,
    {
        if c[i] == ':' && c[i + 1] == '/' && c[i + 2] == '/' {
            assert(text@.subrange(i as int, i + 3) =~= seq![':', '/', '/']);
            return true;
        }
        proof {
            if text@.subrange(i as int, i + 3) == seq![':', '/', '/'] {
                assert(text@.subrange(i as int, i + 3)[0] == c@[i as int]);
                assert(text@.subrange(i as int, i + 3)[1] == c@[i + 1]);
                assert(text@.subrange(i as int, i + 3)[2] == c@[i + 2]);
            }
        }
        i = i + 1;
    }
    false
}

} // verus!
