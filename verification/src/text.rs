//! Character-level text utilities: Unicode whitespace, trimming, words,
//! substring search, joining, lower-casing and lexicographic order.
//!
//! Strings are reasoned about through their views, sequences of `char`.

use vstd::prelude::*;
use vstd::string::StrSliceExecFns;

verus! {

/// The Unicode `White_Space` property, which `char::is_whitespace` tests.
pub open spec fn is_ws(c: char) -> bool {
    let n = c as u32;
    ||| 0x09 <= n <= 0x0d
    ||| n == 0x20
    ||| n == 0x85
    ||| n == 0xa0
    ||| n == 0x1680
    ||| 0x2000 <= n <= 0x200a
    ||| n == 0x2028
    ||| n == 0x2029
    ||| n == 0x202f
    ||| n == 0x205f
    ||| n == 0x3000
}

/// Whether `c` is a Unicode whitespace character.
pub fn is_whitespace(c: char) -> (r: bool)
    ensures
        r == is_ws(c),
{
    let n = c as u32;
    (0x09 <= n && n <= 0x0d) || n == 0x20 || n == 0x85 || n == 0xa0 || n == 0x1680 || (0x2000
        <= n && n <= 0x200a) || n == 0x2028 || n == 0x2029 || n == 0x202f || n == 0x205f || n
        == 0x3000
}

/// `s` without its leading and trailing whitespace.
pub open spec fn trim(s: Seq<char>) -> Seq<char>
    decreases s.len(),
{
    if s.len() > 0 && is_ws(s[0]) {
        trim(s.drop_first())
    } else if s.len() > 0 && is_ws(s.last()) {
        trim(s.drop_last())
    } else {
        s
    }
}

/// `s[i..j]` is a word of `s`: a maximal non-empty run of non-whitespace
/// characters, the pieces that `str::split_whitespace` yields.
pub open spec fn is_word(s: Seq<char>, i: int, j: int) -> bool {
    &&& 0 <= i < j <= s.len()
    &&& forall|k: int| i <= k < j ==> !is_ws(#[trigger] s[k])
    &&& i == 0 || is_ws(s[i - 1])
    &&& j == s.len() || is_ws(s[j])
}

/// `needle` occurs in `hay` at position `i`.
pub open spec fn occurs_at(hay: Seq<char>, needle: Seq<char>, i: int) -> bool {
    0 <= i && i + needle.len() <= hay.len() && hay.subrange(i, i + needle.len()) == needle
}

/// `needle` is a substring of `hay`, as `str::contains` with a `&str` tests.
pub open spec fn occurs(hay: Seq<char>, needle: Seq<char>) -> bool {
    exists|i: int| occurs_at(hay, needle, i)
}

/// The parts joined by `sep`, as `[String]::join` builds it.
pub open spec fn join(parts: Seq<Seq<char>>, sep: Seq<char>) -> Seq<char>
    decreases parts.len(),
{
    if parts.len() == 0 {
        Seq::empty()
    } else if parts.len() == 1 {
        parts[0]
    } else {
        join(parts.drop_last(), sep) + sep + parts.last()
    }
}

/// The view of an optional string.
pub open spec fn opt_view(o: Option<String>) -> Option<Seq<char>> {
    match o {
        Some(s) => Some(s@),
        None => None,
    }
}

/// The views of a sequence of strings.
pub open spec fn views(v: Seq<String>) -> Seq<Seq<char>> {
    v.map_values(|s: String| s@)
}

/// Strict lexicographic order by code point, the order of `str`'s `Ord`
/// (byte order of UTF-8 agrees with code point order).
pub open spec fn lex_lt(a: Seq<char>, b: Seq<char>) -> bool
    decreases a.len(),
{
    if b.len() == 0 {
        false
    } else if a.len() == 0 {
        true
    } else if a[0] != b[0] {
        (a[0] as int) < (b[0] as int)
    } else {
        lex_lt(a.drop_first(), b.drop_first())
    }
}

/// `a` comes no later than `b` in lexicographic order.
pub open spec fn lex_le(a: Seq<char>, b: Seq<char>) -> bool {
    !lex_lt(b, a)
}

pub proof fn lemma_lex_irreflexive(a: Seq<char>)
    ensures
        !lex_lt(a, a),
    decreases a.len(),
{
    if a.len() > 0 {
        lemma_lex_irreflexive(a.drop_first());
    }
}

pub proof fn lemma_lex_total(a: Seq<char>, b: Seq<char>)
    ensures
        a == b || lex_lt(a, b) || lex_lt(b, a),
    decreases a.len(),
{
    if a.len() > 0 && b.len() > 0 && a[0] == b[0] {
        lemma_lex_total(a.drop_first(), b.drop_first());
        if a.drop_first() == b.drop_first() {
            assert(a =~= seq![a[0]] + a.drop_first());
            assert(b =~= seq![b[0]] + b.drop_first());
        }
    } else if a.len() == 0 && b.len() == 0 {
        assert(a =~= b);
    } else if a.len() > 0 && b.len() > 0 {
        assert((a[0] as int) != (b[0] as int));
    }
}

pub proof fn lemma_lex_asymmetric(a: Seq<char>, b: Seq<char>)
    ensures
        !(lex_lt(a, b) && lex_lt(b, a)),
    decreases a.len(),
{
    if a.len() > 0 && b.len() > 0 && a[0] == b[0] {
        lemma_lex_asymmetric(a.drop_first(), b.drop_first());
    }
}

pub proof fn lemma_lex_transitive(a: Seq<char>, b: Seq<char>, c: Seq<char>)
    requires
        lex_lt(a, b),
        lex_lt(b, c),
    ensures
        lex_lt(a, c),
    decreases a.len(),
{
    if a.len() > 0 && a[0] == b[0] && b[0] == c[0] {
        lemma_lex_transitive(a.drop_first(), b.drop_first(), c.drop_first());
    }
}

/// The characters of `s`.
pub fn chars_of(s: &str) -> (v: Vec<char>)
    ensures
        v@ == s@,
{
    let n = s.unicode_len();
    let mut v: Vec<char> = Vec::new();
    let mut i: usize = 0;
    while i < n
        invariant
            n == s@.len(),
            i <= n,
            v@ == s@.take(i as int),
        decreases n - i,
    {
        let c = s.get_char(i);
        v.push(c);
        i = i + 1;
        assert(v@ =~= s@.take(i as int));
    }
    assert(v@ =~= s@);
    v
}

/// Appends one character to `s` (`String::push`).
#[verifier::external_body]
pub(crate) fn push_char(s: &mut String, c: char)
    ensures
        final(s)@ == old(s)@.push(c),
{
    s.push(c);
}

/// The bounds `(a, b)` with `trim(v) == v[a..b]`.
pub fn trim_bounds(v: &Vec<char>) -> (r: (usize, usize))
    ensures
        r.0 <= r.1 <= v.len(),
        trim(v@) == v@.subrange(r.0 as int, r.1 as int),
{
    let mut a: usize = 0;
    while a < v.len() && is_whitespace(v[a])
        invariant
            a <= v.len(),
            forall|k: int| 0 <= k < a ==> is_ws(v@[k]),
        decreases v.len() - a,
    {
        a = a + 1;
    }
    let mut b: usize = v.len();
    while b > a && is_whitespace(v[b - 1])
        invariant
            a <= b <= v.len(),
            forall|k: int| 0 <= k < a ==> is_ws(v@[k]),
            a < v.len() ==> !is_ws(v@[a as int]),
            forall|k: int| b <= k < v.len() ==> is_ws(v@[k]),
        decreases b - a,
    {
        b = b - 1;
    }
    proof {
        lemma_trim_bounds(v@, a as int, b as int);
    }
    (a, b)
}

proof fn lemma_trim_bounds(s: Seq<char>, a: int, b: int)
    requires
        0 <= a <= b <= s.len(),
        forall|k: int| 0 <= k < a ==> is_ws(s[k]),
        forall|k: int| b <= k < s.len() ==> is_ws(s[k]),
        a < b ==> !is_ws(s[a]) && !is_ws(s[b - 1]),
    ensures
        trim(s) == s.subrange(a, b),
    decreases s.len(),
{
    if s.len() > 0 && is_ws(s[0]) {
        let t = s.drop_first();
        if a == 0 {
            assert(b == 0);
            assert forall|k: int| 0 <= k < t.len() implies is_ws(t[k]) by {
                assert(t[k] == s[k + 1]);
            }
            lemma_trim_bounds(t, 0, 0);
            assert(t.subrange(0, 0) =~= s.subrange(a, b));
        } else {
            assert forall|k: int| 0 <= k < a - 1 implies is_ws(t[k]) by {
                assert(t[k] == s[k + 1]);
            }
            assert forall|k: int| b - 1 <= k < t.len() implies is_ws(t[k]) by {
                assert(t[k] == s[k + 1]);
            }
            lemma_trim_bounds(t, a - 1, b - 1);
            assert(t.subrange(a - 1, b - 1) =~= s.subrange(a, b));
        }
    } else if s.len() > 0 && is_ws(s.last()) {
        let t = s.drop_last();
        if b == s.len() {
            assert(a == b);
            assert(is_ws(s[0]));
        }
        lemma_trim_bounds(t, a, b);
        assert(t.subrange(a, b) =~= s.subrange(a, b));
    } else {
        if s.len() > 0 {
            if a > 0 {
                assert(is_ws(s[0]));
            }
            if b < s.len() {
                assert(is_ws(s[s.len() - 1]));
            }
        }
        assert(s.subrange(a, b) =~= s);
    }
}

/// A term occurs in a text exactly where the text is made of something,
/// then the term, then something else: plain substring search, whatever
/// precedes or follows the term.
pub proof fn law_occurs_is_substring(hay: Seq<char>, needle: Seq<char>)
    ensures
        occurs(hay, needle) == exists|x: Seq<char>, y: Seq<char>| hay == x + needle + y,
{
    if occurs(hay, needle) {
        let i = choose|i: int| occurs_at(hay, needle, i);
        let x = hay.take(i);
        let y = hay.skip(i + needle.len());
        assert(hay =~= x + needle + y);
    }
    if exists|x: Seq<char>, y: Seq<char>| hay == x + needle + y {
        let (x, y) = choose|x: Seq<char>, y: Seq<char>| hay == x + needle + y;
        law_substring_occurs(x, needle, y);
    }
}

/// A term occurs in any text that holds it as a contiguous piece, whatever
/// comes before and after it.
pub proof fn law_substring_occurs(x: Seq<char>, t: Seq<char>, y: Seq<char>)
    ensures
        occurs(x + t + y, t),
{
    let h = x + t + y;
    assert(h.subrange(x.len() as int, x.len() + t.len() as int) =~= t);
    assert(occurs_at(h, t, x.len() as int));
}

/// Whether `hay` contains `q[i..j]` as a substring.
pub fn occurs_slice(hay: &Vec<char>, q: &Vec<char>, i: usize, j: usize) -> (r: bool)
    requires
        i <= j <= q.len(),
    ensures
        r == occurs(hay@, q@.subrange(i as int, j as int)),
        r == exists|x: Seq<char>, y: Seq<char>| hay@ == x + q@.subrange(i as int, j as int) + y,
{
    proof {
        law_occurs_is_substring(hay@, q@.subrange(i as int, j as int));
    }
    let ghost needle = q@.subrange(i as int, j as int);
    let m: usize = j - i;
    if m > hay.len() {
        proof {
            assert forall|p: int| !occurs_at(hay@, needle, p) by {}
        }
        return false;
    }
    let mut p: usize = 0;
    while p <= hay.len() - m
        invariant
            i <= j <= q.len(),
            m == j - i,
            needle == q@.subrange(i as int, j as int),
            m <= hay.len(),
            p <= hay.len() - m + 1,
            forall|t: int| 0 <= t < p ==> !occurs_at(hay@, needle, t),
        decreases hay.len() - p,
    {
        let mut k: usize = 0;
        while k < m && hay[p + k] == q[i + k]
            invariant
                i <= j <= q.len(),
                m == j - i,
                p + m <= hay.len(),
                k <= m,
                hay@.subrange(p as int, p + k) =~= q@.subrange(i as int, i + k),
            decreases m - k,
        {
            k = k + 1;
            assert(hay@.subrange(p as int, p + k) =~= q@.subrange(i as int, i + k));
        }
        if k == m {
            proof {
                assert(hay@.subrange(p as int, p + m) =~= needle);
                assert(occurs_at(hay@, needle, p as int));
                law_occurs_is_substring(hay@, needle);
            }
            return true;
        }
        proof {
            assert(hay@.subrange(p as int, p + m)[k as int] != needle[k as int]);
            assert(!occurs_at(hay@, needle, p as int));
        }
        p = p + 1;
    }
    proof {
        assert forall|t: int| !occurs_at(hay@, needle, t) by {
            if 0 <= t && t + m <= hay.len() {
                assert(t < p);
            }
        }
    }
    false
}

/// The strings of `parts` joined by `sep` (`[String]::join`).
pub fn join_strings(parts: &Vec<String>, sep: &str) -> (r: String)
    ensures
        r@ == join(views(parts@), sep@),
{
    let mut r = String::new();
    let mut i: usize = 0;
    while i < parts.len()
        invariant
            i <= parts.len(),
            r@ == join(views(parts@.take(i as int)), sep@),
        decreases parts.len() - i,
    {
        let ghost before = views(parts@.take(i as int));
        let ghost after = views(parts@.take(i + 1));
        proof {
            assert(after.drop_last() =~= before);
            assert(after.last() == parts@[i as int]@);
        }
        if i > 0 {
            r.append(sep);
        }
        r.append(parts[i].as_str());
        i = i + 1;
        proof {
            if i == 1 {
                assert(r@ =~= after[0]);
            }
        }
    }
    assert(parts@.take(parts.len() as int) =~= parts@);
    r
}

/// Lower-cased `s`, as `str::to_lowercase` computes it (Unicode `Lowercase`
/// mapping, with the context rule for final sigma).
pub uninterp spec fn lowercase(s: Seq<char>) -> Seq<char>;

/// `str::to_lowercase`. Its result is named by `lowercase`; the one fact
/// stated of it is that the empty string lower-cases to the empty string.
#[verifier::external_body]
pub(crate) fn to_lowercase(s: &str) -> (r: String)
    ensures
        r@ == lowercase(s@),
        s@.len() == 0 ==> r@.len() == 0,
{
    s.to_lowercase()
}

/// Whether `a` comes strictly before `b` in the order of `str`.
pub fn str_lt(a: &str, b: &str) -> (r: bool)
    ensures
        r == lex_lt(a@, b@),
{
    let x = chars_of(a);
    let y = chars_of(b);
    let mut i: usize = 0;
    assert(x@.skip(0) =~= x@);
    assert(y@.skip(0) =~= y@);
    while i < x.len() && i < y.len() && x[i] == y[i]
        invariant
            i <= x.len(),
            i <= y.len(),
            lex_lt(x@, y@) == lex_lt(x@.skip(i as int), y@.skip(i as int)),
        decreases x.len() - i,
    {
        proof {
            assert(x@.skip(i as int).drop_first() =~= x@.skip(i + 1));
            assert(y@.skip(i as int).drop_first() =~= y@.skip(i + 1));
        }
        i = i + 1;
    }
    if i == y.len() {
        false
    } else if i == x.len() {
        true
    } else {
        x[i] < y[i]
    }
}

} // verus!
