//! Registry layer: the layout of the synced registry clone (a git repo of
//! yaml files used as the database), the order in which problems and ideas
//! are listed, finding an idea by id, and keyword search.

use vstd::prelude::*;

use vstd::string::StrSliceExecFns;

use crate::model::{idea_id, Idea, ProblemWithIdeas};
use crate::paths::{join_path, path_join};
use crate::text::{
    chars_of, is_whitespace, is_word, is_ws, join, join_strings, lex_le, lex_lt, lemma_lex_total,
    lemma_lex_transitive, lowercase, occurs, occurs_at, occurs_slice, str_lt, to_lowercase, trim, trim_bounds,
    views,
};

verus! {

/// Something listed in the order of its slug.
pub trait Slugged {
    spec fn slug_of(&self) -> Seq<char>;

    fn slug_str(&self) -> (r: &str)
        ensures
            r@ == self.slug_of(),
    ;
}

impl Slugged for Idea {
    open spec fn slug_of(&self) -> Seq<char> {
        self.slug@
    }

    fn slug_str(&self) -> (r: &str) {
        self.slug.as_str()
    }
}

impl Slugged for ProblemWithIdeas {
    open spec fn slug_of(&self) -> Seq<char> {
        self.problem.slug@
    }

    fn slug_str(&self) -> (r: &str) {
        self.problem.slug.as_str()
    }
}

/// Slugs never decrease along `s`.
pub open spec fn sorted_by_slug<T: Slugged>(s: Seq<T>) -> bool {
    forall|i: int, j: int| 0 <= i < j < s.len() ==> lex_le(#[trigger] s[i].slug_of(), #[trigger] s[j].slug_of())
}

/// The items of `s` whose slug is `k`, in their order in `s`.
pub open spec fn with_slug<T: Slugged>(s: Seq<T>, k: Seq<char>) -> Seq<T> {
    s.filter(|x: T| x.slug_of() == k)
}

/// `out` is `inp` stably sorted by slug: sorted, and for every slug the
/// items carrying it are those of `inp`, in the same order.
pub open spec fn stable_sort_of<T: Slugged>(out: Seq<T>, inp: Seq<T>) -> bool {
    &&& sorted_by_slug(out)
    &&& forall|k: Seq<char>| #[trigger] with_slug(out, k) == with_slug(inp, k)
}

proof fn lemma_filter_insert<T>(s: Seq<T>, p: int, x: T, pred: spec_fn(T) -> bool)
    requires
        0 <= p <= s.len(),
    ensures
        s.insert(p, x).filter(pred) == s.take(p).filter(pred) + seq![x].filter(pred) + s.skip(p).filter(pred),
        s.filter(pred) == s.take(p).filter(pred) + s.skip(p).filter(pred),
{
    assert(s.insert(p, x) =~= s.take(p) + seq![x] + s.skip(p));
    assert(s =~= s.take(p) + s.skip(p));
    Seq::filter_distributes_over_add(s.take(p) + seq![x], s.skip(p), pred);
    Seq::filter_distributes_over_add(s.take(p), seq![x], pred);
    Seq::filter_distributes_over_add(s.take(p), s.skip(p), pred);
}

proof fn lemma_filter_none<T>(s: Seq<T>, pred: spec_fn(T) -> bool)
    requires
        forall|i: int| 0 <= i < s.len() ==> !pred(#[trigger] s[i]),
    ensures
        s.filter(pred) == Seq::<T>::empty(),
    decreases s.len(),
{
    reveal(Seq::filter);
    if s.len() > 0 {
        let t = s.drop_last();
        assert forall|i: int| 0 <= i < t.len() implies !pred(#[trigger] t[i]) by {
            assert(t[i] == s[i]);
        }
        lemma_filter_none(t, pred);
        assert(!pred(s[s.len() - 1]));
    }
}

proof fn lemma_singleton_filter<T>(x: T, pred: spec_fn(T) -> bool)
    ensures
        seq![x].filter(pred) == (if pred(x) { seq![x] } else { Seq::<T>::empty() }),
{
    reveal(Seq::filter);
    assert(seq![x].drop_last() =~= Seq::<T>::empty());
    assert(Seq::<T>::empty().filter(pred) =~= Seq::<T>::empty());
    if pred(x) {
        assert(Seq::<T>::empty().push(x) =~= seq![x]);
    }
}

proof fn lemma_with_slug_count<T: Slugged>(s: Seq<T>, x: T)
    ensures
        with_slug(s, x.slug_of()).to_multiset().count(x) == s.to_multiset().count(x),
    decreases s.len(),
{
    broadcast use vstd::seq_lib::group_to_multiset_ensures;

    reveal(Seq::filter);
    let k = x.slug_of();
    if s.len() > 0 {
        let t = s.drop_last();
        lemma_with_slug_count(t, x);
        assert(s =~= t.push(s.last()));
        if s.last().slug_of() == k {
            assert(with_slug(s, k) == with_slug(t, k).push(s.last()));
        } else {
            assert(with_slug(s, k) == with_slug(t, k));
            assert(s.last() != x);
        }
    } else {
        assert(with_slug(s, k) =~= s);
    }
}

/// Sorting by slug neither adds nor drops an item: the sorted sequence holds
/// the same items, each as many times, as the input.
pub proof fn law_stable_sort_keeps_items<T: Slugged>(out: Seq<T>, inp: Seq<T>)
    requires
        stable_sort_of(out, inp),
    ensures
        out.to_multiset() == inp.to_multiset(),
{
    assert forall|x: T| out.to_multiset().count(x) == inp.to_multiset().count(x) by {
        lemma_with_slug_count(out, x);
        lemma_with_slug_count(inp, x);
        assert(with_slug(out, x.slug_of()) == with_slug(inp, x.slug_of()));
    }
    assert(out.to_multiset() =~= inp.to_multiset());
}

proof fn lemma_same_groups_equal<T: Slugged>(a: Seq<T>, b: Seq<T>)
    requires
        sorted_by_slug(a),
        sorted_by_slug(b),
        forall|k: Seq<char>| #[trigger] with_slug(a, k) == with_slug(b, k),
    ensures
        a == b,
    decreases a.len(),
{
    broadcast use vstd::seq_lib::group_to_multiset_ensures;

    law_stable_sort_keeps_items(a, b);
    assert(a.len() == a.to_multiset().len());
    assert(b.len() == b.to_multiset().len());
    if a.len() == 0 {
        assert(a =~= b);
    } else {
        let x = a.last();
        let y = b.last();
        let n = a.len() - 1;
        assert(a.contains(x));
        assert(b.to_multiset().count(x) > 0);
        assert(b.contains(x));
        let i = choose|i: int| 0 <= i < b.len() && b[i] == x;
        assert(a.to_multiset().count(y) > 0);
        let j = choose|j: int| 0 <= j < a.len() && a[j] == y;
        if i < n {
            assert(lex_le(b[i].slug_of(), b[n].slug_of()));
        }
        if j < n {
            assert(lex_le(a[j].slug_of(), a[n].slug_of()));
        }
        lemma_lex_total(x.slug_of(), y.slug_of());
        crate::text::lemma_lex_asymmetric(x.slug_of(), y.slug_of());
        let key = x.slug_of();
        assert(y.slug_of() == key);
        reveal(Seq::filter);
        let a1 = a.drop_last();
        let b1 = b.drop_last();
        assert(a =~= a1.push(x));
        assert(b =~= b1.push(y));
        assert(with_slug(a, key) == with_slug(a1, key).push(x));
        assert(with_slug(b, key) == with_slug(b1, key).push(y));
        assert(with_slug(a, key) == with_slug(b, key));
        assert(with_slug(a, key).last() == x);
        assert(with_slug(b, key).last() == y);
        assert forall|k: Seq<char>| #[trigger] with_slug(a1, k) == with_slug(b1, k) by {
            assert(with_slug(a, k) == with_slug(b, k));
            if k == key {
                assert(with_slug(a1, k) =~= with_slug(a, k).drop_last());
                assert(with_slug(b1, k) =~= with_slug(b, k).drop_last());
            } else {
                assert(with_slug(a, k) == with_slug(a1, k));
                assert(with_slug(b, k) == with_slug(b1, k));
            }
        }
        assert forall|p: int, q: int| 0 <= p < q < a1.len() implies lex_le(
            #[trigger] a1[p].slug_of(),
            #[trigger] a1[q].slug_of(),
        ) by {
            assert(a1[p] == a[p] && a1[q] == a[q]);
        }
        assert forall|p: int, q: int| 0 <= p < q < b1.len() implies lex_le(
            #[trigger] b1[p].slug_of(),
            #[trigger] b1[q].slug_of(),
        ) by {
            assert(b1[p] == b[p] && b1[q] == b[q]);
        }
        lemma_same_groups_equal(a1, b1);
    }
}

/// Sorting by slug is deterministic: the stable sort of a sequence is the
/// only sequence that is sorted and keeps each slug's items in their order.
pub proof fn law_stable_sort_is_unique<T: Slugged>(a: Seq<T>, b: Seq<T>, inp: Seq<T>)
    requires
        stable_sort_of(a, inp),
        stable_sort_of(b, inp),
    ensures
        a == b,
{
    assert forall|k: Seq<char>| #[trigger] with_slug(a, k) == with_slug(b, k) by {
        assert(with_slug(a, k) == with_slug(inp, k));
        assert(with_slug(b, k) == with_slug(inp, k));
    }
    lemma_same_groups_equal(a, b);
}

/// No two items of `s` share a slug.
pub open spec fn distinct_slugs<T: Slugged>(s: Seq<T>) -> bool {
    forall|i: int, j: int| 0 <= i < j < s.len() ==> #[trigger] s[i].slug_of() != #[trigger] s[j].slug_of()
}

proof fn lemma_distinct_sorted_equal<T: Slugged>(a: Seq<T>, b: Seq<T>)
    requires
        sorted_by_slug(a),
        sorted_by_slug(b),
        distinct_slugs(a),
        distinct_slugs(b),
        a.to_multiset() == b.to_multiset(),
    ensures
        a == b,
    decreases a.len(),
{
    broadcast use vstd::seq_lib::group_to_multiset_ensures;

    assert(a.len() == a.to_multiset().len());
    assert(b.len() == b.to_multiset().len());
    if a.len() == 0 {
        assert(a =~= b);
    } else {
        let n = a.len() - 1;
        let x = a.last();
        let y = b.last();
        assert(a.contains(x));
        assert(b.to_multiset().count(x) > 0);
        let i = choose|i: int| 0 <= i < b.len() && b[i] == x;
        assert(b.contains(y));
        assert(a.to_multiset().count(y) > 0);
        let j = choose|j: int| 0 <= j < a.len() && a[j] == y;
        if i < n {
            assert(lex_le(b[i].slug_of(), b[n].slug_of()));
        }
        if j < n {
            assert(lex_le(a[j].slug_of(), a[n].slug_of()));
        }
        lemma_lex_total(x.slug_of(), y.slug_of());
        crate::text::lemma_lex_asymmetric(x.slug_of(), y.slug_of());
        assert(x.slug_of() == y.slug_of());
        if j < n {
            assert(a[j].slug_of() != a[n].slug_of());
        }
        assert(x == y);
        let a1 = a.drop_last();
        let b1 = b.drop_last();
        assert(a =~= a1.push(x));
        assert(b =~= b1.push(y));
        assert(a1.to_multiset() =~= a.to_multiset().remove(x));
        assert(b1.to_multiset() =~= b.to_multiset().remove(y));
        assert forall|p: int, q: int| 0 <= p < q < a1.len() implies lex_le(
            #[trigger] a1[p].slug_of(),
            #[trigger] a1[q].slug_of(),
        ) by {
            assert(a1[p] == a[p] && a1[q] == a[q]);
        }
        assert forall|p: int, q: int| 0 <= p < q < b1.len() implies lex_le(
            #[trigger] b1[p].slug_of(),
            #[trigger] b1[q].slug_of(),
        ) by {
            assert(b1[p] == b[p] && b1[q] == b[q]);
        }
        assert forall|p: int, q: int| 0 <= p < q < a1.len() implies #[trigger] a1[p].slug_of()
            != #[trigger] a1[q].slug_of() by {
            assert(a1[p] == a[p] && a1[q] == a[q]);
        }
        assert forall|p: int, q: int| 0 <= p < q < b1.len() implies #[trigger] b1[p].slug_of()
            != #[trigger] b1[q].slug_of() by {
            assert(b1[p] == b[p] && b1[q] == b[q]);
        }
        lemma_distinct_sorted_equal(a1, b1);
    }
}

/// Items with distinct slugs keep them distinct through any rearrangement
/// that keeps the same items.
proof fn lemma_distinct_slugs_carry<T: Slugged>(a: Seq<T>, inp: Seq<T>)
    requires
        distinct_slugs(inp),
        a.to_multiset() == inp.to_multiset(),
    ensures
        distinct_slugs(a),
{
    broadcast use vstd::seq_lib::group_to_multiset_ensures;

    assert(inp.no_duplicates()) by {
        assert forall|i: int, j: int| 0 <= i < inp.len() && 0 <= j < inp.len() && i != j implies inp[i]
            != inp[j] by {
            if i < j {
                assert(inp[i].slug_of() != inp[j].slug_of());
            } else {
                assert(inp[j].slug_of() != inp[i].slug_of());
            }
        }
    }
    inp.lemma_multiset_has_no_duplicates();
    a.lemma_multiset_has_no_duplicates_conv();
    assert forall|i: int, j: int| 0 <= i < j < a.len() implies #[trigger] a[i].slug_of()
        != #[trigger] a[j].slug_of() by {
        assert(a.contains(a[i]));
        assert(a.contains(a[j]));
        assert(inp.to_multiset().count(a[i]) > 0);
        assert(inp.to_multiset().count(a[j]) > 0);
        let p = choose|p: int| 0 <= p < inp.len() && inp[p] == a[i];
        let q = choose|q: int| 0 <= q < inp.len() && inp[q] == a[j];
        assert(a[i] != a[j]);
        if a[i].slug_of() == a[j].slug_of() {
            assert(p != q);
            if p < q {
                assert(inp[p].slug_of() != inp[q].slug_of());
            } else {
                assert(inp[q].slug_of() != inp[p].slug_of());
            }
        }
    }
}

/// With distinct slugs, the sorted listing does not depend on the order in
/// which the items were found: two inputs holding the same items (as a
/// directory listed in another order) sort alike.
pub proof fn law_sort_ignores_listing_order<T: Slugged>(a: Seq<T>, b: Seq<T>, inp1: Seq<T>, inp2: Seq<T>)
    requires
        stable_sort_of(a, inp1),
        stable_sort_of(b, inp2),
        inp1.to_multiset() == inp2.to_multiset(),
        distinct_slugs(inp1),
    ensures
        a == b,
{
    law_stable_sort_keeps_items(a, inp1);
    law_stable_sort_keeps_items(b, inp2);
    lemma_distinct_slugs_carry(a, inp1);
    lemma_distinct_slugs_carry(b, inp1);
    lemma_distinct_sorted_equal(a, b);
}

/// The position at which `x` goes into the sorted `out` to keep the sort
/// stable: after every item whose slug is not above `x`'s.
fn insertion_point<T: Slugged>(out: &Vec<T>, x: &T) -> (p: usize)
    requires
        sorted_by_slug(out@),
    ensures
        p <= out@.len(),
        forall|q: int| 0 <= q < p ==> lex_le(#[trigger] out@[q].slug_of(), x.slug_of()),
        forall|q: int| p <= q < out@.len() ==> lex_lt(x.slug_of(), #[trigger] out@[q].slug_of()),
{
    let mut p: usize = 0;
    while p < out.len() && !str_lt(x.slug_str(), out[p].slug_str())
        invariant
            p <= out@.len(),
            forall|q: int| 0 <= q < p ==> lex_le(#[trigger] out@[q].slug_of(), x.slug_of()),
        decreases out@.len() - p,
    {
        p = p + 1;
    }
    proof {
        if p < out@.len() {
            assert forall|q: int| p <= q < out@.len() implies lex_lt(x.slug_of(), #[trigger] out@[q].slug_of()) by {
                if q > p {
                    assert(lex_le(out@[p as int].slug_of(), out@[q].slug_of()));
                    lemma_lex_total(out@[p as int].slug_of(), out@[q].slug_of());
                    if out@[p as int].slug_of() != out@[q].slug_of() {
                        lemma_lex_transitive(x.slug_of(), out@[p as int].slug_of(), out@[q].slug_of());
                    }
                }
            }
        }
    }
    p
}

/// `v` stably sorted by slug, as `sort_by` on the slugs' `cmp` orders it.
pub fn sort_by_slug<T: Slugged>(v: Vec<T>) -> (r: Vec<T>)
    ensures
        stable_sort_of(r@, v@),
{
    let ghost inp = v@;
    let mut rest = v;
    let mut out: Vec<T> = Vec::new();
    let mut i: usize = 0;
    let n = rest.len();
    proof {
        assert forall|k: Seq<char>| #[trigger] with_slug(out@, k) == with_slug(inp.take(0), k) by {
            assert(out@ =~= inp.take(0));
        }
    }
    while i < n
        invariant
            n == inp.len(),
            i <= n,
            rest@ == inp.skip(i as int),
            sorted_by_slug(out@),
            forall|k: Seq<char>| #[trigger] with_slug(out@, k) == with_slug(inp.take(i as int), k),
        decreases n - i,
    {
        let x = rest.remove(0);
        proof {
            assert(x == inp[i as int]);
            assert(rest@ =~= inp.skip(i + 1));
        }
        let p = insertion_point(&out, &x);
        let ghost old_out = out@;
        out.insert(p, x);
        proof {
            let key = x.slug_of();
            assert forall|a: int, b: int| 0 <= a < b < out@.len() implies lex_le(
                #[trigger] out@[a].slug_of(),
                #[trigger] out@[b].slug_of(),
            ) by {
                if b < p {
                    assert(out@[a] == old_out[a] && out@[b] == old_out[b]);
                } else if b == p {
                    assert(out@[a] == old_out[a]);
                } else if a < p {
                    assert(out@[a] == old_out[a] && out@[b] == old_out[b - 1]);
                    assert(lex_le(old_out[a].slug_of(), key));
                    assert(lex_lt(key, old_out[b - 1].slug_of()));
                    lemma_lex_total(old_out[a].slug_of(), key);
                    if old_out[a].slug_of() != key {
                        lemma_lex_transitive(old_out[a].slug_of(), key, old_out[b - 1].slug_of());
                    }
                    crate::text::lemma_lex_asymmetric(old_out[a].slug_of(), old_out[b - 1].slug_of());
                } else if a == p {
                    assert(out@[b] == old_out[b - 1]);
                    crate::text::lemma_lex_asymmetric(key, old_out[b - 1].slug_of());
                } else {
                    assert(out@[a] == old_out[a - 1] && out@[b] == old_out[b - 1]);
                }
            }
            assert forall|k: Seq<char>| #[trigger] with_slug(out@, k) == with_slug(inp.take(i + 1), k) by {
                let pred = |y: T| y.slug_of() == k;
                lemma_filter_insert(old_out, p as int, x, pred);
                lemma_singleton_filter(x, pred);
                assert(inp.take(i + 1) =~= inp.take(i as int).push(x));
                inp.take(i as int).lemma_filter_push(x, pred);
                if key == k {
                    assert forall|q: int| 0 <= q < old_out.skip(p as int).len() implies !pred(
                        #[trigger] old_out.skip(p as int)[q],
                    ) by {
                        assert(old_out.skip(p as int)[q] == old_out[p + q]);
                        crate::text::lemma_lex_irreflexive(key);
                    }
                    lemma_filter_none(old_out.skip(p as int), pred);
                    assert(with_slug(out@, k) =~= old_out.take(p as int).filter(pred) + seq![x]);
                    assert(with_slug(old_out, k) =~= old_out.take(p as int).filter(pred));
                } else {
                    assert(with_slug(out@, k) =~= with_slug(old_out, k));
                }
            }
        }
        i = i + 1;
    }
    proof {
        assert(inp.take(n as int) =~= inp);
    }
    out
}

/// Every word of `query` occurs in `haystack`; an empty query matches
/// everything (browse mode).
pub open spec fn terms_occur(haystack: Seq<char>, query: Seq<char>) -> bool {
    query.len() == 0 || forall|i: int, j: int| #[trigger] is_word(query, i, j) ==> occurs(haystack, query.subrange(i, j))
}

proof fn lemma_words_of_joined(q1: Seq<char>, q2: Seq<char>)
    ensures
        ({
            let q = q1 + seq![' '] + q2;
            let n1 = q1.len() as int;
            &&& forall|i: int, j: int| #[trigger] is_word(q1, i, j) ==> is_word(q, i, j) && q.subrange(i, j) == q1.subrange(i, j)
            &&& forall|i: int, j: int| #[trigger] is_word(q2, i, j) ==> is_word(q, i + n1 + 1, j + n1 + 1)
                && q.subrange(i + n1 + 1, j + n1 + 1) == q2.subrange(i, j)
            &&& forall|i: int, j: int| #[trigger] is_word(q, i, j) ==> (j <= n1 && is_word(q1, i, j))
                || (i > n1 && is_word(q2, i - n1 - 1, j - n1 - 1))
        }),
{
    let q = q1 + seq![' '] + q2;
    let n1 = q1.len() as int;
    assert(is_ws(q[n1]));
    assert forall|i: int, j: int| #[trigger] is_word(q1, i, j) implies is_word(q, i, j) && q.subrange(i, j)
        == q1.subrange(i, j) by {
        assert forall|k: int| i <= k < j implies !is_ws(#[trigger] q[k]) by {
            assert(q[k] == q1[k]);
        }
        if i > 0 {
            assert(q[i - 1] == q1[i - 1]);
        }
        if j < n1 {
            assert(q[j] == q1[j]);
        }
        assert(q.subrange(i, j) =~= q1.subrange(i, j));
    }
    assert forall|i: int, j: int| #[trigger] is_word(q2, i, j) implies is_word(q, i + n1 + 1, j + n1 + 1)
        && q.subrange(i + n1 + 1, j + n1 + 1) == q2.subrange(i, j) by {
        assert forall|k: int| i + n1 + 1 <= k < j + n1 + 1 implies !is_ws(#[trigger] q[k]) by {
            assert(q[k] == q2[k - n1 - 1]);
        }
        if i > 0 {
            assert(q[i + n1] == q2[i - 1]);
        }
        if j < q2.len() {
            assert(q[j + n1 + 1] == q2[j]);
        }
        assert(q.subrange(i + n1 + 1, j + n1 + 1) =~= q2.subrange(i, j));
    }
    assert forall|i: int, j: int| #[trigger] is_word(q, i, j) implies (j <= n1 && is_word(q1, i, j)) || (i
        > n1 && is_word(q2, i - n1 - 1, j - n1 - 1)) by {
        if i <= n1 && n1 < j {
            assert(!is_ws(q[n1]));
        }
        if j <= n1 {
            assert forall|k: int| i <= k < j implies !is_ws(#[trigger] q1[k]) by {
                assert(q[k] == q1[k]);
            }
            if i > 0 {
                assert(q[i - 1] == q1[i - 1]);
            }
            if j < n1 {
                assert(q[j] == q1[j]);
            }
        } else {
            assert(i > n1);
            assert forall|k: int| i - n1 - 1 <= k < j - n1 - 1 implies !is_ws(#[trigger] q2[k]) by {
                assert(q[k + n1 + 1] == q2[k]);
            }
            if i > n1 + 1 {
                assert(q[i - 1] == q2[i - n1 - 2]);
            }
            if j < q.len() {
                assert(q[j] == q2[j - n1 - 1]);
            }
        }
    }
}

/// A query made of two queries, separated by a space, matches exactly when
/// both do (AND semantics); in particular a query repeated matches as the
/// query itself.
pub proof fn law_terms_compose(haystack: Seq<char>, q1: Seq<char>, q2: Seq<char>)
    ensures
        terms_occur(haystack, q1 + seq![' '] + q2) == (terms_occur(haystack, q1) && terms_occur(
            haystack,
            q2,
        )),
{
    let q = q1 + seq![' '] + q2;
    let n1 = q1.len() as int;
    lemma_words_of_joined(q1, q2);
    if terms_occur(haystack, q) {
        assert(q.len() > 0);
        assert forall|i: int, j: int| #[trigger] is_word(q1, i, j) implies occurs(haystack, q1.subrange(i, j)) by {
            assert(is_word(q, i, j));
        }
        assert forall|i: int, j: int| #[trigger] is_word(q2, i, j) implies occurs(haystack, q2.subrange(i, j)) by {
            assert(is_word(q, i + n1 + 1, j + n1 + 1));
        }
    }
    if terms_occur(haystack, q1) && terms_occur(haystack, q2) {
        assert forall|i: int, j: int| #[trigger] is_word(q, i, j) implies occurs(haystack, q.subrange(i, j)) by {
            if j <= n1 && is_word(q1, i, j) {
                assert(q1.len() > 0);
                assert(q.subrange(i, j) == q1.subrange(i, j));
            } else {
                assert(is_word(q2, i - n1 - 1, j - n1 - 1));
                assert(q2.len() > 0);
                assert(q.subrange(i, j) == q2.subrange(i - n1 - 1, j - n1 - 1));
            }
        }
    }
}

/// Whether every whitespace-separated term of `query` occurs in `haystack`
/// (AND semantics); an empty query matches everything.
pub fn all_terms_occur(haystack: &str, query: &str) -> (r: bool)
    ensures
        r == terms_occur(haystack@, query@),
{
    let q = chars_of(query);
    let n = q.len();
    if n == 0 {
        return true;
    }
    let hay = chars_of(haystack);
    let mut i: usize = 0;
    while i < n
        invariant
            n == q@.len(),
            q@ == query@,
            hay@ == haystack@,
            i <= n,
            i == 0 || i == n || is_ws(q@[i - 1]) || is_ws(q@[i as int]),
            forall|s: int, e: int| #[trigger] is_word(q@, s, e) && s < i ==> occurs(hay@, q@.subrange(s, e)),
        decreases n - i,
    {
        let i0 = i;
        while i < n && is_whitespace(q[i])
            invariant
                n == q@.len(),
                i0 <= i <= n,
                forall|k: int| i0 <= k < i ==> is_ws(#[trigger] q@[k]),
            decreases n - i,
        {
            i = i + 1;
        }
        proof {
            assert forall|s: int, e: int| #[trigger] is_word(q@, s, e) && s < i implies occurs(
                hay@,
                q@.subrange(s, e),
            ) by {
                if s >= i0 {
                    assert(is_ws(q@[s]));
                }
            }
        }
        if i == n {
            return true;
        }
        let start = i;
        while i < n && !is_whitespace(q[i])
            invariant
                n == q@.len(),
                start <= i <= n,
                forall|k: int| start <= k < i ==> !is_ws(#[trigger] q@[k]),
            decreases n - i,
        {
            i = i + 1;
        }
        proof {
            assert(is_word(q@, start as int, i as int)) by {
                if start > 0 && start == i0 {
                    assert(i0 == n || is_ws(q@[i0 - 1]) || is_ws(q@[i0 as int]));
                }
            }
        }
        if !occurs_slice(&hay, &q, start, i) {
            return false;
        }
        proof {
            assert forall|s: int, e: int| #[trigger] is_word(q@, s, e) && s < i implies occurs(
                hay@,
                q@.subrange(s, e),
            ) by {
                if s > start {
                    assert(!is_ws(q@[s - 1]));
                } else if s == start {
                    if e < i {
                        assert(!is_ws(q@[e]));
                    } else if e > i {
                        assert(!is_ws(q@[i as int]));
                    }
                }
            }
        }
    }
    true
}

/// The text that a search looks through for one idea: its title, rationale
/// and tags, each lower-cased, each after a space.
pub open spec fn idea_text(idea: Idea) -> Seq<char> {
    seq![' '] + lowercase(idea.title@) + seq![' '] + lowercase(idea.rationale@) + seq![' '] + lowercase(
        join(views(idea.tags@), seq![' ']),
    )
}

/// The texts of a sequence of ideas, one after another.
pub open spec fn ideas_text(ideas: Seq<Idea>) -> Seq<char>
    decreases ideas.len(),
{
    if ideas.len() == 0 {
        Seq::empty()
    } else {
        ideas_text(ideas.drop_last()) + idea_text(ideas.last())
    }
}

/// The text that a search looks through: the problem's title, description
/// and tags, then every idea's title, rationale and tags, each lower-cased.
pub open spec fn haystack(pwi: ProblemWithIdeas) -> Seq<char> {
    lowercase(pwi.problem.title@) + seq![' '] + lowercase(pwi.problem.description@) + seq![' ']
        + lowercase(join(views(pwi.problem.tags@), seq![' '])) + ideas_text(pwi.ideas@)
}

/// Whether a search for `query` matches `pwi`: case-insensitive keyword
/// match against the problem and its ideas.
pub open spec fn spec_matches(pwi: ProblemWithIdeas, query: Seq<char>) -> bool {
    terms_occur(haystack(pwi), lowercase(trim(query)))
}

/// `t` holds no whitespace.
pub open spec fn ws_free(t: Seq<char>) -> bool {
    forall|k: int| 0 <= k < t.len() ==> !is_ws(#[trigger] t[k])
}

/// `t` occurs in one of the lower-cased texts of `idea` that a search reads.
pub open spec fn found_in_idea(idea: Idea, t: Seq<char>) -> bool {
    ||| occurs(lowercase(idea.title@), t)
    ||| occurs(lowercase(idea.rationale@), t)
    ||| occurs(lowercase(join(views(idea.tags@), seq![' '])), t)
}

/// `t` occurs in one of the lower-cased texts that a search reads: the
/// problem's title, description and tags, or a text of one of its ideas.
pub open spec fn found_in(pwi: ProblemWithIdeas, t: Seq<char>) -> bool {
    ||| occurs(lowercase(pwi.problem.title@), t)
    ||| occurs(lowercase(pwi.problem.description@), t)
    ||| occurs(lowercase(join(views(pwi.problem.tags@), seq![' '])), t)
    ||| exists|i: int| 0 <= i < pwi.ideas@.len() && found_in_idea(#[trigger] pwi.ideas@[i], t)
}

proof fn lemma_occurs_split(a: Seq<char>, b: Seq<char>, t: Seq<char>)
    requires
        t.len() > 0,
        ws_free(t),
    ensures
        occurs(a + seq![' '] + b, t) <==> occurs(a, t) || occurs(b, t),
{
    let c = a + seq![' '] + b;
    let n = t.len() as int;
    if occurs(a, t) {
        let i = choose|i: int| occurs_at(a, t, i);
        assert(c.subrange(i, i + n) =~= a.subrange(i, i + n));
        assert(occurs_at(c, t, i));
    }
    if occurs(b, t) {
        let i = choose|i: int| occurs_at(b, t, i);
        let p = i + a.len() + 1;
        assert(c.subrange(p, p + n) =~= b.subrange(i, i + n));
        assert(occurs_at(c, t, p));
    }
    if occurs(c, t) {
        let i = choose|i: int| occurs_at(c, t, i);
        if i + n <= a.len() {
            assert(a.subrange(i, i + n) =~= c.subrange(i, i + n));
            assert(occurs_at(a, t, i));
        } else if i >= a.len() + 1 {
            let p = i - a.len() - 1;
            assert(b.subrange(p, p + n) =~= c.subrange(i, i + n));
            assert(occurs_at(b, t, p));
        } else {
            let k = a.len() - i;
            assert(t[k] == c.subrange(i, i + n)[k]);
            assert(c[a.len() as int] == ' ');
            assert(!is_ws(t[k]));
        }
    }
}

proof fn lemma_occurs_ideas_text(x: Seq<char>, s: Seq<Idea>, t: Seq<char>)
    requires
        t.len() > 0,
        ws_free(t),
    ensures
        occurs(x + ideas_text(s), t) <==> occurs(x, t) || exists|i: int| 0 <= i < s.len() && found_in_idea(#[trigger] s[i], t),
    decreases s.len(),
{
    if s.len() == 0 {
        assert(x + ideas_text(s) =~= x);
    } else {
        let s1 = s.drop_last();
        let last = s.last();
        lemma_occurs_ideas_text(x, s1, t);
        let a = lowercase(last.title@);
        let b = lowercase(last.rationale@);
        let c = lowercase(join(views(last.tags@), seq![' ']));
        let y = x + ideas_text(s1);
        assert(x + ideas_text(s) =~= ((y + seq![' '] + a) + seq![' '] + b) + seq![' '] + c);
        lemma_occurs_split((y + seq![' '] + a) + seq![' '] + b, c, t);
        lemma_occurs_split(y + seq![' '] + a, b, t);
        lemma_occurs_split(y, a, t);
        if exists|i: int| 0 <= i < s.len() && found_in_idea(#[trigger] s[i], t) {
            let i = choose|i: int| 0 <= i < s.len() && found_in_idea(#[trigger] s[i], t);
            if i < s1.len() {
                assert(s1[i] == s[i]);
            }
        }
        if exists|i: int| 0 <= i < s1.len() && found_in_idea(#[trigger] s1[i], t) {
            let i = choose|i: int| 0 <= i < s1.len() && found_in_idea(#[trigger] s1[i], t);
            assert(s[i] == s1[i]);
        }
        if found_in_idea(last, t) {
            assert(s[s.len() - 1] == last);
        }
    }
}

/// A term without whitespace occurs in the text that a search reads exactly
/// when it occurs in one of the texts that make it up: the space put between
/// them keeps a term from spanning two.
pub proof fn lemma_occurs_haystack(pwi: ProblemWithIdeas, t: Seq<char>)
    requires
        t.len() > 0,
        ws_free(t),
    ensures
        occurs(haystack(pwi), t) == found_in(pwi, t),
{
    let p1 = lowercase(pwi.problem.title@);
    let p2 = lowercase(pwi.problem.description@);
    let p3 = lowercase(join(views(pwi.problem.tags@), seq![' ']));
    let x = (p1 + seq![' '] + p2) + seq![' '] + p3;
    assert(haystack(pwi) =~= x + ideas_text(pwi.ideas@));
    lemma_occurs_ideas_text(x, pwi.ideas@, t);
    lemma_occurs_split(p1 + seq![' '] + p2, p3, t);
    lemma_occurs_split(p1, p2, t);
}

/// Adding ideas to a problem, or listing its ideas in another order, never
/// loses a match: if every idea of `pwi` is also an idea of `pwi2` and the
/// problem is the same, whatever query matches `pwi` matches `pwi2`.
pub proof fn law_more_ideas_keep_match(pwi: ProblemWithIdeas, pwi2: ProblemWithIdeas, query: Seq<char>)
    requires
        pwi2.problem == pwi.problem,
        forall|i: int| 0 <= i < pwi.ideas@.len() ==> pwi2.ideas@.contains(#[trigger] pwi.ideas@[i]),
    ensures
        spec_matches(pwi, query) ==> spec_matches(pwi2, query),
{
    let q = lowercase(trim(query));
    if spec_matches(pwi, query) && q.len() > 0 {
        assert forall|i: int, j: int| #[trigger] is_word(q, i, j) implies occurs(haystack(pwi2), q.subrange(i, j)) by {
            let t = q.subrange(i, j);
            assert forall|k: int| 0 <= k < t.len() implies !is_ws(#[trigger] t[k]) by {
                assert(t[k] == q[i + k]);
            }
            lemma_occurs_haystack(pwi, t);
            lemma_occurs_haystack(pwi2, t);
            if exists|a: int| 0 <= a < pwi.ideas@.len() && found_in_idea(#[trigger] pwi.ideas@[a], t) {
                let a = choose|a: int| 0 <= a < pwi.ideas@.len() && found_in_idea(#[trigger] pwi.ideas@[a], t);
                assert(pwi2.ideas@.contains(pwi.ideas@[a]));
                let b = choose|b: int| 0 <= b < pwi2.ideas@.len() && pwi2.ideas@[b] == pwi.ideas@[a];
                assert(found_in_idea(pwi2.ideas@[b], t));
            }
        }
    }
}

/// Listing a problem's ideas in another order (the same ideas, each as
/// often) never changes whether a query matches.
pub proof fn law_idea_order_is_irrelevant(pwi: ProblemWithIdeas, pwi2: ProblemWithIdeas, query: Seq<char>)
    requires
        pwi2.problem == pwi.problem,
        pwi2.ideas@.to_multiset() == pwi.ideas@.to_multiset(),
    ensures
        spec_matches(pwi, query) == spec_matches(pwi2, query),
{
    broadcast use vstd::seq_lib::group_to_multiset_ensures;

    assert forall|i: int| 0 <= i < pwi.ideas@.len() implies pwi2.ideas@.contains(#[trigger] pwi.ideas@[i]) by {
        assert(pwi.ideas@.contains(pwi.ideas@[i]));
        assert(pwi.ideas@.to_multiset().count(pwi.ideas@[i]) > 0);
        assert(pwi2.ideas@.to_multiset().count(pwi.ideas@[i]) > 0);
    }
    assert forall|i: int| 0 <= i < pwi2.ideas@.len() implies pwi.ideas@.contains(#[trigger] pwi2.ideas@[i]) by {
        assert(pwi2.ideas@.contains(pwi2.ideas@[i]));
        assert(pwi2.ideas@.to_multiset().count(pwi2.ideas@[i]) > 0);
        assert(pwi.ideas@.to_multiset().count(pwi2.ideas@[i]) > 0);
    }
    law_more_ideas_keep_match(pwi, pwi2, query);
    law_more_ideas_keep_match(pwi2, pwi, query);
}

/// Only the searched texts count: two problems whose titles, descriptions,
/// tags and ideas' titles, rationales and tags read the same match the same
/// queries, whatever their slugs, authors and sources.
pub proof fn law_unsearched_fields_ignored(pwi: ProblemWithIdeas, pwi2: ProblemWithIdeas, query: Seq<char>)
    requires
        pwi2.problem.title@ == pwi.problem.title@,
        pwi2.problem.description@ == pwi.problem.description@,
        views(pwi2.problem.tags@) == views(pwi.problem.tags@),
        pwi2.ideas@.len() == pwi.ideas@.len(),
        forall|i: int|
            0 <= i < pwi.ideas@.len() ==> {
                &&& (#[trigger] pwi2.ideas@[i]).title@ == pwi.ideas@[i].title@
                &&& pwi2.ideas@[i].rationale@ == pwi.ideas@[i].rationale@
                &&& views(pwi2.ideas@[i].tags@) == views(pwi.ideas@[i].tags@)
            },
    ensures
        spec_matches(pwi, query) == spec_matches(pwi2, query),
{
    lemma_ideas_text_same(pwi.ideas@, pwi2.ideas@);
    assert(haystack(pwi) == haystack(pwi2));
}

proof fn lemma_ideas_text_same(s1: Seq<Idea>, s2: Seq<Idea>)
    requires
        s2.len() == s1.len(),
        forall|i: int|
            0 <= i < s1.len() ==> {
                &&& (#[trigger] s2[i]).title@ == s1[i].title@
                &&& s2[i].rationale@ == s1[i].rationale@
                &&& views(s2[i].tags@) == views(s1[i].tags@)
            },
    ensures
        ideas_text(s1) == ideas_text(s2),
    decreases s1.len(),
{
    if s1.len() > 0 {
        let n = s1.len() - 1;
        assert(s2[n].title@ == s1[n].title@);
        lemma_ideas_text_same(s1.drop_last(), s2.drop_last());
    }
}

fn push_space(s: &mut String)
    ensures
        final(s)@ == old(s)@ + seq![' '],
{
    crate::text::push_char(s, ' ');
    assert(final(s)@ =~= old(s)@ + seq![' ']);
}

fn lowered_tags(tags: &Vec<String>) -> (r: String)
    ensures
        r@ == lowercase(join(views(tags@), seq![' '])),
{
    proof {
        reveal_strlit(" ");
        assert(" "@ =~= seq![' ']);
    }
    let joined = join_strings(tags, " ");
    to_lowercase(joined.as_str())
}

/// The text that a search for a problem looks through.
fn build_haystack(pwi: &ProblemWithIdeas) -> (r: String)
    ensures
        r@ == haystack(*pwi),
{
    let mut h = to_lowercase(pwi.problem.title.as_str());
    push_space(&mut h);
    let d = to_lowercase(pwi.problem.description.as_str());
    h.append(d.as_str());
    push_space(&mut h);
    let t = lowered_tags(&pwi.problem.tags);
    h.append(t.as_str());
    let ghost head = h@;
    let ideas = &pwi.ideas;
    let mut k: usize = 0;
    while k < ideas.len()
        invariant
            k <= ideas@.len(),
            h@ == head + ideas_text(ideas@.take(k as int)),
        decreases ideas@.len() - k,
    {
        let idea = &ideas[k];
        push_space(&mut h);
        let a = to_lowercase(idea.title.as_str());
        h.append(a.as_str());
        push_space(&mut h);
        let b = to_lowercase(idea.rationale.as_str());
        h.append(b.as_str());
        push_space(&mut h);
        let c = lowered_tags(&idea.tags);
        h.append(c.as_str());
        proof {
            assert(ideas@.take(k + 1).drop_last() =~= ideas@.take(k as int));
            assert(h@ =~= head + ideas_text(ideas@.take(k + 1)));
        }
        k = k + 1;
    }
    proof {
        assert(ideas@.take(ideas@.len() as int) =~= ideas@);
    }
    h
}

/// Case-insensitive keyword and tag match against a problem and its ideas.
/// Matches if every term of the query occurs in the problem's title,
/// description or tags, or in any idea's title, rationale or tags. An empty
/// query matches everything (browse mode).
pub fn matches(pwi: &ProblemWithIdeas, query: &str) -> (r: bool)
    ensures
        r == spec_matches(*pwi, query@),
        trim(query@).len() == 0 ==> r,
{
    let qv = chars_of(query);
    let (a, b) = trim_bounds(&qv);
    let trimmed = query.substring_char(a, b);
    let q = to_lowercase(trimmed);
    if q.unicode_len() == 0 {
        return true;
    }
    let h = build_haystack(pwi);
    all_terms_occur(h.as_str(), q.as_str())
}

/// The synced registry clone, rooted at a directory.
pub struct Registry {
    root: String,
}

/// `ideas` with each idea's problem slug set to `problem_slug`: the
/// directory an idea sits in is trusted over the file for the linkage.
pub open spec fn relabel(ideas: Seq<Idea>, problem_slug: String) -> Seq<Idea> {
    ideas.map_values(|x: Idea| Idea { problem_slug, ..x })
}

/// `name` has extension `ext`, as `Path::extension` reads it: the part
/// after the last `.`, where that `.` does not begin the name.
pub open spec fn has_extension(name: Seq<char>, ext: Seq<char>) -> bool {
    exists|i: int|
        0 < i < name.len() && name[i] == '.' && (forall|k: int| i < k < name.len() ==> name[k] != '.')
            && #[trigger] name.skip(i + 1) == ext
}

/// `s[i]` is the first `/` of `s`.
pub open spec fn first_slash(s: Seq<char>, i: int) -> bool {
    0 <= i < s.len() && s[i] == '/' && forall|k: int| 0 <= k < i ==> s[k] != '/'
}

/// The file of idea `idea_slug` of problem `problem_slug`:
/// `<problems>/<problem_slug>/ideas/<idea_slug>.yaml`.
pub open spec fn idea_file_path(problems: Seq<char>, problem_slug: Seq<char>, idea_slug: Seq<char>) -> Seq<char> {
    path_join(path_join(path_join(problems, problem_slug), "ideas"@), idea_slug + ".yaml"@)
}

/// The number of ideas across all problems.
pub open spec fn total_ideas(all: Seq<ProblemWithIdeas>) -> int
    decreases all.len(),
{
    if all.len() == 0 {
        0
    } else {
        total_ideas(all.drop_last()) + all.last().ideas@.len()
    }
}

impl Registry {
    /// The registry's root directory.
    pub closed spec fn root(&self) -> Seq<char> {
        self.root@
    }

    /// The registry rooted at `root`.
    pub fn open(root: String) -> (r: Registry)
        ensures
            r.root() == root@,
    {
        Registry { root }
    }

    /// Where the problems live: `<root>/problems`.
    pub fn problems_dir(&self) -> (r: String)
        ensures
            r@ == path_join(self.root(), "problems"@),
    {
        join_path(self.root.as_str(), "problems")
    }

    /// The root used to resolve an idea's `source_path`: the source is
    /// vendored inside the registry itself, so this is the registry root.
    pub fn source_root(&self) -> (r: &str)
        ensures
            r@ == self.root(),
    {
        self.root.as_str()
    }

    /// The file describing the problem in directory `pdir`.
    pub fn problem_file(pdir: &str) -> (r: String)
        ensures
            r@ == path_join(pdir@, "problem.yaml"@),
    {
        join_path(pdir, "problem.yaml")
    }

    /// The directory holding the ideas of the problem in directory `pdir`.
    pub fn ideas_dir(pdir: &str) -> (r: String)
        ensures
            r@ == path_join(pdir@, "ideas"@),
    {
        join_path(pdir, "ideas")
    }

    /// Where the idea with id `<problem-slug>/<idea-slug>` would be stored,
    /// split at the first `/`: the problem slug and the idea's file. `None`
    /// when the id holds no `/`.
    pub fn idea_location(&self, idea_id: &str) -> (r: Option<(String, String)>)
        ensures
            r is None <==> !idea_id@.contains('/'),
            r matches Some(loc) ==> exists|i: int|
                #[trigger] first_slash(idea_id@, i) && loc.0@ == idea_id@.take(i) && loc.1@ == idea_file_path(
                    path_join(self.root(), "problems"@),
                    idea_id@.take(i),
                    idea_id@.skip(i + 1),
                ),
    {
        let n = idea_id.unicode_len();
        let mut i: usize = 0;
        while i < n && idea_id.get_char(i) != '/'
            invariant
                n == idea_id@.len(),
                i <= n,
                forall|k: int| 0 <= k < i ==> idea_id@[k] != '/',
            decreases n - i,
        {
            i = i + 1;
        }
        if i == n {
            proof {
                assert forall|k: int| 0 <= k < idea_id@.len() implies idea_id@[k] != '/' by {}
            }
            return None;
        }
        let problem_slug = idea_id.substring_char(0, i);
        let idea_slug = idea_id.substring_char(i + 1, n);
        let problems = self.problems_dir();
        let p = join_path(problems.as_str(), problem_slug);
        let p = join_path(p.as_str(), "ideas");
        let mut file = String::from_str(idea_slug);
        file.append(".yaml");
        let path = join_path(p.as_str(), file.as_str());
        proof {
            assert(first_slash(idea_id@, i as int));
            assert(idea_id@.subrange(0, i as int) =~= idea_id@.take(i as int));
            assert(idea_id@.subrange(i + 1, n as int) =~= idea_id@.skip(i + 1));
        }
        Some((String::from_str(problem_slug), path))
    }
}

/// An idea id built from a problem slug without `/` splits back at its
/// first `/` into that problem slug and the idea's slug, so finding an idea
/// by its id looks in the idea's own file.
pub proof fn law_id_splits_back(problem_slug: Seq<char>, slug: Seq<char>)
    requires
        !problem_slug.contains('/'),
    ensures
        forall|i: int| #[trigger] first_slash(idea_id(problem_slug, slug), i) <==> i == problem_slug.len(),
        idea_id(problem_slug, slug).take(problem_slug.len() as int) == problem_slug,
        idea_id(problem_slug, slug).skip(problem_slug.len() as int + 1) == slug,
{
    let id = idea_id(problem_slug, slug);
    let n = problem_slug.len() as int;
    assert(id[n] == '/');
    assert forall|k: int| 0 <= k < n implies id[k] != '/' by {
        assert(id[k] == problem_slug[k]);
        if id[k] == '/' {
            assert(problem_slug.contains('/'));
        }
    }
    assert forall|i: int| #[trigger] first_slash(id, i) implies i == n by {
        if i < n {
            assert(id[i] == problem_slug[i]);
            assert(problem_slug.contains('/'));
        }
    }
    assert(id.take(n) =~= problem_slug);
    assert(id.skip(n + 1) =~= slug);
}

/// The file that holds an idea, named by its slug with `.yaml` after it,
/// is taken for an idea file whenever the slug is not empty.
pub proof fn law_slug_file_is_an_idea_file(slug: Seq<char>)
    requires
        slug.len() > 0,
    ensures
        has_extension(slug + ".yaml"@, "yaml"@),
{
    reveal_strlit(".yaml");
    reveal_strlit("yaml");
    let name = slug + ".yaml"@;
    let i = slug.len() as int;
    assert(name[i] == '.');
    assert(name.skip(i + 1) =~= "yaml"@);
    assert forall|k: int| i < k < name.len() implies name[k] != '.' by {
        assert(name[k] == "yaml"@[k - i - 1]);
    }
}

/// The file of an idea sits at `<problems>/<problem>/ideas/<idea>.yaml`:
/// each component is separated from the next by exactly one `/`, whatever
/// characters the slugs end in (a problem slug ending in a digit included).
pub proof fn law_idea_file_layout(problems: Seq<char>, problem_slug: Seq<char>, idea_slug: Seq<char>)
    requires
        problems.len() > 0,
        problems.last() != '/',
        problem_slug.len() > 0,
        problem_slug[0] != '/',
        problem_slug.last() != '/',
        idea_slug.len() == 0 || idea_slug[0] != '/',
    ensures
        idea_file_path(problems, problem_slug, idea_slug) == problems + seq!['/'] + problem_slug + seq![
            '/',
            'i',
            'd',
            'e',
            'a',
            's',
            '/',
        ] + idea_slug + seq!['.', 'y', 'a', 'm', 'l'],
{
    reveal_strlit("ideas");
    reveal_strlit(".yaml");
    crate::paths::law_join_separates_once(problems, problem_slug);
    let a = problems + seq!['/'] + problem_slug;
    assert(a.last() == problem_slug.last());
    crate::paths::law_join_separates_once(a, "ideas"@);
    let b = a + seq!['/'] + "ideas"@;
    assert(b.last() == 's');
    let f = idea_slug + ".yaml"@;
    if idea_slug.len() == 0 {
        assert(f[0] == '.');
    } else {
        assert(f[0] == idea_slug[0]);
    }
    crate::paths::law_join_separates_once(b, f);
    assert(idea_file_path(problems, problem_slug, idea_slug) =~= problems + seq!['/'] + problem_slug
        + seq!['/', 'i', 'd', 'e', 'a', 's', '/'] + idea_slug + seq!['.', 'y', 'a', 'm', 'l']);
}

/// A search term is found in a text wherever the text holds it as a piece,
/// in the middle of a word included (`multi-agent` holds `agent`).
pub proof fn law_term_found_anywhere(haystack: Seq<char>, term: Seq<char>, x: Seq<char>, y: Seq<char>)
    requires
        term.len() > 0,
        ws_free(term),
        haystack == x + term + y,
    ensures
        terms_occur(haystack, term),
{
    crate::text::law_substring_occurs(x, term, y);
    assert forall|i: int, j: int| #[trigger] is_word(term, i, j) implies occurs(haystack, term.subrange(i, j)) by {
        if i > 0 {
            assert(!is_ws(term[i - 1]));
        }
        if j < term.len() {
            assert(!is_ws(term[j]));
        }
        assert(term.subrange(i, j) =~= term);
    }
}

/// A one-term query matches a problem whose lower-cased title holds the
/// lower-cased term anywhere, in the middle of a word included.
pub proof fn law_title_substring_matches(pwi: ProblemWithIdeas, query: Seq<char>, x: Seq<char>, y: Seq<char>)
    requires
        lowercase(trim(query)).len() > 0,
        ws_free(lowercase(trim(query))),
        lowercase(pwi.problem.title@) == x + lowercase(trim(query)) + y,
    ensures
        spec_matches(pwi, query),
{
    let w = lowercase(trim(query));
    crate::text::law_substring_occurs(x, w, y);
    lemma_occurs_haystack(pwi, w);
    let h = haystack(pwi);
    assert(occurs(h, w));
    let k = choose|k: int| occurs_at(h, w, k);
    assert(h =~= h.take(k) + w + h.skip(k + w.len()));
    law_term_found_anywhere(h, w, h.take(k), h.skip(k + w.len()));
}

/// Whether a file in an ideas directory describes an idea: its extension
/// is `yaml`.
pub fn is_idea_file(file_name: &str) -> (r: bool)
    ensures
        r == has_extension(file_name@, "yaml"@),
{
    proof {
        reveal_strlit("yaml");
    }
    let v = chars_of(file_name);
    let n = v.len();
    let r = n > 5 && v[n - 5] == '.' && v[n - 4] == 'y' && v[n - 3] == 'a' && v[n - 2] == 'm' && v[n
        - 1] == 'l';
    proof {
        let name = file_name@;
        if r {
            let i = n - 5;
            assert(name.skip(i + 1) =~= "yaml"@);
            assert forall|k: int| i < k < name.len() implies name[k] != '.' by {
                assert(name[k] == name.skip(i + 1)[k - i - 1]);
            }
        }
        if has_extension(name, "yaml"@) {
            let i = choose|i: int|
                0 < i < name.len() && name[i] == '.' && (forall|k: int| i < k < name.len() ==> name[k] != '.')
                    && #[trigger] name.skip(i + 1) == "yaml"@;
            assert(name.skip(i + 1).len() == 4);
            assert(i == n - 5);
            assert(name[n - 4] == name.skip(i + 1)[0]);
            assert(name[n - 3] == name.skip(i + 1)[1]);
            assert(name[n - 2] == name.skip(i + 1)[2]);
            assert(name[n - 1] == name.skip(i + 1)[3]);
        }
    }
    r
}

/// `idea` linked to the problem `problem_slug`: the directory an idea's file
/// sits in is trusted over the file for the linkage.
pub fn relink(idea: Idea, problem_slug: String) -> (r: Idea)
    ensures
        r == (Idea { problem_slug, ..idea }),
{
    let mut idea = idea;
    idea.problem_slug = problem_slug;
    idea
}

/// The ideas read from a problem's directory, each linked to that problem
/// (the directory is trusted over the file) and listed in the order of
/// their slugs.
pub fn collect_ideas(problem_slug: &String, ideas: Vec<Idea>) -> (r: Vec<Idea>)
    ensures
        stable_sort_of(r@, relabel(ideas@, *problem_slug)),
        r@.len() == ideas@.len(),
        forall|i: int| 0 <= i < r@.len() ==> (#[trigger] r@[i]).problem_slug == *problem_slug,
{
    let ghost inp = ideas@;
    let mut rest = ideas;
    let mut out: Vec<Idea> = Vec::new();
    let n = rest.len();
    let mut i: usize = 0;
    while i < n
        invariant
            n == inp.len(),
            i <= n,
            rest@ == inp.skip(i as int),
            out@ == relabel(inp, *problem_slug).take(i as int),
        decreases n - i,
    {
        let idea = rest.remove(0);
        proof {
            assert(rest@ =~= inp.skip(i + 1));
        }
        out.push(relink(idea, problem_slug.clone()));
        proof {
            assert(out@ =~= relabel(inp, *problem_slug).take(i + 1));
        }
        i = i + 1;
    }
    proof {
        assert(relabel(inp, *problem_slug).take(n as int) =~= relabel(inp, *problem_slug));
    }
    let r = sort_by_slug(out);
    proof {
        let lab = relabel(inp, *problem_slug);
        law_stable_sort_keeps_items(r@, lab);
        broadcast use vstd::seq_lib::group_to_multiset_ensures;
        assert(r@.len() == r@.to_multiset().len());
        assert forall|i: int| 0 <= i < r@.len() implies (#[trigger] r@[i]).problem_slug == *problem_slug by {
            assert(r@.contains(r@[i]));
            assert(lab.to_multiset().count(r@[i]) > 0);
            assert(lab.contains(r@[i]));
            let j = choose|j: int| 0 <= j < lab.len() && lab[j] == r@[i];
        }
    }
    r
}

/// The indices, in ascending order, of the problems that a search for
/// `query` matches.
pub fn search(all: &Vec<ProblemWithIdeas>, query: &str) -> (r: Vec<usize>)
    ensures
        forall|a: int, b: int| 0 <= a < b < r@.len() ==> r@[a] < r@[b],
        forall|a: int| 0 <= a < r@.len() ==> r@[a] < all@.len(),
        forall|i: int| 0 <= i < all@.len() ==> (r@.contains(i as usize) <==> spec_matches(#[trigger] all@[i], query@)),
        trim(query@).len() == 0 ==> r@ == Seq::new(all@.len(), |i: int| i as usize),
{
    let mut r: Vec<usize> = Vec::new();
    let mut i: usize = 0;
    while i < all.len()
        invariant
            i <= all@.len(),
            forall|a: int, b: int| 0 <= a < b < r@.len() ==> r@[a] < r@[b],
            forall|a: int| 0 <= a < r@.len() ==> r@[a] < i,
            forall|j: int| 0 <= j < i ==> (r@.contains(j as usize) <==> spec_matches(#[trigger] all@[j], query@)),
            trim(query@).len() == 0 ==> r@ == Seq::new(i as nat, |k: int| k as usize),
        decreases all@.len() - i,
    {
        let ghost old_r = r@;
        if matches(&all[i], query) {
            r.push(i);
            proof {
                if trim(query@).len() == 0 {
                    assert(r@ =~= Seq::new((i + 1) as nat, |k: int| k as usize));
                }
                assert(r@[old_r.len() as int] == i);
                assert forall|j: int| 0 <= j <= i implies (r@.contains(j as usize) <==> spec_matches(#[trigger] all@[j], query@)) by {
                    if j < i {
                        if old_r.contains(j as usize) {
                            let a = choose|a: int| 0 <= a < old_r.len() && old_r[a] == j as usize;
                            assert(r@[a] == j as usize);
                        }
                        if r@.contains(j as usize) {
                            let a = choose|a: int| 0 <= a < r@.len() && r@[a] == j as usize;
                            if a < old_r.len() {
                                assert(old_r[a] == j as usize);
                            }
                        }
                    }
                }
            }
        } else {
            proof {
                assert(!r@.contains(i));
            }
        }
        i = i + 1;
    }
    r
}

/// How many ideas all the problems hold together; `None` if the count
/// does not fit in a `usize`.
pub fn idea_count(all: &Vec<ProblemWithIdeas>) -> (r: Option<usize>)
    ensures
        r matches Some(c) ==> c == total_ideas(all@),
        r is None ==> total_ideas(all@) > usize::MAX,
{
    let mut total: usize = 0;
    let mut i: usize = 0;
    while i < all.len()
        invariant
            i <= all@.len(),
            total == total_ideas(all@.take(i as int)),
        decreases all@.len() - i,
    {
        proof {
            assert(all@.take(i + 1).drop_last() =~= all@.take(i as int));
        }
        match total.checked_add(all[i].ideas.len()) {
            Some(t) => total = t,
            None => {
                proof {
                    lemma_total_ideas_monotone(all@, i + 1);
                }
                return None;
            },
        }
        i = i + 1;
    }
    proof {
        assert(all@.take(all@.len() as int) =~= all@);
    }
    Some(total)
}

proof fn lemma_total_ideas_monotone(all: Seq<ProblemWithIdeas>, i: int)
    requires
        0 <= i <= all.len(),
    ensures
        total_ideas(all.take(i)) <= total_ideas(all),
    decreases all.len() - i,
{
    if i < all.len() {
        lemma_total_ideas_monotone(all, i + 1);
        assert(all.take(i + 1).drop_last() =~= all.take(i));
    }
    else {
        assert(all.take(i) =~= all);
    }
}

} // verus!
