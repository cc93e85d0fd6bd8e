//! A verified stable merge sort of pixels by an integer key.
//!
//! The result of a stable sort is pinned down by three facts: it has the
//! input's length, its keys never decrease, and for every key value the pixels
//! that carry that key appear in the same order as in the input
//! (`is_stable_sort_of`). `lemma_stable_sort_unique` proves that these facts
//! admit exactly one output.

use vstd::prelude::*;
use vstd::multiset::Multiset;
use crate::pixel::{Rgba, color_int, luma, processing_color_int, color_sort_key};

verus! {

/// Which key a sort orders pixels by.
#[derive(Clone, Copy, Debug, PartialEq, Eq, Structural)]
pub enum SortKey {
    /// Processing's signed colour integer (`color_int`).
    ColorInt,
    /// The truncated BT.601 luminance (`luma`).
    Luma,
}

pub open spec fn key_of(k: SortKey, c: Rgba) -> int {
    match k {
        SortKey::ColorInt => color_int(c),
        SortKey::Luma => luma(c),
    }
}

/// The key of a pixel.
pub fn sort_key(k: SortKey, c: Rgba) -> (v: i64)
    ensures
        v == key_of(k, c),
{
    match k {
        SortKey::ColorInt => processing_color_int(c) as i64,
        SortKey::Luma => color_sort_key(c) as i64,
    }
}

/// Keys never decrease along `s`.
pub open spec fn sorted_by_key(k: SortKey, s: Seq<Rgba>) -> bool {
    forall|i: int, j: int|
        0 <= i <= j < s.len() ==> key_of(k, #[trigger] s[i]) <= key_of(k, #[trigger] s[j])
}

/// The pixels of `s` whose key is `v`, in their order in `s`.
pub open spec fn key_class(k: SortKey, s: Seq<Rgba>, v: int) -> Seq<Rgba> {
    s.filter(|c: Rgba| key_of(k, c) == v)
}

/// `output` is `input` sorted by key, with pixels of equal key in input order.
pub open spec fn is_stable_sort_of(k: SortKey, input: Seq<Rgba>, output: Seq<Rgba>) -> bool {
    &&& output.len() == input.len()
    &&& sorted_by_key(k, output)
    &&& forall|v: int| #[trigger] key_class(k, output, v) == key_class(k, input, v)
}

spec fn merge(k: SortKey, a: Seq<Rgba>, b: Seq<Rgba>) -> Seq<Rgba>
    decreases a.len() + b.len(),
{
    if a.len() == 0 {
        b
    } else if b.len() == 0 {
        a
    } else if key_of(k, a[0]) <= key_of(k, b[0]) {
        seq![a[0]] + merge(k, a.drop_first(), b)
    } else {
        seq![b[0]] + merge(k, a, b.drop_first())
    }
}

spec fn msort(k: SortKey, s: Seq<Rgba>) -> Seq<Rgba>
    decreases s.len(),
{
    if s.len() <= 1 {
        s
    } else {
        let m = s.len() / 2;
        merge(k, msort(k, s.take(m as int)), msort(k, s.skip(m as int)))
    }
}

/// The stable sort of `s` by key `k` (see `lemma_stable_sorted`).
pub closed spec fn stable_sorted(k: SortKey, s: Seq<Rgba>) -> Seq<Rgba> {
    msort(k, s)
}

spec fn keys_at_least(k: SortKey, s: Seq<Rgba>, t: int) -> bool {
    forall|i: int| 0 <= i < s.len() ==> key_of(k, #[trigger] s[i]) >= t
}

proof fn lemma_filter_single(x: Rgba, p: spec_fn(Rgba) -> bool)
    ensures
        seq![x].filter(p) == (if p(x) { seq![x] } else { Seq::<Rgba>::empty() }),
{
    reveal(Seq::filter);
    assert(seq![x].drop_last() =~= Seq::<Rgba>::empty());
    assert(Seq::<Rgba>::empty().filter(p) =~= Seq::<Rgba>::empty());
    if p(x) {
        assert(Seq::<Rgba>::empty().push(x) =~= seq![x]);
    }
}

proof fn lemma_filter_cons(x: Rgba, s: Seq<Rgba>, p: spec_fn(Rgba) -> bool)
    ensures
        (seq![x] + s).filter(p) == (if p(x) { seq![x] + s.filter(p) } else { s.filter(p) }),
{
    Seq::filter_distributes_over_add(seq![x], s, p);
    lemma_filter_single(x, p);
    if !p(x) {
        assert(Seq::<Rgba>::empty() + s.filter(p) =~= s.filter(p));
    }
}

proof fn lemma_filter_none(s: Seq<Rgba>, p: spec_fn(Rgba) -> bool)
    requires
        forall|i: int| 0 <= i < s.len() ==> !p(#[trigger] s[i]),
    ensures
        s.filter(p) == Seq::<Rgba>::empty(),
    decreases s.len(),
{
    reveal(Seq::filter);
    if s.len() > 0 {
        lemma_filter_none(s.drop_last(), p);
    }
    assert(s.filter(p) =~= Seq::<Rgba>::empty());
}

proof fn lemma_filter_nonempty_witness(s: Seq<Rgba>, p: spec_fn(Rgba) -> bool) -> (i: int)
    requires
        s.filter(p).len() > 0,
    ensures
        0 <= i < s.len(),
        p(s[i]),
    decreases s.len(),
{
    reveal(Seq::filter);
    if s.len() == 0 {
        assert(false);
        0
    } else if p(s.last()) {
        (s.len() - 1) as int
    } else {
        let j = lemma_filter_nonempty_witness(s.drop_last(), p);
        j
    }
}

proof fn lemma_merge_facts(k: SortKey, a: Seq<Rgba>, b: Seq<Rgba>, t: int)
    ensures
        merge(k, a, b).len() == a.len() + b.len(),
        merge(k, a, b).to_multiset() == a.to_multiset().add(b.to_multiset()),
        keys_at_least(k, a, t) && keys_at_least(k, b, t) ==> keys_at_least(k, merge(k, a, b), t),
    decreases a.len() + b.len(),
{
    broadcast use vstd::seq_lib::lemma_multiset_commutative;
    broadcast use vstd::multiset::group_multiset_axioms;

    if a.len() == 0 {
        assert(a.to_multiset() =~= Multiset::empty()) by {
            broadcast use vstd::seq_lib::group_to_multiset_ensures;
        }
    } else if b.len() == 0 {
        assert(b.to_multiset() =~= Multiset::empty()) by {
            broadcast use vstd::seq_lib::group_to_multiset_ensures;
        }
    } else if key_of(k, a[0]) <= key_of(k, b[0]) {
        lemma_merge_facts(k, a.drop_first(), b, t);
        assert(a =~= seq![a[0]] + a.drop_first());
        let r = merge(k, a.drop_first(), b);
        assert(seq![a[0]].to_multiset().add(a.drop_first().to_multiset()) == a.to_multiset());
        assert((seq![a[0]] + r).to_multiset() == seq![a[0]].to_multiset().add(r.to_multiset()));
        assert(seq![a[0]].to_multiset().add(a.drop_first().to_multiset().add(b.to_multiset()))
            =~= seq![a[0]].to_multiset().add(a.drop_first().to_multiset()).add(b.to_multiset()));
        if keys_at_least(k, a, t) && keys_at_least(k, b, t) {
            assert(keys_at_least(k, a.drop_first(), t));
            assert forall|i: int| 0 <= i < (seq![a[0]] + r).len() implies key_of(
                k,
                #[trigger] (seq![a[0]] + r)[i],
            ) >= t by {
                if i > 0 {
                    assert((seq![a[0]] + r)[i] == r[i - 1]);
                }
            }
        }
    } else {
        lemma_merge_facts(k, a, b.drop_first(), t);
        assert(b =~= seq![b[0]] + b.drop_first());
        let r = merge(k, a, b.drop_first());
        assert(seq![b[0]].to_multiset().add(b.drop_first().to_multiset()) == b.to_multiset());
        assert((seq![b[0]] + r).to_multiset() == seq![b[0]].to_multiset().add(r.to_multiset()));
        assert(seq![b[0]].to_multiset().add(a.to_multiset().add(b.drop_first().to_multiset()))
            =~= a.to_multiset().add(seq![b[0]].to_multiset().add(b.drop_first().to_multiset())));
        if keys_at_least(k, a, t) && keys_at_least(k, b, t) {
            assert(keys_at_least(k, b.drop_first(), t));
            assert forall|i: int| 0 <= i < (seq![b[0]] + r).len() implies key_of(
                k,
                #[trigger] (seq![b[0]] + r)[i],
            ) >= t by {
                if i > 0 {
                    assert((seq![b[0]] + r)[i] == r[i - 1]);
                }
            }
        }
    }
}

proof fn lemma_cons_sorted(k: SortKey, x: Rgba, r: Seq<Rgba>)
    requires
        sorted_by_key(k, r),
        keys_at_least(k, r, key_of(k, x)),
    ensures
        sorted_by_key(k, seq![x] + r),
{
    let s = seq![x] + r;
    assert forall|i: int, j: int| 0 <= i <= j < s.len() implies key_of(k, #[trigger] s[i])
        <= key_of(k, #[trigger] s[j]) by {
        if i == 0 {
            if j > 0 {
                assert(s[j] == r[j - 1]);
            }
        } else {
            assert(s[i] == r[i - 1]);
            assert(s[j] == r[j - 1]);
        }
    }
}

proof fn lemma_merge_sorted(k: SortKey, a: Seq<Rgba>, b: Seq<Rgba>)
    requires
        sorted_by_key(k, a),
        sorted_by_key(k, b),
    ensures
        sorted_by_key(k, merge(k, a, b)),
        forall|v: int| #[trigger] key_class(k, merge(k, a, b), v) == key_class(k, a, v) + key_class(k, b, v),
    decreases a.len() + b.len(),
{
    if a.len() == 0 {
        assert forall|v: int| #[trigger] key_class(k, merge(k, a, b), v) == key_class(k, a, v) + key_class(k, b, v) by {
            lemma_filter_none(a, |c: Rgba| key_of(k, c) == v);
            assert(key_class(k, a, v) + key_class(k, b, v) =~= key_class(k, b, v));
        }
    } else if b.len() == 0 {
        assert forall|v: int| #[trigger] key_class(k, merge(k, a, b), v) == key_class(k, a, v) + key_class(k, b, v) by {
            lemma_filter_none(b, |c: Rgba| key_of(k, c) == v);
            assert(key_class(k, a, v) + key_class(k, b, v) =~= key_class(k, a, v));
        }
    } else if key_of(k, a[0]) <= key_of(k, b[0]) {
        let a1 = a.drop_first();
        let r = merge(k, a1, b);
        assert(sorted_by_key(k, a1)) by {
            assert forall|i: int, j: int| 0 <= i <= j < a1.len() implies key_of(k, #[trigger] a1[i])
                <= key_of(k, #[trigger] a1[j]) by {
                assert(a1[i] == a[i + 1]);
                assert(a1[j] == a[j + 1]);
            }
        }
        lemma_merge_sorted(k, a1, b);
        lemma_merge_facts(k, a1, b, key_of(k, a[0]));
        assert(keys_at_least(k, a1, key_of(k, a[0]))) by {
            assert forall|i: int| 0 <= i < a1.len() implies key_of(k, #[trigger] a1[i]) >= key_of(
                k,
                a[0],
            ) by {
                assert(a1[i] == a[i + 1]);
            }
        }
        assert(keys_at_least(k, b, key_of(k, a[0]))) by {
            assert forall|i: int| 0 <= i < b.len() implies key_of(k, #[trigger] b[i]) >= key_of(
                k,
                a[0],
            ) by {
                assert(key_of(k, b[0]) <= key_of(k, b[i]));
            }
        }
        lemma_cons_sorted(k, a[0], r);
        assert(a =~= seq![a[0]] + a1);
        assert forall|v: int| #[trigger] key_class(k, merge(k, a, b), v) == key_class(k, a, v) + key_class(k, b, v) by {
            let p = |c: Rgba| key_of(k, c) == v;
            lemma_filter_cons(a[0], r, p);
            lemma_filter_cons(a[0], a1, p);
            assert(key_class(k, r, v) == key_class(k, a1, v) + key_class(k, b, v));
            if p(a[0]) {
                assert(seq![a[0]] + (key_class(k, a1, v) + key_class(k, b, v)) =~= (seq![a[0]]
                    + key_class(k, a1, v)) + key_class(k, b, v));
            }
        }
    } else {
        let b1 = b.drop_first();
        let r = merge(k, a, b1);
        assert(sorted_by_key(k, b1)) by {
            assert forall|i: int, j: int| 0 <= i <= j < b1.len() implies key_of(k, #[trigger] b1[i])
                <= key_of(k, #[trigger] b1[j]) by {
                assert(b1[i] == b[i + 1]);
                assert(b1[j] == b[j + 1]);
            }
        }
        lemma_merge_sorted(k, a, b1);
        lemma_merge_facts(k, a, b1, key_of(k, b[0]));
        assert(keys_at_least(k, b1, key_of(k, b[0]))) by {
            assert forall|i: int| 0 <= i < b1.len() implies key_of(k, #[trigger] b1[i]) >= key_of(
                k,
                b[0],
            ) by {
                assert(b1[i] == b[i + 1]);
            }
        }
        assert(keys_at_least(k, a, key_of(k, b[0]))) by {
            assert forall|i: int| 0 <= i < a.len() implies key_of(k, #[trigger] a[i]) >= key_of(
                k,
                b[0],
            ) by {
                assert(key_of(k, a[0]) <= key_of(k, a[i]));
            }
        }
        lemma_cons_sorted(k, b[0], r);
        assert(b =~= seq![b[0]] + b1);
        assert forall|v: int| #[trigger] key_class(k, merge(k, a, b), v) == key_class(k, a, v) + key_class(k, b, v) by {
            let p = |c: Rgba| key_of(k, c) == v;
            lemma_filter_cons(b[0], r, p);
            lemma_filter_cons(b[0], b1, p);
            assert(key_class(k, r, v) == key_class(k, a, v) + key_class(k, b1, v));
            if p(b[0]) {
                assert forall|i: int| 0 <= i < a.len() implies !p(#[trigger] a[i]) by {
                    assert(key_of(k, a[0]) <= key_of(k, a[i]));
                }
                lemma_filter_none(a, p);
                assert(key_class(k, a, v) =~= Seq::<Rgba>::empty());
                assert(seq![b[0]] + (key_class(k, a, v) + key_class(k, b1, v)) =~= key_class(k, a, v)
                    + (seq![b[0]] + key_class(k, b1, v)));
            }
        }
    }
}

proof fn lemma_msort(k: SortKey, s: Seq<Rgba>)
    ensures
        is_stable_sort_of(k, s, msort(k, s)),
        msort(k, s).to_multiset() == s.to_multiset(),
    decreases s.len(),
{
    if s.len() <= 1 {
        assert(sorted_by_key(k, s));
    } else {
        let m = (s.len() / 2) as int;
        let l = s.take(m);
        let r = s.skip(m);
        lemma_msort(k, l);
        lemma_msort(k, r);
        lemma_merge_sorted(k, msort(k, l), msort(k, r));
        lemma_merge_facts(k, msort(k, l), msort(k, r), 0);
        assert(s =~= l + r);
        vstd::seq_lib::lemma_multiset_commutative(l, r);
        assert forall|v: int| #[trigger] key_class(k, msort(k, s), v) == key_class(k, s, v) by {
            Seq::filter_distributes_over_add(l, r, |c: Rgba| key_of(k, c) == v);
        }
    }
}

/// A stable sort's output is determined by its input: two sequences that are
/// both sorted by key and agree on the order within every key class are equal.
pub proof fn lemma_stable_sort_unique(k: SortKey, x: Seq<Rgba>, y: Seq<Rgba>)
    requires
        sorted_by_key(k, x),
        sorted_by_key(k, y),
        forall|v: int| #[trigger] key_class(k, x, v) == key_class(k, y, v),
    ensures
        x == y,
    decreases x.len() + y.len(),
{
    reveal(Seq::filter);
    if x.len() == 0 && y.len() == 0 {
        assert(x =~= y);
    } else if x.len() == 0 {
        let v = key_of(k, y.last());
        assert(key_class(k, y, v).len() > 0);
        assert(key_class(k, x, v) =~= Seq::<Rgba>::empty());
        assert(false);
    } else if y.len() == 0 {
        let v = key_of(k, x.last());
        assert(key_class(k, x, v).len() > 0);
        assert(key_class(k, y, v) =~= Seq::<Rgba>::empty());
        assert(false);
    } else {
        let m = key_of(k, x.last());
        let m2 = key_of(k, y.last());
        assert(key_class(k, y, m2).len() > 0);
        assert(key_class(k, x, m2).len() > 0);
        let i = lemma_filter_nonempty_witness(x, |c: Rgba| key_of(k, c) == m2);
        assert(key_of(k, x[i]) <= key_of(k, x[x.len() - 1]));
        assert(key_class(k, x, m).len() > 0);
        assert(key_class(k, y, m).len() > 0);
        let j = lemma_filter_nonempty_witness(y, |c: Rgba| key_of(k, c) == m);
        assert(key_of(k, y[j]) <= key_of(k, y[y.len() - 1]));
        assert(m == m2);
        assert(key_class(k, x, m) == key_class(k, x.drop_last(), m).push(x.last()));
        assert(key_class(k, y, m) == key_class(k, y.drop_last(), m).push(y.last()));
        assert(x.last() == key_class(k, x, m).last());
        assert(y.last() == key_class(k, y, m).last());
        let x1 = x.drop_last();
        let y1 = y.drop_last();
        assert forall|v: int| #[trigger] key_class(k, x1, v) == key_class(k, y1, v) by {
            assert(key_class(k, x, v) == key_class(k, y, v));
            if v == m {
                assert(key_class(k, x1, v) =~= key_class(k, x, v).drop_last());
                assert(key_class(k, y1, v) =~= key_class(k, y, v).drop_last());
            }
        }
        assert(sorted_by_key(k, x1)) by {
            assert forall|a: int, b: int| 0 <= a <= b < x1.len() implies key_of(k, #[trigger] x1[a])
                <= key_of(k, #[trigger] x1[b]) by {
                assert(x1[a] == x[a]);
                assert(x1[b] == x[b]);
            }
        }
        assert(sorted_by_key(k, y1)) by {
            assert forall|a: int, b: int| 0 <= a <= b < y1.len() implies key_of(k, #[trigger] y1[a])
                <= key_of(k, #[trigger] y1[b]) by {
                assert(y1[a] == y[a]);
                assert(y1[b] == y[b]);
            }
        }
        lemma_stable_sort_unique(k, x1, y1);
        assert(x =~= x1.push(x.last()));
        assert(y =~= y1.push(y.last()));
    }
}

/// `stable_sorted` is the one stable sort of its input; it only reorders pixels.
pub proof fn lemma_stable_sorted(k: SortKey, s: Seq<Rgba>)
    ensures
        is_stable_sort_of(k, s, stable_sorted(k, s)),
        stable_sorted(k, s).to_multiset() == s.to_multiset(),
        forall|t: Seq<Rgba>| #[trigger] is_stable_sort_of(k, s, t) ==> t == stable_sorted(k, s),
{
    lemma_msort(k, s);
    assert forall|t: Seq<Rgba>| #[trigger] is_stable_sort_of(k, s, t) implies t == stable_sorted(
        k,
        s,
    ) by {
        lemma_stable_sort_unique(k, t, msort(k, s));
    }
}

fn merge_runs(k: SortKey, a: &Vec<Rgba>, b: &Vec<Rgba>) -> (r: Vec<Rgba>)
    ensures
        r@ == merge(k, a@, b@),
{
    let mut r: Vec<Rgba> = Vec::new();
    let mut i: usize = 0;
    let mut j: usize = 0;
    assert(a@.skip(0) =~= a@);
    assert(b@.skip(0) =~= b@);
    assert(r@ + merge(k, a@, b@) =~= merge(k, a@, b@));
    while i < a.len() || j < b.len()
        invariant
            i <= a@.len(),
            j <= b@.len(),
            r@ + merge(k, a@.skip(i as int), b@.skip(j as int)) == merge(k, a@, b@),
        decreases a@.len() - i + b@.len() - j,
    {
        let ghost sa = a@.skip(i as int);
        let ghost sb = b@.skip(j as int);
        if i < a.len() && (j >= b.len() || sort_key(k, a[i]) <= sort_key(k, b[j])) {
            assert(sa.drop_first() =~= a@.skip(i + 1));
            assert(sa[0] == a@[i as int]);
            proof {
                if sb.len() == 0 {
                    assert(merge(k, sa, sb) == sa);
                    assert(merge(k, sa.drop_first(), sb) == sa.drop_first());
                    assert(sa =~= seq![sa[0]] + sa.drop_first());
                }
            }
            assert(merge(k, sa, sb) == seq![sa[0]] + merge(k, sa.drop_first(), sb));
            r.push(a[i]);
            i += 1;
            assert(r@ + merge(k, a@.skip(i as int), sb) =~= r@.drop_last() + merge(k, sa, sb));
        } else {
            assert(sb.drop_first() =~= b@.skip(j + 1));
            assert(sb[0] == b@[j as int]);
            proof {
                if sa.len() == 0 {
                    assert(merge(k, sa, sb) == sb);
                    assert(merge(k, sa, sb.drop_first()) == sb.drop_first());
                    assert(sb =~= seq![sb[0]] + sb.drop_first());
                }
            }
            assert(merge(k, sa, sb) == seq![sb[0]] + merge(k, sa, sb.drop_first()));
            r.push(b[j]);
            j += 1;
            assert(r@ + merge(k, sa, b@.skip(j as int)) =~= r@.drop_last() + merge(k, sa, sb));
        }
    }
    assert(a@.skip(i as int) =~= Seq::<Rgba>::empty());
    assert(b@.skip(j as int) =~= Seq::<Rgba>::empty());
    assert(r@ + Seq::<Rgba>::empty() =~= r@);
    r
}

fn merge_sort_range(k: SortKey, v: &Vec<Rgba>, lo: usize, hi: usize) -> (r: Vec<Rgba>)
    requires
        lo <= hi <= v@.len(),
    ensures
        r@ == msort(k, v@.subrange(lo as int, hi as int)),
    decreases hi - lo,
{
    if hi - lo <= 1 {
        let mut r: Vec<Rgba> = Vec::new();
        if hi > lo {
            r.push(v[lo]);
        }
        assert(r@ =~= v@.subrange(lo as int, hi as int));
        r
    } else {
        let m = (hi - lo) / 2;
        let left = merge_sort_range(k, v, lo, lo + m);
        let right = merge_sort_range(k, v, lo + m, hi);
        let ghost s = v@.subrange(lo as int, hi as int);
        assert(s.take(m as int) =~= v@.subrange(lo as int, (lo + m) as int));
        assert(s.skip(m as int) =~= v@.subrange((lo + m) as int, hi as int));
        merge_runs(k, &left, &right)
    }
}

/// Sorts pixels by key, keeping pixels of equal key in their input order.
pub fn stable_sort_by_key(k: SortKey, v: &Vec<Rgba>) -> (r: Vec<Rgba>)
    ensures
        r@ == stable_sorted(k, v@),
        is_stable_sort_of(k, v@, r@),
        r@.to_multiset() == v@.to_multiset(),
{
    let r = merge_sort_range(k, v, 0, v.len());
    assert(v@.subrange(0, v@.len() as int) =~= v@);
    proof {
        lemma_stable_sorted(k, v@);
    }
    r
}

} // verus!
