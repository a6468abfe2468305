//! Stable sorting, stated once for any total preorder: the result is ordered,
//! and within each class of equally ranked items it keeps the items in the
//! order they came in. That pins the result down completely.
use vstd::prelude::*;

verus! {

/// `le` is total and transitive.
pub open spec fn total_preorder<T>(le: spec_fn(T, T) -> bool) -> bool {
    &&& forall|a: T, b: T| #[trigger] le(a, b) || le(b, a)
    &&& forall|a: T, b: T, c: T| #[trigger] le(a, b) && #[trigger] le(b, c) ==> le(a, c)
}

/// Each item of `s` ranks at or before every later one.
pub open spec fn sorted_by<T>(s: Seq<T>, le: spec_fn(T, T) -> bool) -> bool {
    forall|i: int, j: int| 0 <= i < j < s.len() ==> le(#[trigger] s[i], #[trigger] s[j])
}

/// The items that rank the same as `y`.
pub open spec fn same_rank<T>(le: spec_fn(T, T) -> bool, y: T) -> spec_fn(T) -> bool {
    |z: T| le(y, z) && le(z, y)
}

/// `out` is `inp` sorted by `le`, with equally ranked items in their input
/// order.
pub open spec fn stable_sorted<T>(out: Seq<T>, inp: Seq<T>, le: spec_fn(T, T) -> bool) -> bool {
    &&& sorted_by(out, le)
    &&& forall|y: T| #[trigger] out.filter(same_rank(le, y)) == inp.filter(same_rank(le, y))
}

pub proof fn lemma_stable_sorted_empty<T>(le: spec_fn(T, T) -> bool)
    ensures
        stable_sorted(Seq::<T>::empty(), Seq::<T>::empty(), le),
{
    reveal(Seq::filter);
}

/// Inserting an item right after the last one that ranks at or before it
/// keeps a stable sort stable.
pub proof fn lemma_stable_insert<T>(
    out: Seq<T>,
    inp: Seq<T>,
    x: T,
    p: int,
    le: spec_fn(T, T) -> bool,
)
    requires
        total_preorder(le),
        stable_sorted(out, inp, le),
        0 <= p <= out.len(),
        forall|k: int| 0 <= k < p ==> le(#[trigger] out[k], x),
        forall|k: int| p <= k < out.len() ==> !le(#[trigger] out[k], x),
    ensures
        stable_sorted(out.insert(p, x), inp.push(x), le),
{
    let n = out.insert(p, x);
    out.insert_ensures(p, x);
    assert forall|i: int, j: int| 0 <= i < j < n.len() implies le(
        #[trigger] n[i],
        #[trigger] n[j],
    ) by {
        if j < p {
            assert(le(out[i], out[j]));
        } else if j == p {
            assert(le(out[i], x));
        } else if i < p {
            assert(n[j] == out[j - 1]);
            assert(!le(out[j - 1], x));
            assert(le(x, out[j - 1]));
            assert(le(out[i], x));
        } else if i == p {
            assert(n[j] == out[j - 1]);
            assert(!le(out[j - 1], x));
        } else {
            assert(n[i] == out[i - 1]);
            assert(n[j] == out[j - 1]);
            assert(le(out[i - 1], out[j - 1]));
        }
    }
    let a = out.subrange(0, p);
    let b = out.subrange(p, out.len() as int);
    assert(out =~= a + b);
    assert(n =~= a.push(x) + b);
    assert forall|y: T| #[trigger] n.filter(same_rank(le, y)) == inp.push(x).filter(
        same_rank(le, y),
    ) by {
        let cls = same_rank(le, y);
        Seq::filter_distributes_over_add(a.push(x), b, cls);
        Seq::filter_distributes_over_add(a, b, cls);
        a.lemma_filter_push(x, cls);
        inp.lemma_filter_push(x, cls);
        assert(out.filter(cls) == inp.filter(cls));
        if cls(x) {
            assert forall|k: int| 0 <= k < b.len() implies !cls(#[trigger] b[k]) by {
                assert(b[k] == out[p + k]);
                assert(!le(out[p + k], x));
                if le(y, b[k]) && le(b[k], y) {
                    assert(le(y, x));
                    assert(le(b[k], x));
                }
            }
            assert(b.all(|z: T| !cls(z)));
            b.lemma_all_neg_filter_empty(cls);
            assert(b.filter(cls) =~= Seq::<T>::empty());
            assert(a.filter(cls).push(x) + b.filter(cls) =~= (a.filter(cls) + b.filter(
                cls,
            )).push(x));
        }
    }
}


/// A stable sort loses nothing and adds nothing: the same items are in the
/// result as in the input.
pub proof fn stable_sort_keeps_items<T>(out: Seq<T>, inp: Seq<T>, le: spec_fn(T, T) -> bool, x: T)
    requires
        total_preorder(le),
        stable_sorted(out, inp, le),
    ensures
        out.contains(x) <==> inp.contains(x),
{
    let cls = same_rank(le, x);
    assert(le(x, x));
    assert(cls(x));
    assert(out.filter(cls) == inp.filter(cls));
    if out.contains(x) {
        let k = choose|k: int| 0 <= k < out.len() && out[k] == x;
        out.lemma_filter_contains(cls, k);
        inp.lemma_filter_contains_rev(cls, x);
    }
    if inp.contains(x) {
        let k = choose|k: int| 0 <= k < inp.len() && inp[k] == x;
        inp.lemma_filter_contains(cls, k);
        out.lemma_filter_contains_rev(cls, x);
    }
}

} // verus!
