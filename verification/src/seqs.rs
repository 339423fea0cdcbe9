//! Sequence combinators that the specifications of the crate are written with.

use vstd::prelude::*;

verus! {

/// The views of a sequence of values, in order.
pub open spec fn views<T: View>(s: Seq<T>) -> Seq<T::V> {
    Seq::new(s.len(), |i: int| s[i]@)
}

/// The view of an optional value.
pub open spec fn opt_view<T: View>(o: Option<T>) -> Option<T::V> {
    match o {
        Some(t) => Some(t@),
        None => None,
    }
}

/// The concatenation of `f(x)` over the elements `x` of `s`, in order.
pub open spec fn flat<A, B>(s: Seq<A>, f: spec_fn(A) -> Seq<B>) -> Seq<B>
    decreases s.len(),
{
    if s.len() == 0 {
        Seq::empty()
    } else {
        flat(s.drop_last(), f) + f(s.last())
    }
}

/// The elements of `s` that are not equal to an earlier one, in order.
pub open spec fn dedup<A>(s: Seq<A>) -> Seq<A>
    decreases s.len(),
{
    if s.len() == 0 {
        s
    } else if dedup(s.drop_last()).contains(s.last()) {
        dedup(s.drop_last())
    } else {
        dedup(s.drop_last()).push(s.last())
    }
}

/// `s`, and after it the elements of `add` that are new, in order.
pub open spec fn extend_new<A>(s: Seq<A>, add: Seq<A>) -> Seq<A>
    decreases add.len(),
{
    if add.len() == 0 {
        s
    } else if extend_new(s, add.drop_last()).contains(add.last()) {
        extend_new(s, add.drop_last())
    } else {
        extend_new(s, add.drop_last()).push(add.last())
    }
}

/// The elements of `s` that satisfy `p`, in order.
pub open spec fn keep<A>(s: Seq<A>, p: spec_fn(A) -> bool) -> Seq<A>
    decreases s.len(),
{
    if s.len() == 0 {
        s
    } else if p(s.last()) {
        keep(s.drop_last(), p).push(s.last())
    } else {
        keep(s.drop_last(), p)
    }
}

/// The first result that `f` has on an element of `s`.
pub open spec fn first_some<A, B>(s: Seq<A>, f: spec_fn(A) -> Option<B>) -> Option<B>
    decreases s.len(),
{
    if s.len() == 0 {
        None
    } else if f(s[0]) is Some {
        f(s[0])
    } else {
        first_some(s.skip(1), f)
    }
}

/// The least index whose element satisfies `p`, or the length if there is none.
pub open spec fn first_where<A>(s: Seq<A>, p: spec_fn(A) -> bool) -> int
    decreases s.len(),
{
    if s.len() == 0 {
        0
    } else if p(s[0]) {
        0
    } else {
        1 + first_where(s.skip(1), p)
    }
}

pub proof fn lemma_extend_new_one<A>(s: Seq<A>, x: A)
    ensures
        extend_new(s, seq![x]) == if s.contains(x) {
            s
        } else {
            s.push(x)
        },
{
    assert(seq![x].drop_last() =~= Seq::<A>::empty());
    reveal_with_fuel(extend_new, 2);
}

/// Extending by one list and then another is extending by both.
pub proof fn lemma_extend_new_concat<A>(s: Seq<A>, a: Seq<A>, b: Seq<A>)
    ensures
        extend_new(s, a + b) == extend_new(extend_new(s, a), b),
    decreases b.len(),
{
    if b.len() == 0 {
        assert(a + b =~= a);
    } else {
        assert((a + b).drop_last() =~= a + b.drop_last());
        assert((a + b).last() == b.last());
        lemma_extend_new_concat(s, a, b.drop_last());
    }
}

/// What was there stays in place, what was added is there, nothing else is, and if nothing was
/// there twice, nothing is.
pub proof fn lemma_extend_new<A>(s: Seq<A>, add: Seq<A>)
    ensures
        s.is_prefix_of(extend_new(s, add)),
        forall|a: A| #[trigger]
            extend_new(s, add).contains(a) <==> s.contains(a) || add.contains(a),
        s.no_duplicates() ==> extend_new(s, add).no_duplicates(),
    decreases add.len(),
{
    if add.len() > 0 {
        let t = add.drop_last();
        let e = extend_new(s, t);
        let r = extend_new(s, add);
        lemma_extend_new(s, t);
        assert(s =~= r.subrange(0, s.len() as int)) by {
            assert(s =~= e.subrange(0, s.len() as int));
            assert forall|i: int| 0 <= i < s.len() implies s[i] == #[trigger] r[i] by {
                assert(e.subrange(0, s.len() as int)[i] == e[i]);
            }
        }
        assert forall|a: A| #[trigger] r.contains(a) <==> s.contains(a) || add.contains(a) by {
            if add.contains(a) {
                let i = choose|i: int| 0 <= i < add.len() && add[i] == a;
                if i < t.len() {
                    assert(t[i] == a);
                    assert(t.contains(a));
                }
            }
            if t.contains(a) {
                let i = choose|i: int| 0 <= i < t.len() && t[i] == a;
                assert(add[i] == a);
            }
            assert(add[add.len() - 1] == add.last());
            if r.contains(a) {
                let i = choose|i: int| 0 <= i < r.len() && r[i] == a;
                if i < e.len() {
                    assert(e[i] == a);
                    assert(e.contains(a));
                }
            }
            if e.contains(a) {
                let i = choose|i: int| 0 <= i < e.len() && e[i] == a;
                assert(r[i] == a);
            }
            if a == add.last() && !e.contains(a) {
                assert(r[r.len() - 1] == a);
            }
        }
        if s.no_duplicates() && !e.contains(add.last()) {
            assert forall|i: int, j: int| 0 <= i < r.len() && 0 <= j < r.len() && i
                != j implies r[i] != r[j] by {
                if i < e.len() && j < e.len() {
                    assert(e[i] != e[j]);
                } else if i < e.len() {
                    assert(e.contains(e[i]));
                } else {
                    assert(e.contains(e[j]));
                }
            }
        }
    }
}

/// Extending by what is there already changes nothing.
pub proof fn lemma_extend_new_fixed<A>(s: Seq<A>, add: Seq<A>)
    requires
        forall|i: int| 0 <= i < add.len() ==> s.contains(#[trigger] add[i]),
    ensures
        extend_new(s, add) == s,
    decreases add.len(),
{
    if add.len() > 0 {
        lemma_extend_new_fixed(s, add.drop_last());
        assert(s.contains(add[add.len() - 1]));
    }
}

pub proof fn lemma_views_push<T: View>(s: Seq<T>, x: T)
    ensures
        views(s.push(x)) == views(s).push(x@),
{
    assert(views(s.push(x)) =~= views(s).push(x@));
}

/// The prefix of length `i + 1` is the prefix of length `i` with one element more.
pub proof fn lemma_take_next<A>(s: Seq<A>, i: int)
    requires
        0 <= i < s.len(),
    ensures
        s.take(i + 1) == s.take(i).push(s[i]),
        s.take(i + 1).drop_last() == s.take(i),
        s.take(i + 1).last() == s[i],
{
    assert(s.take(i + 1) =~= s.take(i).push(s[i]));
    assert(s.take(i + 1).drop_last() =~= s.take(i));
}

pub proof fn lemma_take_all<A>(s: Seq<A>)
    ensures
        s.take(s.len() as int) == s,
{
    assert(s.take(s.len() as int) =~= s);
}

pub proof fn lemma_flat_next<A, B>(s: Seq<A>, f: spec_fn(A) -> Seq<B>, i: int)
    requires
        0 <= i < s.len(),
    ensures
        flat(s.take(i + 1), f) == flat(s.take(i), f) + f(s[i]),
{
    lemma_take_next(s, i);
}

/// What `flat` holds at the end comes from some element of the input.
pub proof fn lemma_flat_contains<A, B>(s: Seq<A>, f: spec_fn(A) -> Seq<B>, b: B)
    ensures
        flat(s, f).contains(b) <==> exists|i: int| 0 <= i < s.len() && #[trigger] f(s[i]).contains(b),
    decreases s.len(),
{
    if s.len() > 0 {
        let t = s.drop_last();
        lemma_flat_contains(t, f, b);
        let l = flat(t, f);
        let r = f(s.last());
        if flat(s, f).contains(b) {
            let k = choose|k: int| 0 <= k < flat(s, f).len() && flat(s, f)[k] == b;
            if k < l.len() {
                assert(l[k] == b);
                assert(l.contains(b));
                let i = choose|i: int| 0 <= i < t.len() && #[trigger] f(t[i]).contains(b);
                assert(s[i] == t[i]);
                assert(f(s[i]).contains(b));
            } else {
                assert(r[k - l.len()] == b);
                assert(f(s[s.len() - 1]).contains(b));
            }
        }
        if exists|i: int| 0 <= i < s.len() && #[trigger] f(s[i]).contains(b) {
            let i = choose|i: int| 0 <= i < s.len() && #[trigger] f(s[i]).contains(b);
            if i < t.len() {
                assert(t[i] == s[i]);
                assert(f(t[i]).contains(b));
                let k = choose|k: int| 0 <= k < l.len() && l[k] == b;
                assert(flat(s, f)[k] == b);
            } else {
                let k = choose|k: int| 0 <= k < r.len() && r[k] == b;
                assert(flat(s, f)[l.len() + k] == b);
            }
        }
    }
}

/// Removing duplicates keeps exactly the elements, and leaves none twice.
pub proof fn lemma_dedup<A>(s: Seq<A>)
    ensures
        dedup(s).no_duplicates(),
        forall|a: A| #[trigger] dedup(s).contains(a) <==> s.contains(a),
    decreases s.len(),
{
    if s.len() > 0 {
        let t = s.drop_last();
        lemma_dedup(t);
        assert forall|a: A| #[trigger] dedup(s).contains(a) <==> s.contains(a) by {
            if s.contains(a) {
                let i = choose|i: int| 0 <= i < s.len() && s[i] == a;
                if i < t.len() {
                    assert(t[i] == a);
                    assert(dedup(t).contains(a));
                    let k = choose|k: int| 0 <= k < dedup(t).len() && dedup(t)[k] == a;
                    assert(dedup(s)[k] == a);
                } else if !dedup(t).contains(s.last()) {
                    assert(dedup(s)[dedup(t).len() as int] == a);
                }
            }
            if dedup(s).contains(a) {
                let k = choose|k: int| 0 <= k < dedup(s).len() && dedup(s)[k] == a;
                if k < dedup(t).len() {
                    assert(dedup(t)[k] == a);
                    assert(dedup(t).contains(a));
                    assert(t.contains(a));
                    let i = choose|i: int| 0 <= i < t.len() && t[i] == a;
                    assert(s[i] == a);
                } else {
                    assert(s[s.len() - 1] == a);
                }
            }
        }
    }
}

/// A sequence without duplicates is left as it is.
pub proof fn lemma_dedup_fixed<A>(s: Seq<A>)
    requires
        s.no_duplicates(),
    ensures
        dedup(s) == s,
    decreases s.len(),
{
    if s.len() > 0 {
        lemma_dedup_fixed(s.drop_last());
        assert(s.drop_last().push(s.last()) =~= s);
        if s.drop_last().contains(s.last()) {
            let i = choose|i: int| 0 <= i < s.len() - 1 && s.drop_last()[i] == s.last();
            assert(s[i] == s[s.len() - 1]);
        }
    }
}

/// What `keep` holds.
pub proof fn lemma_keep<A>(s: Seq<A>, p: spec_fn(A) -> bool)
    ensures
        keep(s, p).len() <= s.len(),
        forall|a: A| #[trigger] keep(s, p).contains(a) <==> s.contains(a) && p(a),
    decreases s.len(),
{
    if s.len() > 0 {
        let t = s.drop_last();
        lemma_keep(t, p);
        assert forall|a: A| #[trigger] keep(s, p).contains(a) <==> s.contains(a) && p(a) by {
            if s.contains(a) && p(a) {
                let i = choose|i: int| 0 <= i < s.len() && s[i] == a;
                if i < t.len() {
                    assert(t[i] == a);
                    assert(keep(t, p).contains(a));
                    let k = choose|k: int| 0 <= k < keep(t, p).len() && keep(t, p)[k] == a;
                    assert(keep(s, p)[k] == a);
                } else {
                    assert(keep(s, p)[keep(t, p).len() as int] == a);
                }
            }
            if keep(s, p).contains(a) {
                let k = choose|k: int| 0 <= k < keep(s, p).len() && keep(s, p)[k] == a;
                if k < keep(t, p).len() {
                    assert(keep(t, p)[k] == a);
                    assert(keep(t, p).contains(a));
                    assert(t.contains(a));
                    let i = choose|i: int| 0 <= i < t.len() && t[i] == a;
                    assert(s[i] == a);
                } else {
                    assert(s[s.len() - 1] == a);
                }
            }
        }
    }
}

pub proof fn lemma_first_where<A>(s: Seq<A>, p: spec_fn(A) -> bool)
    ensures
        0 <= first_where(s, p) <= s.len(),
        first_where(s, p) < s.len() ==> p(s[first_where(s, p)]),
        forall|j: int| 0 <= j < first_where(s, p) ==> !p(#[trigger] s[j]),
    decreases s.len(),
{
    if s.len() > 0 && !p(s[0]) {
        lemma_first_where(s.skip(1), p);
        assert forall|j: int| 0 <= j < first_where(s, p) implies !p(#[trigger] s[j]) by {
            if j > 0 {
                assert(s.skip(1)[j - 1] == s[j]);
            }
        }
    }
}

pub proof fn lemma_first_where_is<A>(s: Seq<A>, p: spec_fn(A) -> bool, i: int)
    requires
        0 <= i <= s.len(),
        i < s.len() ==> p(s[i]),
        forall|j: int| 0 <= j < i ==> !p(#[trigger] s[j]),
    ensures
        first_where(s, p) == i,
{
    lemma_first_where(s, p);
    let f = first_where(s, p);
    if f < i {
        assert(!p(s[f]));
    } else if i < f {
        assert(!p(s[i]));
    }
}

/// There is a first result exactly if there is one.
pub proof fn lemma_first_some<A, B>(s: Seq<A>, f: spec_fn(A) -> Option<B>)
    ensures
        first_some(s, f) is None <==> forall|i: int| 0 <= i < s.len() ==> f(#[trigger] s[i]) is None,
    decreases s.len(),
{
    if s.len() > 0 && f(s[0]) is None {
        let t = s.skip(1);
        lemma_first_some(t, f);
        if first_some(t, f) is None {
            assert forall|i: int| 0 <= i < s.len() implies f(#[trigger] s[i]) is None by {
                if i > 0 {
                    assert(t[i - 1] == s[i]);
                }
            }
        } else if forall|i: int| 0 <= i < s.len() ==> f(#[trigger] s[i]) is None {
            assert forall|i: int| 0 <= i < t.len() implies f(#[trigger] t[i]) is None by {
                assert(t[i] == s[i + 1]);
            }
        }
    }
}

pub proof fn lemma_first_some_is<A, B>(s: Seq<A>, f: spec_fn(A) -> Option<B>, i: int)
    requires
        0 <= i <= s.len(),
        forall|j: int| 0 <= j < i ==> f(#[trigger] s[j]) is None,
        i < s.len() ==> f(s[i]) is Some,
    ensures
        first_some(s, f) == if i < s.len() {
            f(s[i])
        } else {
            None
        },
    decreases s.len(),
{
    if s.len() > 0 && i > 0 {
        let t = s.skip(1);
        assert(f(s[0]) is None);
        assert forall|j: int| 0 <= j < i - 1 implies f(#[trigger] t[j]) is None by {
            assert(t[j] == s[j + 1]);
        }
        lemma_first_some_is(t, f, i - 1);
    }
}

} // verus!
