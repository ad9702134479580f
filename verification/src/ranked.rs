//! Keeping answers in order: a strict total order on what a value stands for,
//! and insertion into a vector that is kept sorted by it.
use vstd::prelude::*;
use crate::text::{chars_before, lemma_lex_irreflexive, lemma_lex_total, lemma_lex_transitive, lex_lt};

verus! {

/// A type whose values are answered in a fixed order: a strict total order on
/// their views.
pub trait Ranked: View + Sized {
    /// Whether `a` is answered before `b`.
    spec fn ranks_before(a: Self::V, b: Self::V) -> bool;

    /// The order is irreflexive, transitive and total.
    proof fn lemma_ranking(a: Self::V, b: Self::V, c: Self::V)
        ensures
            !Self::ranks_before(a, a),
            Self::ranks_before(a, b) && Self::ranks_before(b, c) ==> Self::ranks_before(a, c),
            a != b ==> Self::ranks_before(a, b) || Self::ranks_before(b, a),
    ;

    /// Returns whether `self` is answered before `other`.
    fn precedes(&self, other: &Self) -> (before: bool)
        ensures
            before == Self::ranks_before(self@, other@),
    ;
}

/// The views of a sequence of values.
pub open spec fn views<T: View>(s: Seq<T>) -> Seq<T::V> {
    s.map_values(|x: T| x@)
}

/// Whether a sequence of views is in strictly increasing order.
pub open spec fn ranked<T: Ranked>(s: Seq<T::V>) -> bool {
    forall|i: int, j: int| 0 <= i < j < s.len() ==> T::ranks_before(#[trigger] s[i], #[trigger] s[j])
}

impl Ranked for Vec<char> {
    open spec fn ranks_before(a: Seq<char>, b: Seq<char>) -> bool {
        lex_lt(a, b)
    }

    proof fn lemma_ranking(a: Seq<char>, b: Seq<char>, c: Seq<char>) {
        lemma_lex_irreflexive(a);
        if lex_lt(a, b) && lex_lt(b, c) {
            lemma_lex_transitive(a, b, c);
        }
        if a != b {
            lemma_lex_total(a, b);
        }
    }

    fn precedes(&self, other: &Self) -> (before: bool) {
        chars_before(self.as_slice(), other.as_slice())
    }
}

/// A strictly increasing sequence holds no view twice.
pub proof fn lemma_ranked_distinct<T: Ranked>(s: Seq<T::V>, i: int, j: int)
    requires
        ranked::<T>(s),
        0 <= i < s.len(),
        0 <= j < s.len(),
        i != j,
    ensures
        s[i] != s[j],
{
    T::lemma_ranking(s[i], s[j], s[i]);
    if i > j {
        T::lemma_ranking(s[j], s[i], s[j]);
    }
}

/// A view placed after everything that ranks before it and before
/// everything it ranks before keeps a sequence strictly increasing.
pub proof fn lemma_ranked_insert<T: Ranked>(s: Seq<T::V>, at: int, x: T::V)
    requires
        ranked::<T>(s),
        0 <= at <= s.len(),
        forall|j: int| 0 <= j < at ==> T::ranks_before(#[trigger] s[j], x),
        forall|j: int| at <= j < s.len() ==> T::ranks_before(x, #[trigger] s[j]),
    ensures
        ranked::<T>(s.insert(at, x)),
{
    let t = s.insert(at, x);
    assert forall|i: int, j: int| 0 <= i < j < t.len() implies T::ranks_before(#[trigger] t[i], #[trigger] t[j]) by {
        if j < at {
        } else if j == at {
        } else if i < at {
            T::lemma_ranking(s[i], x, s[j - 1]);
        } else if i == at {
        } else {
            assert(T::ranks_before(s[i - 1], s[j - 1]));
        }
    }
}

/// Where a view not in a strictly increasing sequence goes: after everything
/// that ranks before it, before everything else.
proof fn lemma_insert_point<T: Ranked>(s: Seq<T::V>, x: T::V) -> (at: int)
    requires
        ranked::<T>(s),
        !s.contains(x),
    ensures
        0 <= at <= s.len(),
        forall|j: int| 0 <= j < at ==> T::ranks_before(#[trigger] s[j], x),
        forall|j: int| at <= j < s.len() ==> T::ranks_before(x, #[trigger] s[j]),
    decreases s.len(),
{
    if s.len() == 0 {
        0
    } else if T::ranks_before(s.last(), x) {
        assert forall|j: int| 0 <= j < s.len() implies T::ranks_before(#[trigger] s[j], x) by {
            if j < s.len() - 1 {
                T::lemma_ranking(s[j], s.last(), x);
            }
        }
        s.len() as int
    } else {
        let rest = s.drop_last();
        assert forall|i: int, j: int| 0 <= i < j < rest.len() implies T::ranks_before(#[trigger] rest[i], #[trigger] rest[j]) by {
            assert(rest[i] == s[i] && rest[j] == s[j]);
        }
        assert(!rest.contains(x)) by {
            if rest.contains(x) {
                let j = choose|j: int| 0 <= j < rest.len() && rest[j] == x;
                assert(s[j] == x);
            }
        }
        let at = lemma_insert_point::<T>(rest, x);
        assert(s.last() != x) by {
            assert(s[s.len() - 1] == s.last());
        }
        T::lemma_ranking(x, s.last(), x);
        assert forall|j: int| 0 <= j < at implies T::ranks_before(#[trigger] s[j], x) by {
            assert(rest[j] == s[j]);
        }
        assert forall|j: int| at <= j < s.len() implies T::ranks_before(x, #[trigger] s[j]) by {
            if j < s.len() - 1 {
                assert(rest[j] == s[j]);
            }
        }
        at
    }
}

/// Every finite set of views can be listed in rank order.
pub proof fn lemma_ranked_exists<T: Ranked>(views: Set<T::V>)
    requires
        views.finite(),
    ensures
        exists|s: Seq<T::V>| ranked::<T>(s) && s.to_set() == views,
    decreases views.len(),
{
    if views.len() == 0 {
        let s = Seq::<T::V>::empty();
        assert(s.to_set() =~= views);
        assert(ranked::<T>(s));
    } else {
        let x = views.choose();
        let rest = views.remove(x);
        lemma_ranked_exists::<T>(rest);
        let s = choose|s: Seq<T::V>| ranked::<T>(s) && s.to_set() == rest;
        assert(!s.contains(x)) by {
            if s.contains(x) {
                assert(s.to_set().contains(x));
            }
        }
        let at = lemma_insert_point::<T>(s, x);
        lemma_ranked_insert::<T>(s, at, x);
        let t = s.insert(at, x);
        assert forall|v: T::V| #[trigger] t.to_set().contains(v) <==> views.contains(v) by {
            if t.to_set().contains(v) {
                let j = choose|j: int| 0 <= j < t.len() && t[j] == v;
                if j < at {
                    assert(s[j] == v);
                    assert(s.to_set().contains(v));
                } else if j > at {
                    assert(s[j - 1] == v);
                    assert(s.to_set().contains(v));
                }
            }
            if views.contains(v) {
                if v == x {
                    assert(t[at] == x);
                } else {
                    assert(rest.contains(v));
                    assert(s.to_set().contains(v));
                    let j = choose|j: int| 0 <= j < s.len() && s[j] == v;
                    if j < at {
                        assert(t[j] == v);
                    } else {
                        assert(t[j + 1] == v);
                    }
                }
            }
        }
        assert(t.to_set() =~= views);
    }
}

/// An answer in rank order is determined by what it holds: two strictly
/// increasing sequences with the same elements are the same sequence.
pub proof fn law_ranked_unique<T: Ranked>(a: Seq<T::V>, b: Seq<T::V>)
    requires
        ranked::<T>(a),
        ranked::<T>(b),
        a.to_set() == b.to_set(),
    ensures
        a == b,
    decreases a.len(),
{
    if a.len() == 0 {
        if b.len() > 0 {
            assert(b.to_set().contains(b[0]));
        }
        assert(a =~= b);
    } else {
        assert(a.to_set().contains(a.last()));
        let x = a.last();
        assert(b.len() > 0) by {
            assert(b.to_set().contains(x));
        }
        let y = b.last();
        assert(b.to_set().contains(y));
        let i = choose|i: int| 0 <= i < a.len() && a[i] == y;
        let j = choose|j: int| 0 <= j < b.len() && b[j] == x;
        if x != y {
            assert(i < a.len() - 1);
            assert(j < b.len() - 1);
            assert(T::ranks_before(a[i], a[a.len() - 1]));
            assert(T::ranks_before(b[j], b[b.len() - 1]));
            T::lemma_ranking(x, y, x);
        }
        let (a0, b0) = (a.drop_last(), b.drop_last());
        assert(ranked::<T>(a0)) by {
            assert forall|p: int, q: int| 0 <= p < q < a0.len() implies T::ranks_before(#[trigger] a0[p], #[trigger] a0[q]) by {
                assert(a0[p] == a[p] && a0[q] == a[q]);
            }
        }
        assert(ranked::<T>(b0)) by {
            assert forall|p: int, q: int| 0 <= p < q < b0.len() implies T::ranks_before(#[trigger] b0[p], #[trigger] b0[q]) by {
                assert(b0[p] == b[p] && b0[q] == b[q]);
            }
        }
        assert forall|v: T::V| #[trigger] a0.to_set().contains(v) <==> b0.to_set().contains(v) by {
            if a0.to_set().contains(v) {
                let p = choose|p: int| 0 <= p < a0.len() && a0[p] == v;
                assert(a.to_set().contains(v));
                let q = choose|q: int| 0 <= q < b.len() && b[q] == v;
                if q == b.len() - 1 {
                    lemma_ranked_distinct::<T>(a, p, a.len() - 1);
                }
                assert(b0[q] == v);
            }
            if b0.to_set().contains(v) {
                let q = choose|q: int| 0 <= q < b0.len() && b0[q] == v;
                assert(b.to_set().contains(v));
                let p = choose|p: int| 0 <= p < a.len() && a[p] == v;
                if p == a.len() - 1 {
                    lemma_ranked_distinct::<T>(b, q, b.len() - 1);
                }
                assert(a0[p] == v);
            }
        }
        assert(a0.to_set() =~= b0.to_set());
        law_ranked_unique::<T>(a0, b0);
        assert(a =~= a0.push(x));
        assert(b =~= b0.push(y));
    }
}

/// Inserts `item` into `sorted` at the place its rank gives it.
pub fn insert_ranked<T: Ranked>(sorted: &mut Vec<T>, item: T)
    requires
        ranked::<T>(views(old(sorted)@)),
        !views(old(sorted)@).contains(item@),
    ensures
        ranked::<T>(views(final(sorted)@)),
        final(sorted)@.len() == old(sorted)@.len() + 1,
        views(final(sorted)@).to_set() == views(old(sorted)@).to_set().insert(item@),
        exists|p: int| 0 <= p <= old(sorted)@.len() && final(sorted)@ == old(sorted)@.insert(p, item),
{
    let ghost old_views = views(sorted@);
    let mut at: usize = 0;
    while at < sorted.len() && sorted[at].precedes(&item)
        invariant
            at <= sorted@.len(),
            old_views == views(sorted@),
            forall|q: int| 0 <= q < at ==> T::ranks_before(#[trigger] old_views[q], item@),
        decreases sorted.len() - at,
    {
        at = at + 1;
    }
    proof {
        if at < sorted@.len() {
            assert(!T::ranks_before(old_views[at as int], item@));
            assert(old_views[at as int] != item@);
            T::lemma_ranking(old_views[at as int], item@, old_views[at as int]);
            assert(T::ranks_before(item@, old_views[at as int]));
            assert forall|q: int| at <= q < old_views.len() implies T::ranks_before(
                item@,
                #[trigger] old_views[q],
            ) by {
                if q > at {
                    T::lemma_ranking(item@, old_views[at as int], old_views[q]);
                }
            }
        }
    }
    let ghost old_seq = sorted@;
    sorted.insert(at, item);
    proof {
        let new_views = views(sorted@);
        assert(new_views =~= old_views.insert(at as int, item@));
        assert forall|i: int, j: int| 0 <= i < j < new_views.len() implies T::ranks_before(
            #[trigger] new_views[i],
            #[trigger] new_views[j],
        ) by {
            if j < at {
            } else if j == at {
            } else if i < at {
                T::lemma_ranking(old_views[i], item@, old_views[j - 1]);
            } else if i == at {
            } else {
            }
        }
        assert(new_views.to_set() =~= old_views.to_set().insert(item@)) by {
            assert forall|x: T::V| new_views.to_set().contains(x) implies old_views.to_set().insert(
                item@,
            ).contains(x) by {
                let k = choose|k: int| 0 <= k < new_views.len() && new_views[k] == x;
                if k < at {
                    assert(old_views[k] == x);
                } else if k > at {
                    assert(old_views[k - 1] == x);
                }
            }
            assert forall|x: T::V| old_views.to_set().insert(item@).contains(x) implies new_views.to_set().contains(
                x,
            ) by {
                if x == item@ {
                    assert(new_views[at as int] == x);
                } else {
                    let k = choose|k: int| 0 <= k < old_views.len() && old_views[k] == x;
                    if k < at {
                        assert(new_views[k] == x);
                    } else {
                        assert(new_views[k + 1] == x);
                    }
                }
            }
        }
        assert(sorted@ == old_seq.insert(at as int, item));
    }
}

/// Inserts `item` into `sorted` at the place its rank gives it, unless a
/// value with the same view is already there. Returns whether it inserted.
pub fn insert_unique<T: Ranked>(sorted: &mut Vec<T>, item: T) -> (inserted: bool)
    requires
        ranked::<T>(views(old(sorted)@)),
    ensures
        ranked::<T>(views(final(sorted)@)),
        views(final(sorted)@).to_set() == views(old(sorted)@).to_set().insert(item@),
        inserted == !views(old(sorted)@).contains(item@),
        inserted ==> final(sorted)@.len() == old(sorted)@.len() + 1,
        !inserted ==> final(sorted)@ == old(sorted)@,
{
    let ghost old_views = views(sorted@);
    let mut at: usize = 0;
    while at < sorted.len() && sorted[at].precedes(&item)
        invariant
            at <= sorted@.len(),
            old_views == views(sorted@),
            forall|q: int| 0 <= q < at ==> T::ranks_before(#[trigger] old_views[q], item@),
        decreases sorted.len() - at,
    {
        at = at + 1;
    }
    if at < sorted.len() && !item.precedes(&sorted[at]) {
        proof {
            T::lemma_ranking(old_views[at as int], item@, old_views[at as int]);
            assert(old_views[at as int] == item@);
            assert(views(sorted@).to_set() =~= old_views.to_set().insert(item@));
        }
        return false;
    }
    proof {
        assert(!old_views.contains(item@)) by {
            if old_views.contains(item@) {
                let q = choose|q: int| 0 <= q < old_views.len() && old_views[q] == item@;
                if q < at {
                    T::lemma_ranking(item@, item@, item@);
                } else {
                    T::lemma_ranking(item@, old_views[at as int], old_views[q]);
                    T::lemma_ranking(item@, item@, item@);
                }
            }
        }
    }
    insert_ranked(sorted, item);
    true
}

} // verus!
