//! What is left of a word when characters are dropped from it: the
//! subsequences that symmetric-delete spelling correction files words under.
use vstd::prelude::*;
use crate::damerau_levenshtein::{edit_distance, min_nat, osa_at, same_char, swapped_at};

verus! {

/// Whether `s` is what is left of `w` when some of its characters are
/// dropped, the rest keeping their order.
pub open spec fn is_subseq(s: Seq<char>, w: Seq<char>) -> bool
    decreases w.len(),
{
    if s.len() == 0 {
        true
    } else if w.len() == 0 {
        false
    } else if s.last() == w.last() && is_subseq(s.drop_last(), w.drop_last()) {
        true
    } else {
        is_subseq(s, w.drop_last())
    }
}

/// The strings `w` becomes when exactly `k` of its characters are dropped.
pub open spec fn drops_exactly(w: Seq<char>, k: nat) -> Set<Seq<char>> {
    Set::new(|s: Seq<char>| is_subseq(s, w) && s.len() + k == w.len())
}

/// `w` together with every string it becomes when up to `d` of its
/// characters are dropped.
pub open spec fn deletion_set(w: Seq<char>, d: nat) -> Set<Seq<char>> {
    Set::new(|s: Seq<char>| is_subseq(s, w) && w.len() <= s.len() + d)
}

pub proof fn lemma_subseq_len(s: Seq<char>, w: Seq<char>)
    requires
        is_subseq(s, w),
    ensures
        s.len() <= w.len(),
    decreases w.len(),
{
    if s.len() > 0 && w.len() > 0 {
        if s.last() == w.last() && is_subseq(s.drop_last(), w.drop_last()) {
            lemma_subseq_len(s.drop_last(), w.drop_last());
        } else {
            lemma_subseq_len(s, w.drop_last());
        }
    }
}

pub proof fn lemma_subseq_refl(w: Seq<char>)
    ensures
        is_subseq(w, w),
    decreases w.len(),
{
    if w.len() > 0 {
        lemma_subseq_refl(w.drop_last());
    }
}

pub proof fn lemma_subseq_same_len(s: Seq<char>, w: Seq<char>)
    requires
        is_subseq(s, w),
        s.len() == w.len(),
    ensures
        s == w,
    decreases w.len(),
{
    if w.len() == 0 {
        assert(s =~= w);
    } else if s.last() == w.last() && is_subseq(s.drop_last(), w.drop_last()) {
        lemma_subseq_same_len(s.drop_last(), w.drop_last());
        assert(s =~= s.drop_last().push(s.last()));
        assert(w =~= w.drop_last().push(w.last()));
    } else {
        lemma_subseq_len(s, w.drop_last());
    }
}

/// Keeping a character on both sides keeps a subsequence one.
pub proof fn lemma_subseq_push_both(s: Seq<char>, w: Seq<char>, c: char)
    requires
        is_subseq(s, w),
    ensures
        is_subseq(s.push(c), w.push(c)),
{
    assert(s.push(c).drop_last() =~= s);
    assert(w.push(c).drop_last() =~= w);
}

/// A subsequence of a word is one of any word that extends it.
pub proof fn lemma_subseq_push_right(s: Seq<char>, w: Seq<char>, c: char)
    requires
        is_subseq(s, w),
    ensures
        is_subseq(s, w.push(c)),
{
    assert(w.push(c).drop_last() =~= w);
}

/// Dropping one character leaves a subsequence.
pub proof fn lemma_subseq_remove(v: Seq<char>, at: int)
    requires
        0 <= at < v.len(),
    ensures
        is_subseq(v.remove(at), v),
    decreases v.len(),
{
    if at == v.len() - 1 {
        lemma_subseq_refl(v.drop_last());
        lemma_subseq_push_right(v.drop_last(), v.drop_last(), v.last());
        assert(v.remove(at) =~= v.drop_last());
        assert(v.drop_last().push(v.last()) =~= v);
    } else {
        lemma_subseq_remove(v.drop_last(), at);
        lemma_subseq_push_both(v.drop_last().remove(at), v.drop_last(), v.last());
        assert(v.drop_last().remove(at).push(v.last()) =~= v.remove(at));
        assert(v.drop_last().push(v.last()) =~= v);
    }
}

/// A subsequence of a subsequence is a subsequence.
pub proof fn lemma_subseq_trans(a: Seq<char>, b: Seq<char>, c: Seq<char>)
    requires
        is_subseq(a, b),
        is_subseq(b, c),
    ensures
        is_subseq(a, c),
    decreases c.len(),
{
    if a.len() == 0 {
    } else if b.len() == 0 {
    } else if c.len() == 0 {
    } else {
        let c0 = c.drop_last();
        if b.last() == c.last() && is_subseq(b.drop_last(), c0) {
            if a.last() == b.last() && is_subseq(a.drop_last(), b.drop_last()) {
                lemma_subseq_trans(a.drop_last(), b.drop_last(), c0);
            } else {
                lemma_subseq_trans(a, b.drop_last(), c0);
                lemma_subseq_push_right(a, c0, c.last());
                assert(c0.push(c.last()) =~= c);
            }
        } else {
            lemma_subseq_trans(a, b, c0);
            lemma_subseq_push_right(a, c0, c.last());
            assert(c0.push(c.last()) =~= c);
        }
    }
}

/// Every string that is `k + 1` drops away from `w` is one drop away from a
/// string `k` drops away from it.
pub proof fn lemma_unremove(s: Seq<char>, w: Seq<char>, k: nat) -> (found: (Seq<char>, int))
    requires
        is_subseq(s, w),
        s.len() + k + 1 == w.len(),
    ensures
        is_subseq(found.0, w),
        found.0.len() + k == w.len(),
        0 <= found.1 < found.0.len(),
        found.0.remove(found.1) == s,
    decreases w.len(),
{
    let p = w.drop_last();
    let x = w.last();
    assert(p.push(x) =~= w);
    if s.len() > 0 && s.last() == x && is_subseq(s.drop_last(), p) {
        let (v0, at) = lemma_unremove(s.drop_last(), p, k);
        lemma_subseq_push_both(v0, p, x);
        assert(v0.push(x).remove(at) =~= v0.remove(at).push(x));
        assert(s.drop_last().push(x) =~= s);
        (v0.push(x), at)
    } else {
        assert(is_subseq(s, p));
        if k == 0 {
            lemma_subseq_same_len(s, p);
            lemma_subseq_refl(w);
            assert(w.remove(w.len() - 1) =~= p);
            (w, w.len() - 1)
        } else {
            let (v0, at) = lemma_unremove(s, p, (k - 1) as nat);
            lemma_subseq_push_right(v0, p, x);
            (v0, at)
        }
    }
}

/// Each string one more drop away than `k` is what dropping a character of a
/// string `k` drops away leaves, and nothing else is.
pub proof fn lemma_drops_step(w: Seq<char>, k: nat, s: Seq<char>)
    ensures
        drops_exactly(w, k + 1).contains(s) <==> exists|v: Seq<char>, at: int|
            #![trigger drops_exactly(w, k).contains(v), v.remove(at)]
            drops_exactly(w, k).contains(v) && 0 <= at < v.len() && v.remove(at) == s,
{
    if drops_exactly(w, k + 1).contains(s) {
        let (v, at) = lemma_unremove(s, w, k);
        assert(drops_exactly(w, k).contains(v));
    }
    if exists|v: Seq<char>, at: int|
        #![trigger drops_exactly(w, k).contains(v), v.remove(at)]
        drops_exactly(w, k).contains(v) && 0 <= at < v.len() && v.remove(at) == s {
        let (v, at) = choose|v: Seq<char>, at: int|
            #![trigger drops_exactly(w, k).contains(v), v.remove(at)]
            drops_exactly(w, k).contains(v) && 0 <= at < v.len() && v.remove(at) == s;
        lemma_subseq_remove(v, at);
        lemma_subseq_trans(s, v, w);
    }
}

/// Whatever an alignment of two prefixes costs, dropping at most that many
/// characters from each side reaches a common string.
proof fn lemma_alignment_meets(a: Seq<char>, b: Seq<char>, i: nat, j: nat) -> (common: Seq<char>)
    requires
        i <= a.len(),
        j <= b.len(),
    ensures
        is_subseq(common, a.take(i as int)),
        is_subseq(common, b.take(j as int)),
        i <= common.len() + osa_at(a, b, same_char(), i, j),
        j <= common.len() + osa_at(a, b, same_char(), i, j),
    decreases i + j,
{
    let eq = same_char();
    let d = osa_at(a, b, eq, i, j);
    if i == 0 || j == 0 {
        Seq::<char>::empty()
    } else {
        let ai = a.take(i as int);
        let bj = b.take(j as int);
        assert(ai =~= a.take(i - 1).push(a[i - 1]));
        assert(bj =~= b.take(j - 1).push(b[j - 1]));
        let cost: nat = if eq(a[i - 1], b[j - 1]) {
            0
        } else {
            1
        };
        let diag = osa_at(a, b, eq, (i - 1) as nat, (j - 1) as nat) + cost;
        let del = osa_at(a, b, eq, (i - 1) as nat, j) + 1;
        let ins = osa_at(a, b, eq, i, (j - 1) as nat) + 1;
        let best = min_nat(min_nat(diag, del), ins);
        if swapped_at(a, b, eq, i, j) && osa_at(a, b, eq, (i - 2) as nat, (j - 2) as nat) + 1 < best {
            let s = lemma_alignment_meets(a, b, (i - 2) as nat, (j - 2) as nat);
            let x = a[i - 2];
            assert(x == b[j - 1]);
            let y = a[i - 1];
            assert(y == b[j - 2]);
            assert(a.take(i - 1) =~= a.take(i - 2).push(x));
            assert(b.take(j - 1) =~= b.take(j - 2).push(y));
            lemma_subseq_push_both(s, a.take(i - 2), x);
            lemma_subseq_push_right(s.push(x), a.take(i - 1), y);
            lemma_subseq_push_right(s, b.take(j - 2), y);
            lemma_subseq_push_both(s, b.take(j - 1), x);
            s.push(x)
        } else if diag == best {
            let s = lemma_alignment_meets(a, b, (i - 1) as nat, (j - 1) as nat);
            if cost == 0 {
                lemma_subseq_push_both(s, a.take(i - 1), a[i - 1]);
                lemma_subseq_push_both(s, b.take(j - 1), b[j - 1]);
                s.push(a[i - 1])
            } else {
                lemma_subseq_push_right(s, a.take(i - 1), a[i - 1]);
                lemma_subseq_push_right(s, b.take(j - 1), b[j - 1]);
                s
            }
        } else if del == best {
            let s = lemma_alignment_meets(a, b, (i - 1) as nat, j);
            lemma_subseq_push_right(s, a.take(i - 1), a[i - 1]);
            s
        } else {
            let s = lemma_alignment_meets(a, b, i, (j - 1) as nat);
            lemma_subseq_push_right(s, b.take(j - 1), b[j - 1]);
            s
        }
    }
}

/// Two words within `d` edits of each other meet on a string each becomes
/// when at most `d` of its characters are dropped - which is why looking a
/// query up by its deletions finds every word within `d` of it.
pub proof fn law_deletions_meet(query: Seq<char>, word: Seq<char>, d: nat)
    requires
        edit_distance(query, word) <= d,
    ensures
        exists|s: Seq<char>| #[trigger] deletion_set(query, d).contains(s) && deletion_set(word, d).contains(s),
{
    let s = lemma_alignment_meets(query, word, query.len(), word.len());
    assert(query.take(query.len() as int) =~= query);
    assert(word.take(word.len() as int) =~= word);
    assert(deletion_set(query, d).contains(s));
    assert(deletion_set(word, d).contains(s));
}

/// A word is among the strings it is filed under, so a query that is spelled
/// correctly meets its own entry.
pub proof fn law_word_among_its_deletes(word: Seq<char>, d: nat)
    ensures
        deletion_set(word, d).contains(word),
{
    lemma_subseq_refl(word);
}

} // verus!
