//! The restricted Damerau-Levenshtein distance, also known as the optimal
//! string alignment distance.
//!
//! Four edits cost one each: inserting an element, deleting one, substituting
//! one for another, and transposing two adjacent ones. "Restricted" is the
//! transposition's small print: a pair that was swapped cannot then be edited
//! again, which is what keeps every cell of the matrix reading only the two
//! rows above it.
//!
//! The distance is symmetric and zero only for equal sequences, but it is not
//! a metric: the triangle inequality fails (`CA` to `ABC` is three edits, `CA`
//! to `AC` to `ABC` two).
use vstd::prelude::*;
use vstd::std_specs::cmp::PartialEqSpec;
use crate::text::{chars_of, lemma_char_code_injective};

verus! {

/// The smaller of two naturals.
pub open spec fn min_nat(x: nat, y: nat) -> nat {
    if x <= y {
        x
    } else {
        y
    }
}

/// The larger of two naturals.
pub open spec fn max_nat(x: nat, y: nat) -> nat {
    if x >= y {
        x
    } else {
        y
    }
}

/// Whether the last two elements of `a[..i]` are the last two of `b[..j]`
/// swapped, as `eq` compares elements.
pub open spec fn swapped_at<T>(a: Seq<T>, b: Seq<T>, eq: spec_fn(T, T) -> bool, i: nat, j: nat) -> bool {
    &&& i >= 2
    &&& j >= 2
    &&& eq(a[i - 1], b[j - 2])
    &&& eq(a[i - 2], b[j - 1])
}

/// The cheapest restricted alignment of the prefixes `a[..i]` and `b[..j]`,
/// with elements compared by `eq`: the recurrence that defines the optimal
/// string alignment distance.
pub open spec fn osa_at<T>(a: Seq<T>, b: Seq<T>, eq: spec_fn(T, T) -> bool, i: nat, j: nat) -> nat
    decreases i + j,
{
    if i == 0 {
        j
    } else if j == 0 {
        i
    } else {
        let cost: nat = if eq(a[i - 1], b[j - 1]) {
            0
        } else {
            1
        };
        let best = min_nat(
            min_nat(osa_at(a, b, eq, (i - 1) as nat, (j - 1) as nat) + cost, osa_at(a, b, eq, (i - 1) as nat, j) + 1),
            osa_at(a, b, eq, i, (j - 1) as nat) + 1,
        );
        if swapped_at(a, b, eq, i, j) {
            min_nat(best, osa_at(a, b, eq, (i - 2) as nat, (j - 2) as nat) + 1)
        } else {
            best
        }
    }
}

/// The optimal string alignment distance between two whole sequences.
pub open spec fn osa_by<T>(a: Seq<T>, b: Seq<T>, eq: spec_fn(T, T) -> bool) -> nat {
    osa_at(a, b, eq, a.len(), b.len())
}

/// Element equality as a type's `PartialEq` defines it.
pub open spec fn eq_rel<T: PartialEq>() -> spec_fn(T, T) -> bool {
    |x: T, y: T| x.eq_spec(&y)
}

/// Characters compared as Unicode scalar values.
pub open spec fn same_char() -> spec_fn(char, char) -> bool {
    |x: char, y: char| x == y
}

/// The number of edits between two words, compared character by character.
pub open spec fn edit_distance(a: Seq<char>, b: Seq<char>) -> nat {
    osa_by(a, b, same_char())
}

/// No alignment is dearer than rewriting the longer prefix outright, nor
/// cheaper than matching the lengths.
pub proof fn lemma_osa_bounds<T>(a: Seq<T>, b: Seq<T>, eq: spec_fn(T, T) -> bool, i: nat, j: nat)
    ensures
        osa_at(a, b, eq, i, j) <= max_nat(i, j),
        i <= osa_at(a, b, eq, i, j) + j,
        j <= osa_at(a, b, eq, i, j) + i,
    decreases i + j,
{
    if i > 0 && j > 0 {
        lemma_osa_bounds(a, b, eq, (i - 1) as nat, (j - 1) as nat);
        lemma_osa_bounds(a, b, eq, (i - 1) as nat, j);
        lemma_osa_bounds(a, b, eq, i, (j - 1) as nat);
        if i >= 2 && j >= 2 {
            lemma_osa_bounds(a, b, eq, (i - 2) as nat, (j - 2) as nat);
        }
    }
}

/// With a symmetric comparison, aligning `a` to `b` costs what aligning `b`
/// to `a` does.
pub proof fn lemma_osa_symmetric<T>(a: Seq<T>, b: Seq<T>, eq: spec_fn(T, T) -> bool, i: nat, j: nat)
    requires
        i <= a.len(),
        j <= b.len(),
        forall|x: T, y: T| #[trigger] eq(x, y) == eq(y, x),
    ensures
        osa_at(a, b, eq, i, j) == osa_at(b, a, eq, j, i),
    decreases i + j,
{
    if i > 0 && j > 0 {
        lemma_osa_symmetric(a, b, eq, (i - 1) as nat, (j - 1) as nat);
        lemma_osa_symmetric(a, b, eq, (i - 1) as nat, j);
        lemma_osa_symmetric(a, b, eq, i, (j - 1) as nat);
        if i >= 2 && j >= 2 {
            lemma_osa_symmetric(a, b, eq, (i - 2) as nat, (j - 2) as nat);
            assert(eq(a[i - 1], b[j - 2]) == eq(b[j - 2], a[i - 1]));
            assert(eq(a[i - 2], b[j - 1]) == eq(b[j - 1], a[i - 2]));
        }
        assert(eq(a[i - 1], b[j - 1]) == eq(b[j - 1], a[i - 1]));
    }
}

/// Two pairs of sequences whose elements compare alike, position by
/// position, are the same number of edits apart.
pub proof fn lemma_osa_congruent<T, U>(
    a: Seq<T>,
    b: Seq<T>,
    eq: spec_fn(T, T) -> bool,
    c: Seq<U>,
    d: Seq<U>,
    eq2: spec_fn(U, U) -> bool,
    i: nat,
    j: nat,
)
    requires
        i <= a.len() == c.len(),
        j <= b.len() == d.len(),
        forall|p: int, q: int|
            0 <= p < a.len() && 0 <= q < b.len() ==> #[trigger] eq(a[p], b[q]) == eq2(c[p], d[q]),
    ensures
        osa_at(a, b, eq, i, j) == osa_at(c, d, eq2, i, j),
    decreases i + j,
{
    if i > 0 && j > 0 {
        lemma_osa_congruent(a, b, eq, c, d, eq2, (i - 1) as nat, (j - 1) as nat);
        lemma_osa_congruent(a, b, eq, c, d, eq2, (i - 1) as nat, j);
        lemma_osa_congruent(a, b, eq, c, d, eq2, i, (j - 1) as nat);
        assert(eq(a[i - 1], b[j - 1]) == eq2(c[i - 1], d[j - 1]));
        if i >= 2 && j >= 2 {
            lemma_osa_congruent(a, b, eq, c, d, eq2, (i - 2) as nat, (j - 2) as nat);
            assert(eq(a[i - 1], b[j - 2]) == eq2(c[i - 1], d[j - 2]));
            assert(eq(a[i - 2], b[j - 1]) == eq2(c[i - 2], d[j - 1]));
        }
    }
}

/// Under plain equality, the distance between two prefixes is zero exactly
/// when they are the same sequence.
pub proof fn lemma_osa_zero<T>(a: Seq<T>, b: Seq<T>, i: nat, j: nat)
    requires
        i <= a.len(),
        j <= b.len(),
    ensures
        osa_at(a, b, |x: T, y: T| x == y, i, j) == 0 <==> (i == j && a.take(i as int) == b.take(
            j as int,
        )),
    decreases i + j,
{
    let eq = |x: T, y: T| x == y;
    if i > 0 && j > 0 {
        lemma_osa_zero(a, b, (i - 1) as nat, (j - 1) as nat);
        lemma_osa_bounds(a, b, eq, (i - 1) as nat, j);
        lemma_osa_bounds(a, b, eq, i, (j - 1) as nat);
        if i == j && a.take(i as int) == b.take(j as int) {
            assert(a[i - 1] == a.take(i as int)[i - 1]);
            assert(b[j - 1] == b.take(j as int)[j - 1]);
            assert(a.take(i - 1) =~= a.take(i as int).take(i - 1));
            assert(b.take(j - 1) =~= b.take(j as int).take(j - 1));
        }
        if osa_at(a, b, eq, i, j) == 0 {
            assert(a.take(i as int) =~= a.take(i - 1).push(a[i - 1]));
            assert(b.take(j as int) =~= b.take(j - 1).push(b[j - 1]));
        }
    } else if i == 0 && j == 0 {
        assert(a.take(0) =~= b.take(0));
    }
}

/// Every sequence is no edits from itself: the distance is zero exactly for
/// equal words.
pub proof fn lemma_edit_distance_zero(a: Seq<char>, b: Seq<char>)
    ensures
        edit_distance(a, b) == 0 <==> a == b,
{
    lemma_osa_zero(a, b, a.len(), b.len());
    assert(same_char() == |x: char, y: char| x == y);
    assert(a.take(a.len() as int) =~= a);
    assert(b.take(b.len() as int) =~= b);
}

/// The distance does not depend on the order of its arguments.
pub proof fn lemma_edit_distance_symmetric(a: Seq<char>, b: Seq<char>)
    ensures
        edit_distance(a, b) == edit_distance(b, a),
{
    lemma_osa_symmetric(a, b, same_char(), a.len(), b.len());
}

/// The distance lies between the difference of the lengths and the longer
/// length.
pub proof fn lemma_edit_distance_bounds(a: Seq<char>, b: Seq<char>)
    ensures
        edit_distance(a, b) <= max_nat(a.len(), b.len()),
        a.len() <= edit_distance(a, b) + b.len(),
        b.len() <= edit_distance(a, b) + a.len(),
{
    lemma_osa_bounds(a, b, same_char(), a.len(), b.len());
}

/// Returns the number of edits between `left` and `right`, comparing them as
/// Unicode scalar values rather than bytes, so an `é` is one element and not
/// the two its UTF-8 encoding takes.
pub fn distance(left: &str, right: &str) -> (edits: usize)
    requires
        left@.len() < usize::MAX,
        right@.len() < usize::MAX,
    ensures
        edits == edit_distance(left@, right@),
{
    let left_chars = chars_of(left);
    let right_chars = chars_of(right);
    char_distance(left_chars.as_slice(), right_chars.as_slice())
}

/// Returns the number of edits between two words already split into their
/// characters.
pub fn char_distance(left: &[char], right: &[char]) -> (edits: usize)
    requires
        left@.len() < usize::MAX,
        right@.len() < usize::MAX,
    ensures
        edits == edit_distance(left@, right@),
{
    let left_codes = char_codes(left);
    let right_codes = char_codes(right);
    let edits = distance_of(left_codes.as_slice(), right_codes.as_slice());
    proof {
        assert forall|p: int, q: int|
            0 <= p < left@.len() && 0 <= q < right@.len() implies #[trigger] same_char()(
            left@[p],
            right@[q],
        ) == eq_rel::<u32>()(left_codes@[p], right_codes@[q]) by {
            let (x, y) = (left@[p], right@[q]);
            assert(left_codes@[p] == x as u32);
            assert(right_codes@[q] == y as u32);
            lemma_char_code_injective(x, y);
            assert(eq_rel::<u32>()(x as u32, y as u32) == (x as u32 == y as u32));
        }
        lemma_osa_congruent(
            left@,
            right@,
            same_char(),
            left_codes@,
            right_codes@,
            eq_rel::<u32>(),
            left@.len(),
            right@.len(),
        );
    }
    edits
}

/// The code point of every character of `word`, in order.
fn char_codes(word: &[char]) -> (codes: Vec<u32>)
    ensures
        codes@.len() == word@.len(),
        forall|k: int| 0 <= k < word@.len() ==> codes@[k] == word@[k] as u32,
{
    let mut codes: Vec<u32> = Vec::new();
    let mut k: usize = 0;
    while k < word.len()
        invariant
            k <= word@.len(),
            codes@.len() == k,
            forall|q: int| 0 <= q < k ==> codes@[q] == word@[q] as u32,
        decreases word.len() - k,
    {
        codes.push(word[k] as u32);
        k = k + 1;
    }
    codes
}

/// Returns the number of edits between `left` and `right`.
///
/// Works on any sequence whose elements can be compared; the result is the
/// optimal string alignment distance under the elements' own `==`.
pub fn distance_of<T: PartialEq>(left: &[T], right: &[T]) -> (edits: usize)
    requires
        left@.len() < usize::MAX,
        right@.len() < usize::MAX,
    ensures
        T::obeys_eq_spec() ==> edits == osa_by(left@, right@, eq_rel::<T>()),
{
    let n = left.len();
    let m = right.len();
    let ghost a = left@;
    let ghost b = right@;
    let ghost eq = eq_rel::<T>();
    // Every element of the other sequence has to be inserted or deleted
    if n == 0 || m == 0 {
        return if n >= m {
            n
        } else {
            m
        };
    }
    let width = m + 1;
    // Three rows of the matrix, one per row a cell reads: the two above it and
    // the one being filled
    let mut before_previous: Vec<usize> = vec![0; width];
    let mut previous: Vec<usize> = Vec::new();
    let mut k: usize = 0;
    while k < width
        invariant
            width == m + 1,
            k <= width,
            previous@.len() == k,
            forall|x: int| 0 <= x < k ==> previous@[x] == x,
        decreases width - k,
    {
        previous.push(k);
        k = k + 1;
    }
    let mut current: Vec<usize> = vec![0; width];
    let mut i: usize = 0;
    while i < n
        invariant
            n == a.len(),
            m == b.len(),
            a == left@,
            b == right@,
            eq == eq_rel::<T>(),
            0 < m < usize::MAX,
            n < usize::MAX,
            width == m + 1,
            i <= n,
            previous@.len() == width,
            current@.len() == width,
            before_previous@.len() == width,
            forall|x: int| 0 <= x <= m ==> #[trigger] previous@[x] <= max_nat(i as nat, x as nat),
            forall|x: int|
                0 <= x <= m ==> #[trigger] before_previous@[x] <= max_nat(i as nat, x as nat),
            T::obeys_eq_spec() ==> forall|x: int|
                0 <= x <= m ==> #[trigger] previous@[x] == osa_at(a, b, eq, i as nat, x as nat),
            T::obeys_eq_spec() && i >= 1 ==> forall|x: int|
                0 <= x <= m ==> #[trigger] before_previous@[x] == osa_at(
                    a,
                    b,
                    eq,
                    (i - 1) as nat,
                    x as nat,
                ),
        decreases n - i,
    {
        current.set(0, i + 1);
        let mut j: usize = 0;
        while j < m
            invariant
                n == a.len(),
                m == b.len(),
                a == left@,
                b == right@,
                eq == eq_rel::<T>(),
                0 < m < usize::MAX,
                n < usize::MAX,
                width == m + 1,
                i < n,
                j <= m,
                previous@.len() == width,
                current@.len() == width,
                before_previous@.len() == width,
                forall|x: int| 0 <= x <= m ==> #[trigger] previous@[x] <= max_nat(i as nat, x as nat),
                forall|x: int|
                    0 <= x <= m ==> #[trigger] before_previous@[x] <= max_nat(i as nat, x as nat),
                forall|x: int|
                    0 <= x <= j ==> #[trigger] current@[x] <= max_nat((i + 1) as nat, x as nat),
                current@[0] == i + 1,
                T::obeys_eq_spec() ==> forall|x: int|
                    0 <= x <= m ==> #[trigger] previous@[x] == osa_at(a, b, eq, i as nat, x as nat),
                T::obeys_eq_spec() && i >= 1 ==> forall|x: int|
                    0 <= x <= m ==> #[trigger] before_previous@[x] == osa_at(
                        a,
                        b,
                        eq,
                        (i - 1) as nat,
                        x as nat,
                    ),
                T::obeys_eq_spec() ==> forall|x: int|
                    0 <= x <= j ==> #[trigger] current@[x] == osa_at(
                        a,
                        b,
                        eq,
                        (i + 1) as nat,
                        x as nat,
                    ),
            decreases m - j,
        {
            assert(previous@[j as int] <= max_nat(i as nat, j as nat));
            assert(previous@[j + 1] <= max_nat(i as nat, (j + 1) as nat));
            assert(current@[j as int] <= max_nat((i + 1) as nat, j as nat));
            let substitution: usize = if left[i] == right[j] {
                0
            } else {
                1
            };
            let mut cost = previous[j] + substitution;
            // Delete `left[i]`
            let deletion = previous[j + 1] + 1;
            if deletion < cost {
                cost = deletion;
            }
            // Insert `right[j]`
            let insertion = current[j] + 1;
            if insertion < cost {
                cost = insertion;
            }
            // Both elements match the other's predecessor: a transposition,
            // charged from two rows and two columns back
            if i > 0 && j > 0 && left[i] == right[j - 1] && left[i - 1] == right[j] {
                assert(before_previous@[j - 1] <= max_nat(i as nat, (j - 1) as nat));
                let transposition = before_previous[j - 1] + 1;
                if transposition < cost {
                    cost = transposition;
                }
            }
            proof {
                if T::obeys_eq_spec() {
                    assert(previous@[j as int] == osa_at(a, b, eq, i as nat, j as nat));
                    assert(previous@[j + 1] == osa_at(a, b, eq, i as nat, (j + 1) as nat));
                    assert(current@[j as int] == osa_at(a, b, eq, (i + 1) as nat, j as nat));
                    if i > 0 && j > 0 {
                        assert(before_previous@[j - 1] == osa_at(
                            a,
                            b,
                            eq,
                            (i - 1) as nat,
                            (j - 1) as nat,
                        ));
                    }
                    assert(cost == osa_at(a, b, eq, (i + 1) as nat, (j + 1) as nat));
                }
            }
            current.set(j + 1, cost);
            j = j + 1;
        }
        // The row just filled becomes the row above, the one above it the row
        // two up, and the row it displaces is overwritten before it is read
        std::mem::swap(&mut before_previous, &mut previous);
        std::mem::swap(&mut previous, &mut current);
        i = i + 1;
    }
    previous[m]
}

} // verus!
