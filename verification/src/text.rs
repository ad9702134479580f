//! Words as sequences of characters: converting between `str` and `Vec<char>`,
//! and the lexicographic order `String` and `Vec<char>` sort in.
use vstd::prelude::*;

verus! {

/// Character order, by Unicode scalar value.
pub open spec fn char_lt(x: char, y: char) -> bool {
    (x as int) < (y as int)
}

/// Lexicographic order on words, character by character, a proper prefix
/// coming first: the order `String` and `Vec<char>` compare in.
pub open spec fn lex_lt(a: Seq<char>, b: Seq<char>) -> bool
    decreases a.len(),
{
    if b.len() == 0 {
        false
    } else if a.len() == 0 {
        true
    } else if a[0] != b[0] {
        char_lt(a[0], b[0])
    } else {
        lex_lt(a.drop_first(), b.drop_first())
    }
}

/// Whether `p` is a prefix of `s`.
pub open spec fn is_prefix(p: Seq<char>, s: Seq<char>) -> bool {
    p.len() <= s.len() && s.take(p.len() as int) == p
}

/// Whether a sequence of words is in strictly increasing order, which also
/// means that no word occurs twice.
pub open spec fn strictly_sorted(s: Seq<Seq<char>>) -> bool {
    forall|i: int, j: int| 0 <= i < j < s.len() ==> lex_lt(#[trigger] s[i], #[trigger] s[j])
}

/// The characters of a sequence of strings.
pub open spec fn words_of(s: Seq<String>) -> Seq<Seq<char>> {
    s.map_values(|w: String| w@)
}

/// Two characters share a code point only if they are the same character.
pub proof fn lemma_char_code_injective(x: char, y: char)
    ensures
        (x as u32 == y as u32) == (x == y),
        (x as int == y as int) == (x == y),
        x as u32 == x as int,
{
}

/// No word comes before itself.
pub proof fn lemma_lex_irreflexive(a: Seq<char>)
    ensures
        !lex_lt(a, a),
    decreases a.len(),
{
    if a.len() > 0 {
        lemma_lex_irreflexive(a.drop_first());
    }
}

/// The order is transitive.
pub proof fn lemma_lex_transitive(a: Seq<char>, b: Seq<char>, c: Seq<char>)
    requires
        lex_lt(a, b),
        lex_lt(b, c),
    ensures
        lex_lt(a, c),
    decreases a.len(),
{
    if a.len() > 0 && b.len() > 0 && c.len() > 0 {
        lemma_char_code_injective(a[0], b[0]);
        lemma_char_code_injective(b[0], c[0]);
        lemma_char_code_injective(a[0], c[0]);
        if a[0] == b[0] && b[0] == c[0] {
            lemma_lex_transitive(a.drop_first(), b.drop_first(), c.drop_first());
        }
    }
}

/// Of two different words, one comes first.
pub proof fn lemma_lex_total(a: Seq<char>, b: Seq<char>)
    requires
        a != b,
    ensures
        lex_lt(a, b) || lex_lt(b, a),
    decreases a.len(),
{
    if a.len() > 0 && b.len() > 0 {
        lemma_char_code_injective(a[0], b[0]);
        if a[0] == b[0] {
            if a.drop_first() == b.drop_first() {
                assert(a =~= seq![a[0]] + a.drop_first());
                assert(b =~= seq![b[0]] + b.drop_first());
            }
            lemma_lex_total(a.drop_first(), b.drop_first());
        }
    } else if a.len() == 0 && b.len() == 0 {
        assert(a =~= b);
    }
}


/// A common prefix does not change which of two words comes first.
pub proof fn lemma_lex_common_prefix(p: Seq<char>, a: Seq<char>, b: Seq<char>)
    ensures
        lex_lt(p + a, p + b) == lex_lt(a, b),
    decreases p.len(),
{
    if p.len() > 0 {
        assert((p + a).drop_first() =~= p.drop_first() + a);
        assert((p + b).drop_first() =~= p.drop_first() + b);
        lemma_lex_common_prefix(p.drop_first(), a, b);
    } else {
        assert(p + a =~= a);
        assert(p + b =~= b);
    }
}

/// A proper prefix comes before the words it begins.
pub proof fn lemma_lex_proper_prefix(p: Seq<char>, s: Seq<char>)
    requires
        s.len() > 0,
    ensures
        lex_lt(p, p + s),
    decreases p.len(),
{
    if p.len() > 0 {
        assert((p + s).drop_first() =~= p.drop_first() + s);
        lemma_lex_proper_prefix(p.drop_first(), s);
    }
}

/// Words that differ first at their first character are ordered by it,
/// whatever follows.
pub proof fn lemma_lex_first_char(a: Seq<char>, b: Seq<char>)
    requires
        a.len() > 0,
        b.len() > 0,
        char_lt(a[0], b[0]),
    ensures
        lex_lt(a, b),
{
    lemma_char_code_injective(a[0], b[0]);
}

/// Returns the characters of `word`, in order.
pub fn chars_of(word: &str) -> (chars: Vec<char>)
    ensures
        chars@ == word@,
{
    let mut chars: Vec<char> = Vec::new();
    for c in it: word.chars()
        invariant
            it.seq() == word@,
            chars@ == word@.take(it.index() as int),
    {
        proof {
            assert(word@.take(it.index() + 1) =~= word@.take(it.index() as int).push(c));
        }
        chars.push(c);
    }
    proof {
        assert(word@.take(word@.len() as int) =~= word@);
    }
    chars
}

/// Builds the string spelled by `chars`.
///
/// Trusted: `FromIterator<&char> for String` appends the characters in the
/// order the slice holds them, so the result spells exactly `chars`.
#[verifier::external_body]
pub(crate) fn string_of(chars: &[char]) -> (word: String)
    ensures
        word@ == chars@,
{
    chars.iter().collect()
}

/// The lower case of `text`, as Unicode's lower-case mapping gives it.
pub uninterp spec fn lower_case(text: Seq<char>) -> Seq<char>;

/// Whether `c` is a capital letter of Latin-1 (U+0000 to U+00FF): `A` to
/// `Z`, U+00C0 to U+00D6 and U+00D8 to U+00DE.
pub open spec fn latin1_capital(c: char) -> bool {
    ||| 'A' <= c <= 'Z'
    ||| '\u{C0}' <= c <= '\u{D6}'
    ||| '\u{D8}' <= c <= '\u{DE}'
}

/// The lower case of a Latin-1 character: a capital's small letter stands
/// 0x20 above it, and every other character is its own lower case.
pub open spec fn latin1_lower(c: char) -> char {
    if latin1_capital(c) {
        ((c as u32) + 0x20) as char
    } else {
        c
    }
}

/// Whether every character of `text` lies in Latin-1.
pub open spec fn is_latin1(text: Seq<char>) -> bool {
    forall|i: int| 0 <= i < text.len() ==> text[i] <= '\u{FF}'
}

/// `text` with each character replaced by its Latin-1 lower case.
pub open spec fn latin1_lowered(text: Seq<char>) -> Seq<char> {
    text.map_values(|c: char| latin1_lower(c))
}

/// Whether `a` and `b` spell the same Latin-1 text but for the case of
/// their letters.
pub open spec fn same_but_case(a: Seq<char>, b: Seq<char>) -> bool {
    &&& is_latin1(a)
    &&& is_latin1(b)
    &&& a.len() == b.len()
    &&& forall|i: int| 0 <= i < a.len() ==> #[trigger] latin1_lower(a[i]) == latin1_lower(b[i])
}

/// Lower-casing Latin-1 text keeps its length and stays in Latin-1, leaves
/// no capital, changes nothing but the capitals and changes every capital,
/// changes nothing when done again, and gives texts that differ only in case
/// the same result.
pub proof fn law_latin1_lower_case(text: Seq<char>, other: Seq<char>)
    requires
        is_latin1(text),
    ensures
        latin1_lowered(text).len() == text.len(),
        is_latin1(latin1_lowered(text)),
        forall|i: int| 0 <= i < text.len() ==> !latin1_capital(#[trigger] latin1_lowered(text)[i]),
        forall|i: int| 0 <= i < text.len() && !latin1_capital(text[i]) ==> #[trigger] latin1_lowered(text)[i] == text[i],
        forall|i: int| 0 <= i < text.len() && latin1_capital(text[i]) ==> #[trigger] latin1_lowered(text)[i] != text[i],
        latin1_lowered(latin1_lowered(text)) == latin1_lowered(text),
        same_but_case(text, other) ==> latin1_lowered(text) == latin1_lowered(other),
{
    let low = latin1_lowered(text);
    assert forall|i: int| 0 <= i < text.len() implies !latin1_capital(#[trigger] low[i]) && low[i] <= '\u{FF}' by {
        let c = text[i];
        if latin1_capital(c) {
            assert(((c as u32) + 0x20) as char as u32 == (c as u32) + 0x20);
        }
    }
    assert forall|i: int| 0 <= i < text.len() && latin1_capital(text[i]) implies #[trigger] low[i] != text[i] by {
        let c = text[i];
        assert(((c as u32) + 0x20) as char as u32 == (c as u32) + 0x20);
    }
    assert(latin1_lowered(low) =~= low);
    if same_but_case(text, other) {
        assert(low =~= latin1_lowered(other));
    }
}

/// Lower-cases `text` with `str::to_lowercase`.
///
/// Trusted: the result depends on the characters of `text` alone, through
/// the Unicode case tables built into the standard library, so it is named
/// rather than stated in general. On Latin-1 text Unicode's lower-case
/// mapping takes each capital to the letter 0x20 above it and leaves every
/// other character as it is, and that much is stated.
#[verifier::external_body]
pub(crate) fn to_lower_case(text: &str) -> (lower: String)
    ensures
        lower@ == lower_case(text@),
        is_latin1(text@) ==> lower@ == latin1_lowered(text@),
{
    text.to_lowercase()
}

/// Returns whether `left` comes before `right` in lexicographic order.
pub fn chars_before(left: &[char], right: &[char]) -> (before: bool)
    ensures
        before == lex_lt(left@, right@),
{
    let mut k: usize = 0;
    proof {
        assert(left@.skip(0) =~= left@);
        assert(right@.skip(0) =~= right@);
    }
    while k < left.len() && k < right.len()
        invariant
            k <= left@.len(),
            k <= right@.len(),
            lex_lt(left@, right@) == lex_lt(left@.skip(k as int), right@.skip(k as int)),
        decreases left.len() - k,
    {
        let (x, y) = (left[k], right[k]);
        if x != y {
            proof {
                assert(left@.skip(k as int)[0] == x);
                assert(right@.skip(k as int)[0] == y);
                assert(lex_lt(left@.skip(k as int), right@.skip(k as int)) == char_lt(x, y));
            }
            let before = x < y;
            assert(before == char_lt(x, y));
            return before;
        }
        proof {
            assert(left@.skip(k as int).drop_first() =~= left@.skip(k + 1));
            assert(right@.skip(k as int).drop_first() =~= right@.skip(k + 1));
        }
        k = k + 1;
    }
    k < right.len()
}


/// Returns `word` without its first `from` characters.
pub fn suffix_from(word: &[char], from: usize) -> (rest: Vec<char>)
    requires
        from <= word@.len(),
    ensures
        rest@ == word@.skip(from as int),
{
    let mut rest: Vec<char> = Vec::new();
    let mut k = from;
    while k < word.len()
        invariant
            from <= k <= word@.len(),
            rest@ == word@.subrange(from as int, k as int),
        decreases word.len() - k,
    {
        rest.push(word[k]);
        proof {
            assert(word@.subrange(from as int, k + 1) =~= word@.subrange(from as int, k as int).push(
                word@[k as int],
            ));
        }
        k = k + 1;
    }
    rest
}

/// Returns the first `to` characters of `word`.
pub fn prefix_to(word: &[char], to: usize) -> (head: Vec<char>)
    requires
        to <= word@.len(),
    ensures
        head@ == word@.take(to as int),
{
    let mut head: Vec<char> = Vec::new();
    let mut k: usize = 0;
    while k < to
        invariant
            to <= word@.len(),
            k <= to,
            head@ == word@.take(k as int),
        decreases to - k,
    {
        head.push(word[k]);
        proof {
            assert(word@.take(k + 1) =~= word@.take(k as int).push(word@[k as int]));
        }
        k = k + 1;
    }
    head
}

/// Returns `left` followed by `right`.
pub fn concat_chars(left: &[char], right: &[char]) -> (joined: Vec<char>)
    ensures
        joined@ == left@ + right@,
{
    let mut joined: Vec<char> = Vec::new();
    let mut k: usize = 0;
    while k < left.len()
        invariant
            k <= left@.len(),
            joined@ == left@.take(k as int),
        decreases left.len() - k,
    {
        joined.push(left[k]);
        proof {
            assert(left@.take(k + 1) =~= left@.take(k as int).push(left@[k as int]));
        }
        k = k + 1;
    }
    let mut k: usize = 0;
    while k < right.len()
        invariant
            k <= right@.len(),
            joined@ == left@ + right@.take(k as int),
        decreases right.len() - k,
    {
        joined.push(right[k]);
        proof {
            assert(left@ + right@.take(k + 1) =~= (left@ + right@.take(k as int)).push(
                right@[k as int],
            ));
        }
        k = k + 1;
    }
    proof {
        assert(right@.take(right@.len() as int) =~= right@);
    }
    joined
}

/// Appends the characters of `src` to `dst`.
pub fn append_chars(dst: &mut Vec<char>, src: &[char])
    ensures
        final(dst)@ == old(dst)@ + src@,
{
    let ghost start = dst@;
    let mut k: usize = 0;
    while k < src.len()
        invariant
            k <= src@.len(),
            dst@ == start + src@.take(k as int),
        decreases src.len() - k,
    {
        dst.push(src[k]);
        proof {
            assert(start + src@.take(k + 1) =~= (start + src@.take(k as int)).push(src@[k as int]));
        }
        k = k + 1;
    }
    proof {
        assert(src@.take(src@.len() as int) =~= src@);
    }
}

/// Returns `word` without the character at `at`.
pub fn remove_at(word: &[char], at: usize) -> (rest: Vec<char>)
    requires
        at < word@.len(),
    ensures
        rest@ == word@.remove(at as int),
{
    let mut rest: Vec<char> = Vec::new();
    let mut k: usize = 0;
    while k < word.len()
        invariant
            at < word@.len(),
            k <= word@.len(),
            k <= at ==> rest@ == word@.take(k as int),
            k > at ==> rest@ == word@.take(k as int).remove(at as int),
        decreases word.len() - k,
    {
        if k != at {
            rest.push(word[k]);
        }
        proof {
            if k < at {
                assert(word@.take(k + 1) =~= word@.take(k as int).push(word@[k as int]));
            } else if k == at {
                assert(word@.take(k + 1).remove(at as int) =~= word@.take(k as int));
            } else {
                assert(word@.take(k + 1).remove(at as int) =~= word@.take(k as int).remove(at as int).push(
                    word@[k as int],
                ));
            }
        }
        k = k + 1;
    }
    proof {
        assert(word@.take(word@.len() as int) =~= word@);
    }
    rest
}

/// Returns a copy of `word`.
pub fn copy_chars(word: &[char]) -> (copy: Vec<char>)
    ensures
        copy@ == word@,
{
    prefix_to(word, word.len())
}

} // verus!
