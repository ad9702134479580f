//! The format of a word file: one word per line, padding around a word
//! ignored, blank lines skipped.
//!
//! Indentation and trailing spaces would otherwise become part of the key and
//! break prefix search. Padding is whitespace as Unicode defines it (the
//! `White_Space` property), the same characters `str::trim` removes, and a
//! line ends at `\n`, a `\r` before it being padding like any other.
use vstd::prelude::*;
use crate::text::{string_of, words_of};

verus! {

/// The Unicode `White_Space` property.
pub open spec fn white_space(c: char) -> bool {
    let x = c as u32;
    ||| 0x9 <= x <= 0xD
    ||| x == 0x20
    ||| x == 0x85
    ||| x == 0xA0
    ||| x == 0x1680
    ||| 0x2000 <= x <= 0x200A
    ||| x == 0x2028
    ||| x == 0x2029
    ||| x == 0x202F
    ||| x == 0x205F
    ||| x == 0x3000
}

/// `p` without the whitespace it starts with.
pub open spec fn trim_start(p: Seq<char>) -> Seq<char>
    decreases p.len(),
{
    if p.len() > 0 && white_space(p[0]) {
        trim_start(p.drop_first())
    } else {
        p
    }
}

/// `p` without the whitespace it ends with.
pub open spec fn trim_end(p: Seq<char>) -> Seq<char>
    decreases p.len(),
{
    if p.len() > 0 && white_space(p.last()) {
        trim_end(p.drop_last())
    } else {
        p
    }
}

/// `p` without the whitespace around it.
pub open spec fn trimmed(p: Seq<char>) -> Seq<char> {
    trim_end(trim_start(p))
}

/// The runs of `s` between line feeds, in order; `s` without one is one run.
pub open spec fn lines_of(s: Seq<char>) -> Seq<Seq<char>>
    decreases s.len(),
{
    if s.len() == 0 {
        seq![Seq::<char>::empty()]
    } else {
        let before = lines_of(s.drop_last());
        if s.last() == '\n' {
            before.push(Seq::<char>::empty())
        } else {
            before.update(before.len() - 1, before.last().push(s.last()))
        }
    }
}

/// The lines of a file that hold a word, each without its padding.
pub open spec fn words_kept(lines: Seq<Seq<char>>) -> Seq<Seq<char>>
    decreases lines.len(),
{
    if lines.len() == 0 {
        Seq::empty()
    } else {
        let before = words_kept(lines.drop_last());
        if trimmed(lines.last()).len() > 0 {
            before.push(trimmed(lines.last()))
        } else {
            before
        }
    }
}

/// Whether `c` is whitespace.
pub fn is_white_space(c: char) -> (ws: bool)
    ensures
        ws == white_space(c),
{
    let x = c as u32;
    (0x9 <= x && x <= 0xD) || x == 0x20 || x == 0x85 || x == 0xA0 || x == 0x1680 || (0x2000 <= x && x <= 0x200A)
        || x == 0x2028 || x == 0x2029 || x == 0x202F || x == 0x205F || x == 0x3000
}

proof fn lemma_trim_start(p: Seq<char>, a: int)
    requires
        0 <= a <= p.len(),
        forall|i: int| 0 <= i < a ==> white_space(#[trigger] p[i]),
        a == p.len() || !white_space(p[a]),
    ensures
        trim_start(p) == p.skip(a),
    decreases a,
{
    if a == 0 {
        assert(p.skip(0) =~= p);
    } else {
        assert forall|i: int| 0 <= i < a - 1 implies white_space(#[trigger] p.drop_first()[i]) by {
            assert(p.drop_first()[i] == p[i + 1]);
        }
        if a - 1 < p.drop_first().len() {
            assert(p.drop_first()[a - 1] == p[a]);
        }
        lemma_trim_start(p.drop_first(), a - 1);
        assert(p.drop_first().skip(a - 1) =~= p.skip(a));
    }
}

proof fn lemma_trim_end(p: Seq<char>, b: int)
    requires
        0 <= b <= p.len(),
        forall|i: int| b <= i < p.len() ==> white_space(#[trigger] p[i]),
        b == 0 || !white_space(p[b - 1]),
    ensures
        trim_end(p) == p.take(b),
    decreases p.len() - b,
{
    if b == p.len() {
        assert(p.take(b) =~= p);
    } else {
        assert forall|i: int| b <= i < p.drop_last().len() implies white_space(#[trigger] p.drop_last()[i]) by {
            assert(p.drop_last()[i] == p[i]);
        }
        if b > 0 {
            assert(p.drop_last()[b - 1] == p[b - 1]);
        }
        lemma_trim_end(p.drop_last(), b);
        assert(p.drop_last().take(b) =~= p.take(b));
    }
}

/// `p` without the whitespace around it.
fn trim(p: &[char]) -> (t: Vec<char>)
    ensures
        t@ == trimmed(p@),
{
    let mut a: usize = 0;
    while a < p.len() && is_white_space(p[a])
        invariant
            a <= p@.len(),
            forall|i: int| 0 <= i < a ==> white_space(#[trigger] p@[i]),
        decreases p.len() - a,
    {
        a = a + 1;
    }
    proof {
        lemma_trim_start(p@, a as int);
    }
    let ghost q = p@.skip(a as int);
    let mut b: usize = p.len();
    while b > a && is_white_space(p[b - 1])
        invariant
            a <= b <= p@.len(),
            q == p@.skip(a as int),
            forall|i: int| b - a <= i < q.len() ==> white_space(#[trigger] q[i]),
        decreases b,
    {
        assert(q[b - 1 - a] == p@[b - 1]);
        b = b - 1;
    }
    proof {
        if b > a {
            assert(q[b - a - 1] == p@[b - 1]);
        }
        lemma_trim_end(q, b - a);
    }
    let mut t: Vec<char> = Vec::new();
    let mut k: usize = a;
    while k < b
        invariant
            a <= k <= b <= p@.len(),
            t@ == p@.subrange(a as int, k as int),
        decreases b - k,
    {
        t.push(p[k]);
        assert(t@ =~= p@.subrange(a as int, k + 1));
        k = k + 1;
    }
    assert(t@ =~= q.take(b - a));
    t
}

/// The words of a word file, one per line, each without the padding around
/// it, blank lines skipped.
pub fn file_words(contents: &str) -> (words: Vec<String>)
    ensures
        words_of(words@) == words_kept(lines_of(contents@)),
{
    let ghost s = contents@;
    let mut words: Vec<String> = Vec::new();
    let mut line: Vec<char> = Vec::new();
    let ghost mut done: Seq<Seq<char>> = Seq::empty();
    proof {
        assert(lines_of(s.take(0)) =~= done.push(line@));
    }
    let ghost mut k: int = 0;
    for c in it: contents.chars()
        invariant
            it.seq() == s,
            k == it.index(),
            lines_of(s.take(k as int)) == done.push(line@),
            words_of(words@) == words_kept(done),
    {
        proof {
            assert(s.take(k + 1).drop_last() =~= s.take(k as int));
            assert(s.take(k + 1).last() == c);
        }
        if c == '\n' {
            let kept = trim(line.as_slice());
            if kept.len() > 0 {
                let word = string_of(kept.as_slice());
                let ghost before = words@;
                words.push(word);
                assert(words_of(words@) =~= words_of(before).push(word@));
            }
            proof {
                assert(done.push(line@).drop_last() =~= done);
                done = done.push(line@);
            }
            line = Vec::new();
            proof {
                assert(lines_of(s.take(k + 1)) =~= done.push(line@));
            }
        } else {
            let ghost old_line = line@;
            line.push(c);
            proof {
                assert(lines_of(s.take(k + 1)) =~= done.push(line@));
            }
        }
        proof {
            k = k + 1;
        }
    }
    proof {
        assert(s.take(k as int) =~= s);
        assert(done.push(line@).drop_last() =~= done);
    }
    let kept = trim(line.as_slice());
    if kept.len() > 0 {
        let word = string_of(kept.as_slice());
        let ghost before = words@;
        words.push(word);
        assert(words_of(words@) =~= words_of(before).push(word@));
    }
    words
}

} // verus!
