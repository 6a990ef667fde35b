//! Character-sequence tools shared by the store format and the engine:
//! locating and counting a delimiter, and suffix matching.

use vstd::prelude::*;

verus! {

/// Index of the first occurrence of `c` in `s`, or `s.len()` if absent.
pub open spec fn find_char(s: Seq<char>, c: char) -> int
    decreases s.len(),
{
    if s.len() == 0 {
        0
    } else if s[0] == c {
        0
    } else {
        1 + find_char(s.drop_first(), c)
    }
}

/// How often `c` occurs in `s`.
pub open spec fn count_char(s: Seq<char>, c: char) -> nat
    decreases s.len(),
{
    if s.len() == 0 {
        0
    } else {
        count_char(s.drop_last(), c) + if s.last() == c { 1nat } else { 0nat }
    }
}

/// Whether `sfx` is a suffix of `s`.
pub open spec fn ends_with(s: Seq<char>, sfx: Seq<char>) -> bool {
    sfx.len() <= s.len() && s.skip(s.len() - sfx.len()) == sfx
}

/// `find_char` is the unique index with no occurrence before it and, when
/// inside the sequence, an occurrence at it.
pub proof fn lemma_find_char(s: Seq<char>, c: char)
    ensures
        0 <= find_char(s, c) <= s.len(),
        find_char(s, c) < s.len() ==> s[find_char(s, c)] == c,
        forall|k: int| 0 <= k < find_char(s, c) ==> s[k] != c,
    decreases s.len(),
{
    if s.len() > 0 && s[0] != c {
        lemma_find_char(s.drop_first(), c);
        assert forall|k: int| 0 <= k < find_char(s, c) implies s[k] != c by {
            if k > 0 {
                assert(s.drop_first()[k - 1] != c);
            }
        }
    }
}

/// An index that carries `c` with no `c` before it is `find_char`.
pub proof fn lemma_find_char_is(s: Seq<char>, c: char, i: int)
    requires
        0 <= i <= s.len(),
        i < s.len() ==> s[i] == c,
        forall|k: int| 0 <= k < i ==> s[k] != c,
    ensures
        find_char(s, c) == i,
    decreases s.len(),
{
    if s.len() > 0 && s[0] != c {
        lemma_find_char_is(s.drop_first(), c, i - 1);
    }
}

/// Counting distributes over concatenation.
pub proof fn lemma_count_char_concat(a: Seq<char>, b: Seq<char>, c: char)
    ensures
        count_char(a + b, c) == count_char(a, c) + count_char(b, c),
    decreases b.len(),
{
    if b.len() == 0 {
        assert(a + b =~= a);
    } else {
        lemma_count_char_concat(a, b.drop_last(), c);
        assert((a + b).drop_last() =~= a + b.drop_last());
    }
}

/// A sequence in which `c` occurs exactly once, at `i`, has `find_char`
/// equal to `i` and no occurrence elsewhere.
pub proof fn lemma_count_one_split(s: Seq<char>, c: char, i: int)
    requires
        0 <= i < s.len(),
        s[i] == c,
        forall|k: int| 0 <= k < i ==> s[k] != c,
        count_char(s, c) == 1,
    ensures
        find_char(s, c) == i,
        forall|k: int| i < k < s.len() ==> s[k] != c,
    decreases s.len(),
{
    lemma_find_char_is(s, c, i);
    assert forall|k: int| i < k < s.len() implies s[k] != c by {
        if s[k] == c {
            assert(s =~= s.take(k) + seq![s[k]] + s.skip(k + 1));
            lemma_count_char_concat(s.take(k) + seq![s[k]], s.skip(k + 1), c);
            lemma_count_char_concat(s.take(k), seq![s[k]], c);
            assert(count_char(seq![s[k]], c) == 1);
            assert(s.take(k)[i] == c);
            lemma_count_char_pos(s.take(k), c, i);
        }
    }
}

/// A sequence with an occurrence of `c` counts at least one.
pub proof fn lemma_count_char_pos(s: Seq<char>, c: char, i: int)
    requires
        0 <= i < s.len(),
        s[i] == c,
    ensures
        count_char(s, c) >= 1,
    decreases s.len(),
{
    if i < s.len() - 1 {
        lemma_count_char_pos(s.drop_last(), c, i);
    }
}

/// Copy the characters of a string into a vector, for indexed access.
pub fn to_chars(s: &str) -> (r: Vec<char>)
    ensures
        r@ == s@,
{
    let n = s.unicode_len();
    let mut r: Vec<char> = Vec::new();
    let mut i: usize = 0;
    while i < n
        invariant
            n == s@.len(),
            i <= n,
            r@ == s@.take(i as int),
        decreases n - i,
    {
        r.push(s.get_char(i));
        proof {
            assert(r@ =~= s@.take(i + 1));
        }
        i = i + 1;
    }
    proof {
        assert(s@.take(n as int) =~= s@);
    }
    r
}

/// Whether the string `s` ends with the suffix `sfx`.
pub fn str_ends_with(s: &str, sfx: &str) -> (r: bool)
    ensures
        r == ends_with(s@, sfx@),
{
    let n = s.unicode_len();
    let m = sfx.unicode_len();
    if m > n {
        return false;
    }
    let cs = to_chars(s);
    let fs = to_chars(sfx);
    let base = n - m;
    let mut i: usize = 0;
    while i < m
        invariant
            n == s@.len(),
            m == sfx@.len(),
            m <= n,
            base == n - m,
            cs@ == s@,
            fs@ == sfx@,
            i <= m,
            forall|k: int| 0 <= k < i ==> s@[base + k] == sfx@[k],
        decreases m - i,
    {
        if cs[base + i] != fs[i] {
            proof {
                assert(s@.skip(base as int)[i as int] != sfx@[i as int]);
            }
            return false;
        }
        i = i + 1;
    }
    proof {
        assert(s@.skip(base as int) =~= sfx@);
    }
    true
}

} // verus!
