//! SQL's `LIKE`: `%` stands for any text, `_` for any one character, and ASCII
//! letters match regardless of case.

use vstd::prelude::*;

use crate::text;

verus! {

/// Whether a text matches a pattern.
pub open spec fn like(s: Seq<char>, pattern: Seq<char>) -> bool
    decreases pattern.len(), s.len(),
{
    if pattern.len() == 0 {
        s.len() == 0
    } else if pattern[0] == '%' {
        like(s, pattern.drop_first()) || (s.len() > 0 && like(s.drop_first(), pattern))
    } else {
        s.len() > 0 && (pattern[0] == '_' || text::lower_char(pattern[0]) == text::lower_char(s[0]))
            && like(s.drop_first(), pattern.drop_first())
    }
}

/// See [`like`]; for the rest of a text and the rest of a pattern.
fn like_from(s: &Vec<char>, i: usize, pattern: &Vec<char>, j: usize) -> (r: bool)
    requires
        i <= s.len(),
        j <= pattern.len(),
    ensures
        r == like(s@.skip(i as int), pattern@.skip(j as int)),
    decreases pattern.len() - j, s.len() - i,
{
    let ghost rest = s@.skip(i as int);
    let ghost pat = pattern@.skip(j as int);
    if j == pattern.len() {
        return i == s.len();
    }
    assert(pat.drop_first() =~= pattern@.skip(j + 1));
    if pattern[j] == '%' {
        if like_from(s, i, pattern, j + 1) {
            return true;
        }
        if i == s.len() {
            return false;
        }
        assert(rest.drop_first() =~= s@.skip(i + 1));
        return like_from(s, i + 1, pattern, j);
    }
    if i == s.len() {
        return false;
    }
    assert(rest.drop_first() =~= s@.skip(i + 1));
    if pattern[j] == '_' || text::to_lower_char(pattern[j]) == text::to_lower_char(s[i]) {
        like_from(s, i + 1, pattern, j + 1)
    } else {
        false
    }
}

/// See [`like`].
pub fn matches_like(s: &str, pattern: &str) -> (r: bool)
    ensures
        r == like(s@, pattern@),
{
    let a = text::chars_of(s);
    let p = text::chars_of(pattern);
    assert(a@.skip(0) =~= a@);
    assert(p@.skip(0) =~= p@);
    like_from(&a, 0, &p, 0)
}

/// A text matches itself with `%` behind it as a pattern, whatever follows it.
pub proof fn law_prefix_is_like(s: Seq<char>, rest: Seq<char>)
    ensures
        like(s + rest, s.push('%')),
    decreases s.len(),
{
    if s.len() == 0 {
        assert(s + rest =~= rest);
        assert(s.push('%') =~= seq!['%']);
        lemma_any_like(rest);
    } else {
        law_prefix_is_like(s.drop_first(), rest);
        assert((s + rest).drop_first() =~= s.drop_first() + rest);
        assert(s.push('%').drop_first() =~= s.drop_first().push('%'));
        if s[0] == '%' {
            assert(like((s + rest).drop_first(), s.push('%').drop_first()));
            lemma_skip_like((s + rest), s.push('%'));
        }
    }
}

proof fn lemma_any_like(rest: Seq<char>)
    ensures
        like(rest, seq!['%']),
    decreases rest.len(),
{
    let p = seq!['%'];
    assert(p.drop_first() =~= Seq::<char>::empty());
    if rest.len() > 0 {
        lemma_any_like(rest.drop_first());
    } else {
        assert(like(rest, p.drop_first()));
    }
}

proof fn lemma_skip_like(s: Seq<char>, pattern: Seq<char>)
    requires
        s.len() > 0,
        pattern.len() > 0,
        pattern[0] == '%',
        like(s.drop_first(), pattern.drop_first()),
    ensures
        like(s, pattern),
{
    assert(like(s.drop_first(), pattern));
}

} // verus!
