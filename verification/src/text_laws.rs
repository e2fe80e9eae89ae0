//! What the handling of texts rests on.

use vstd::prelude::*;

use crate::text;

verus! {

/// Making a text small changes its capital letters of ASCII alone, each to the
/// small letter that stands thirty-two places behind it.
pub proof fn law_capital_letters_are_made_small(s: Seq<char>)
    ensures
        text::lower(s).len() == s.len(),
        forall|i: int|
            0 <= i < s.len() ==> #[trigger] text::lower(s)[i] as int == (if 'A' <= s[i] <= 'Z' {
                s[i] as int + 32
            } else {
                s[i] as int
            }),
{
}

proof fn lemma_trim_start_parts(s: Seq<char>) -> (a: Seq<char>)
    ensures
        s == a + text::trim_start(s),
        forall|i: int| 0 <= i < a.len() ==> text::is_space(#[trigger] a[i]),
        text::trim_start(s).len() > 0 ==> !text::is_space(text::trim_start(s)[0]),
    decreases s.len(),
{
    if s.len() > 0 && text::is_space(s[0]) {
        let d = s.drop_first();
        let b = lemma_trim_start_parts(d);
        let a = seq![s[0]] + b;
        assert(s =~= seq![s[0]] + d);
        assert(s =~= a + text::trim_start(s));
        assert forall|i: int| 0 <= i < a.len() implies text::is_space(#[trigger] a[i]) by {
            if i > 0 {
                assert(a[i] == b[i - 1]);
            }
        }
        a
    } else {
        assert(s =~= Seq::<char>::empty() + s);
        Seq::empty()
    }
}

proof fn lemma_trim_end_parts(s: Seq<char>) -> (b: Seq<char>)
    ensures
        s == text::trim_end(s) + b,
        forall|i: int| 0 <= i < b.len() ==> text::is_space(#[trigger] b[i]),
        text::trim_end(s).len() > 0 ==> !text::is_space(text::trim_end(s).last()) && text::trim_end(
            s,
        )[0] == s[0],
    decreases s.len(),
{
    if s.len() > 0 && text::is_space(s.last()) {
        let d = s.drop_last();
        let c = lemma_trim_end_parts(d);
        let b = c.push(s.last());
        assert(s =~= d.push(s.last()));
        assert(s =~= text::trim_end(s) + b);
        assert forall|i: int| 0 <= i < b.len() implies text::is_space(#[trigger] b[i]) by {
            if i < c.len() {
                assert(b[i] == c[i]);
            }
        }
        b
    } else {
        assert(s =~= s + Seq::<char>::empty());
        Seq::empty()
    }
}

/// Whether a text stands in another with nothing but white space around it.
pub open spec fn is_within_space(s: Seq<char>, t: Seq<char>) -> bool {
    exists|a: Seq<char>, b: Seq<char>|
        s == #[trigger] (a + t + b) && (forall|i: int|
            0 <= i < a.len() ==> text::is_space(#[trigger] a[i])) && (forall|i: int|
            0 <= i < b.len() ==> text::is_space(#[trigger] b[i]))
}

/// Trimming takes away the white space around a text, all of it and nothing
/// else.
pub proof fn law_trimming_takes_the_white_space(s: Seq<char>)
    ensures
        is_within_space(s, text::trim(s)),
        text::trim(s).len() > 0 ==> !text::is_space(text::trim(s)[0]) && !text::is_space(
            text::trim(s).last(),
        ),
{
    let a = lemma_trim_start_parts(s);
    let m = text::trim_start(s);
    let b = lemma_trim_end_parts(m);
    assert(s =~= a + text::trim(s) + b);
}

/// Splitting a text and joining the pieces gives the text back, and what it was
/// split at stands in no piece.
pub proof fn law_pieces_join_to_the_text(s: Seq<char>, sep: char)
    ensures
        text::split_char(s, sep).len() > 0,
        text::join(text::split_char(s, sep), seq![sep]) == s,
        forall|i: int|
            0 <= i < text::split_char(s, sep).len() ==> !(#[trigger] text::split_char(
                s,
                sep,
            )[i]).contains(sep),
    decreases s.len(),
{
    let p = text::split_char(s, sep);
    if s.len() == 0 {
        assert(p[0] =~= s);
    } else {
        let d = s.drop_last();
        let r = text::split_char(d, sep);
        law_pieces_join_to_the_text(d, sep);
        assert(s =~= d.push(s.last()));
        if s.last() == sep {
            assert(p == r.push(Seq::empty()));
            assert(p.drop_last() =~= r);
            assert(text::join(p, seq![sep]) =~= s);
            assert forall|i: int| 0 <= i < p.len() implies !(#[trigger] p[i]).contains(sep) by {
                if i < r.len() {
                    assert(p[i] == r[i]);
                }
            }
        } else {
            let q = r.last().push(s.last());
            assert(p == r.drop_last().push(q));
            assert(p.drop_last() =~= r.drop_last());
            if r.len() == 1 {
                assert(p.len() == 1 && p[0] == q);
                assert(text::join(r, seq![sep]) == r[0]);
                assert(text::join(p, seq![sep]) =~= s);
            } else {
                assert(text::join(p, seq![sep]) =~= s);
            }
            assert forall|i: int| 0 <= i < p.len() implies !(#[trigger] p[i]).contains(sep) by {
                if i < r.len() - 1 {
                    assert(p[i] == r[i]);
                } else {
                    assert(!r[r.len() - 1].contains(sep));
                    if q.contains(sep) {
                        let k = choose|k: int| 0 <= k < q.len() && q[k] == sep;
                        assert(r.last()[k] == sep);
                    }
                }
            }
        }
    }
}

/// Whether two texts are the same up to a place at which the first one ends, or
/// has the lesser character.
pub open spec fn is_lesser_from(a: Seq<char>, b: Seq<char>, k: int) -> bool {
    &&& 0 <= k <= a.len()
    &&& k < b.len()
    &&& forall|i: int| 0 <= i < k ==> #[trigger] a[i] == b[i]
    &&& k == a.len() || a[k] < b[k]
}

/// Texts are in the order of their first characters that differ; where none
/// does, the shorter one comes first.
pub proof fn law_texts_are_in_the_order_of_characters(a: Seq<char>, b: Seq<char>)
    ensures
        text::text_less(a, b) <==> exists|k: int| #[trigger] is_lesser_from(a, b, k),
    decreases a.len(),
{
    if b.len() > 0 {
        if a.len() == 0 {
            assert(is_lesser_from(a, b, 0));
        } else if a[0] != b[0] {
            if a[0] < b[0] {
                assert(is_lesser_from(a, b, 0));
            }
            assert forall|k: int| #[trigger] is_lesser_from(a, b, k) implies a[0] < b[0] by {
                if k > 0 {
                    assert(a[0] == b[0]);
                }
            }
        } else {
            let x = a.drop_first();
            let y = b.drop_first();
            law_texts_are_in_the_order_of_characters(x, y);
            if text::text_less(x, y) {
                let k = choose|k: int| #[trigger] is_lesser_from(x, y, k);
                assert forall|i: int| 0 <= i < k + 1 implies #[trigger] a[i] == b[i] by {
                    if i > 0 {
                        assert(x[i - 1] == y[i - 1]);
                    }
                }
                assert(is_lesser_from(a, b, k + 1));
            }
            if exists|k: int| #[trigger] is_lesser_from(a, b, k) {
                let k = choose|k: int| #[trigger] is_lesser_from(a, b, k);
                assert(k > 0);
                assert forall|i: int| 0 <= i < k - 1 implies #[trigger] x[i] == y[i] by {
                    assert(a[i + 1] == b[i + 1]);
                }
                assert(is_lesser_from(x, y, k - 1));
            }
        }
    }
}

} // verus!
