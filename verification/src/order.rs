//! Stable sorting.

use vstd::prelude::*;

use crate::text;

verus! {

/// `s` with `x` put in behind the last item that does not come after it.
pub open spec fn placed<T>(s: Seq<T>, x: T, before: spec_fn(T, T) -> bool) -> Seq<T>
    decreases s.len(),
{
    if s.len() > 0 && before(x, s.last()) {
        placed(s.drop_last(), x, before).push(s.last())
    } else {
        s.push(x)
    }
}

/// The items of `s` in the order that `before` gives; items of which neither
/// comes before the other stay in the order in which they stand in `s`.
pub open spec fn arranged<T>(s: Seq<T>, before: spec_fn(T, T) -> bool) -> Seq<T>
    decreases s.len(),
{
    if s.len() == 0 {
        s
    } else {
        placed(arranged(s.drop_last(), before), s.last(), before)
    }
}

/// Whether `before` is a strict weak order: of two items at most one comes
/// before the other, and where one does, a third one comes after the first or
/// before the second.
pub open spec fn is_order<T>(before: spec_fn(T, T) -> bool) -> bool {
    &&& forall|a: T, b: T| #[trigger] before(a, b) ==> !before(b, a)
    &&& forall|a: T, b: T, c: T|
        #![trigger before(a, b), before(a, c)]
        #![trigger before(a, b), before(c, b)]
        before(a, b) ==> before(a, c) || before(c, b)
}

/// Whether no item comes before one that stands earlier.
pub open spec fn is_arranged<T>(s: Seq<T>, before: spec_fn(T, T) -> bool) -> bool {
    forall|i: int, j: int| 0 <= i < j < s.len() ==> !before(#[trigger] s[j], #[trigger] s[i])
}

proof fn lemma_placed<T>(s: Seq<T>, x: T, before: spec_fn(T, T) -> bool)
    ensures
        placed(s, x, before).len() == s.len() + 1,
        placed(s, x, before).to_multiset() == s.to_multiset().insert(x),
        is_order(before) && is_arranged(s, before) ==> is_arranged(placed(s, x, before), before),
        forall|i: int|
            0 <= i <= s.len() ==> (#[trigger] placed(s, x, before)[i] == x || s.contains(
                placed(s, x, before)[i],
            )),
    decreases s.len(),
{
    broadcast use vstd::seq_lib::group_to_multiset_ensures;

    let p = placed(s, x, before);
    if s.len() > 0 && before(x, s.last()) {
        let d = s.drop_last();
        let q = placed(d, x, before);
        lemma_placed(d, x, before);
        assert(s =~= d.push(s.last()));
        assert(p.to_multiset() =~= s.to_multiset().insert(x));
        assert forall|i: int| 0 <= i <= s.len() implies (#[trigger] p[i] == x || s.contains(p[i])) by {
            if i < s.len() {
                assert(p[i] == q[i]);
                if q[i] != x {
                    let k = choose|k: int| 0 <= k < d.len() && d[k] == q[i];
                    assert(s[k] == q[i]);
                }
            } else {
                assert(p[i] == s[s.len() - 1]);
            }
        }
        if is_order(before) && is_arranged(s, before) {
            assert(is_arranged(d, before));
            assert forall|i: int, j: int| 0 <= i < j < p.len() implies !before(
                #[trigger] p[j],
                #[trigger] p[i],
            ) by {
                if j < s.len() {
                    assert(p[j] == q[j] && p[i] == q[i]);
                } else {
                    assert(p[j] == s.last());
                    assert(p[i] == q[i]);
                    if q[i] == x {
                        assert(!before(s.last(), x));
                    } else {
                        let k = choose|k: int| 0 <= k < d.len() && d[k] == q[i];
                        assert(s[k] == q[i]);
                        assert(!before(s[s.len() - 1], s[k]));
                    }
                }
            }
        }
    } else {
        if is_order(before) && is_arranged(s, before) {
            assert forall|i: int, j: int| 0 <= i < j < p.len() implies !before(
                #[trigger] p[j],
                #[trigger] p[i],
            ) by {
                if j == s.len() {
                    if i < s.len() - 1 {
                        assert(!before(s[s.len() - 1], s[i]));
                        if before(x, s[i]) {
                            assert(before(x, s[s.len() - 1]) || before(s[s.len() - 1], s[i]));
                        }
                    }
                }
            }
        }
    }
}

/// Arranging keeps the items and puts them in order.
pub proof fn law_arranged<T>(s: Seq<T>, before: spec_fn(T, T) -> bool)
    ensures
        arranged(s, before).len() == s.len(),
        arranged(s, before).to_multiset() == s.to_multiset(),
        is_order(before) ==> is_arranged(arranged(s, before), before),
    decreases s.len(),
{
    broadcast use vstd::seq_lib::group_to_multiset_ensures;

    if s.len() > 0 {
        let d = s.drop_last();
        law_arranged(d, before);
        lemma_placed(arranged(d, before), s.last(), before);
        assert(s =~= d.push(s.last()));
    }
}

proof fn lemma_placed_stable<T>(s: Seq<T>, x: T, before: spec_fn(T, T) -> bool) -> (k: int)
    ensures
        0 <= k <= s.len(),
        placed(s, x, before) == s.insert(k, x),
        forall|i: int| k <= i < s.len() ==> before(x, #[trigger] s[i]),
    decreases s.len(),
{
    if s.len() > 0 && before(x, s.last()) {
        let d = s.drop_last();
        let k = lemma_placed_stable(d, x, before);
        assert(d.insert(k, x).push(s.last()) =~= s.insert(k, x));
        assert forall|i: int| k <= i < s.len() implies before(x, #[trigger] s[i]) by {
            if i < d.len() {
                assert(d[i] == s[i]);
            }
        }
        k
    } else {
        assert(s.insert(s.len() as int, x) =~= s.push(x));
        s.len() as int
    }
}

/// Where the items of an arrangement came from: each from one place, and of two
/// the first came from the earlier place unless it comes before the second.
pub proof fn lemma_arranged_stable<T>(s: Seq<T>, before: spec_fn(T, T) -> bool) -> (at: Seq<int>)
    ensures
        at.len() == s.len(),
        arranged(s, before).len() == s.len(),
        forall|i: int|
            0 <= i < at.len() ==> 0 <= #[trigger] at[i] < s.len() && s[at[i]] == arranged(
                s,
                before,
            )[i],
        at.no_duplicates(),
        forall|i: int, j: int|
            0 <= i < j < at.len() ==> #[trigger] at[i] < #[trigger] at[j] || before(
                arranged(s, before)[i],
                arranged(s, before)[j],
            ),
    decreases s.len(),
{
    if s.len() == 0 {
        Seq::empty()
    } else {
        let d = s.drop_last();
        let x = s.last();
        let rest = lemma_arranged_stable(d, before);
        let a = arranged(d, before);
        let k = lemma_placed_stable(a, x, before);
        let at = rest.insert(k, s.len() - 1);
        let r = arranged(s, before);
        assert forall|i: int| 0 <= i < at.len() implies 0 <= #[trigger] at[i] < s.len() && s[at[i]]
            == r[i] by {
            if i < k {
                assert(at[i] == rest[i] && r[i] == a[i] && d[rest[i]] == s[rest[i]]);
            } else if i > k {
                assert(at[i] == rest[i - 1] && r[i] == a[i - 1]);
                assert(d[rest[i - 1]] == s[rest[i - 1]]);
            }
        }
        assert forall|i: int, j: int| 0 <= i < j < at.len() implies #[trigger] at[i]
            < #[trigger] at[j] || before(r[i], r[j]) by {
            if i == k {
                assert(r[j] == a[j - 1]);
                assert(before(x, a[j - 1]));
            } else if j == k {
                assert(at[i] == rest[i]);
            } else {
                let p = if i < k { i } else { i - 1 };
                let q = if j < k { j } else { j - 1 };
                assert(at[i] == rest[p] && at[j] == rest[q]);
                assert(r[i] == a[p] && r[j] == a[q]);
            }
        }
        assert forall|i: int, j: int| 0 <= i < at.len() && 0 <= j < at.len() && i
            != j implies at[i] != at[j] by {
            let p = if i < k { i } else { i - 1 };
            let q = if j < k { j } else { j - 1 };
            if i != k {
                assert(at[i] == rest[p]);
            }
            if j != k {
                assert(at[j] == rest[q]);
            }
        }
        at
    }
}

/// Arranging neither adds nor drops an item.
pub proof fn lemma_same_items<T>(s: Seq<T>, before: spec_fn(T, T) -> bool)
    ensures
        forall|x: T| #[trigger] arranged(s, before).contains(x) == s.contains(x),
{
    broadcast use vstd::seq_lib::group_to_multiset_ensures;

    law_arranged(s, before);
    let a = arranged(s, before);
    assert forall|x: T| #[trigger] a.contains(x) == s.contains(x) by {
        assert(a.contains(x) == (a.to_multiset().count(x) > 0));
        assert(s.contains(x) == (s.to_multiset().count(x) > 0));
    }
}

/// Two arrangements of the same items are the same where of each two different
/// items one comes before the other.
pub proof fn lemma_arranged_unique<T>(a: Seq<T>, b: Seq<T>, before: spec_fn(T, T) -> bool)
    requires
        is_arranged(a, before),
        is_arranged(b, before),
        a.to_multiset() == b.to_multiset(),
        forall|x: T, y: T|
            #![trigger a.contains(x), a.contains(y)]
            a.contains(x) && a.contains(y) && x != y ==> before(x, y) || before(y, x),
    ensures
        a == b,
    decreases a.len(),
{
    broadcast use vstd::seq_lib::group_to_multiset_ensures;

    assert(a.len() == a.to_multiset().len());
    assert(b.len() == b.to_multiset().len());
    if a.len() > 0 {
        let x = a.last();
        let y = b.last();
        assert(a.contains(x)) by {
            assert(a[a.len() - 1] == x);
        }
        assert(b.contains(y)) by {
            assert(b[b.len() - 1] == y);
        }
        assert(a.to_multiset().count(x) > 0);
        assert(b.to_multiset().count(y) > 0);
        assert(b.contains(x));
        assert(a.contains(y));
        if x != y {
            let i = choose|i: int| 0 <= i < a.len() && a[i] == y;
            let j = choose|j: int| 0 <= j < b.len() && b[j] == x;
            assert(!before(a[a.len() - 1], a[i]));
            assert(!before(b[b.len() - 1], b[j]));
        }
        let c = a.drop_last();
        let d = b.drop_last();
        assert(a =~= c.push(x));
        assert(b =~= d.push(x));
        assert(a.to_multiset() =~= c.to_multiset().insert(x));
        assert(b.to_multiset() =~= d.to_multiset().insert(x));
        assert(c.to_multiset() =~= a.to_multiset().remove(x));
        assert(d.to_multiset() =~= b.to_multiset().remove(x));
        assert forall|p: T, q: T|
            #![trigger c.contains(p), c.contains(q)]
            c.contains(p) && c.contains(q) && p != q implies before(p, q) || before(q, p) by {
            let i = choose|i: int| 0 <= i < c.len() && c[i] == p;
            let j = choose|j: int| 0 <= j < c.len() && c[j] == q;
            assert(a[i] == p && a[j] == q);
            assert(a.contains(p) && a.contains(q));
        }
        lemma_arranged_unique(c, d, before);
    } else {
        assert(a =~= b);
    }
}

proof fn lemma_placed_map<T, U>(
    s: Seq<T>,
    x: T,
    before: spec_fn(T, T) -> bool,
    f: spec_fn(T) -> U,
    mapped: spec_fn(U, U) -> bool,
)
    requires
        forall|a: T, b: T| #[trigger] before(a, b) == mapped(f(a), f(b)),
    ensures
        placed(s, x, before).map_values(f) == placed(s.map_values(f), f(x), mapped),
    decreases s.len(),
{
    if s.len() > 0 && before(x, s.last()) {
        lemma_placed_map(s.drop_last(), x, before, f, mapped);
        assert(s.map_values(f).drop_last() =~= s.drop_last().map_values(f));
        assert(placed(s, x, before).map_values(f) =~= placed(s.drop_last(), x, before).map_values(
            f,
        ).push(f(s.last())));
    } else {
        assert(s.len() > 0 ==> s.map_values(f).last() == f(s.last()));
        assert(s.push(x).map_values(f) =~= s.map_values(f).push(f(x)));
    }
}

/// Arranging by what is seen of the items arranges what is seen of them.
pub proof fn lemma_arranged_map<T, U>(
    s: Seq<T>,
    before: spec_fn(T, T) -> bool,
    f: spec_fn(T) -> U,
    mapped: spec_fn(U, U) -> bool,
)
    requires
        forall|a: T, b: T| #[trigger] before(a, b) == mapped(f(a), f(b)),
    ensures
        arranged(s, before).map_values(f) == arranged(s.map_values(f), mapped),
    decreases s.len(),
{
    if s.len() > 0 {
        lemma_arranged_map(s.drop_last(), before, f, mapped);
        lemma_placed_map(arranged(s.drop_last(), before), s.last(), before, f, mapped);
        assert(s.map_values(f).drop_last() =~= s.drop_last().map_values(f));
    } else {
        assert(s.map_values(f) =~= arranged(s.map_values(f), mapped));
        assert(arranged(s, before).map_values(f) =~= s.map_values(f));
    }
}

proof fn lemma_placed_at<T>(s: Seq<T>, x: T, before: spec_fn(T, T) -> bool, k: int)
    requires
        0 <= k <= s.len(),
        k > 0 ==> !before(x, s[k - 1]),
        forall|j: int| k <= j < s.len() ==> before(x, #[trigger] s[j]),
    ensures
        placed(s, x, before) == s.insert(k, x),
    decreases s.len(),
{
    if s.len() > 0 && before(x, s.last()) {
        assert(k < s.len());
        assert forall|j: int| k <= j < s.drop_last().len() implies before(
            x,
            #[trigger] s.drop_last()[j],
        ) by {
            assert(s[j] == s.drop_last()[j]);
        }
        lemma_placed_at(s.drop_last(), x, before, k);
        assert(s.drop_last().insert(k, x).push(s.last()) =~= s.insert(k, x));
    } else {
        assert(k == s.len()) by {
            if k < s.len() {
                assert(before(x, s[s.len() - 1]));
            }
        }
        assert(s.insert(k, x) =~= s.push(x));
    }
}

/// See [`arranged`]; `less` answers as `before` does.
pub fn arrange<T, F: Fn(&T, &T) -> bool>(
    v: Vec<T>,
    Ghost(before): Ghost<spec_fn(T, T) -> bool>,
    less: F,
) -> (r: Vec<T>)
    requires
        forall|a: T, b: T| #[trigger] less.requires((&a, &b)),
        forall|a: T, b: T, t: bool| #[trigger] less.ensures((&a, &b), t) ==> t == before(a, b),
    ensures
        r@ == arranged(v@, before),
{
    let ghost all = v@;
    let mut rest = v;
    let mut taken: Vec<T> = Vec::new();
    // The items are moved over in their order: the last of the reversed rest
    // is the next one.
    let mut rev: Vec<T> = Vec::new();
    while rest.len() > 0
        invariant
            rest@.len() + rev@.len() == all.len(),
            rest@ == all.take(rest@.len() as int),
            forall|i: int| 0 <= i < rev@.len() ==> #[trigger] rev@[i] == all[all.len() - 1 - i],
        decreases rest.len(),
    {
        let ghost n = rest@.len();
        let x = rest.pop().unwrap();
        rev.push(x);
        assert(rest@ =~= all.take(n - 1));
    }
    while rev.len() > 0
        invariant
            taken@.len() + rev@.len() == all.len(),
            forall|i: int| 0 <= i < rev@.len() ==> #[trigger] rev@[i] == all[all.len() - 1 - i],
            taken@ == arranged(all.take(taken@.len() as int), before),
            forall|a: T, b: T| #[trigger] less.requires((&a, &b)),
            forall|a: T, b: T, t: bool| #[trigger] less.ensures((&a, &b), t) ==> t == before(a, b),
        decreases rev.len(),
    {
        let ghost n = taken@.len() as int;
        let x = rev.pop().unwrap();
        assert(x == all[n]);
        let mut k: usize = taken.len();
        while k > 0 && less(&x, &taken[k - 1])
            invariant
                k <= taken.len(),
                forall|j: int| k <= j < taken@.len() ==> before(x, #[trigger] taken@[j]),
                forall|a: T, b: T| #[trigger] less.requires((&a, &b)),
                forall|a: T, b: T, t: bool| #[trigger] less.ensures((&a, &b), t) ==> t == before(a, b),
            ensures
                k > 0 ==> !before(x, taken@[k - 1]),
            decreases k,
        {
            k -= 1;
        }
        proof {
            lemma_placed_at(taken@, x, before, k as int);
            assert(all.take(n + 1).drop_last() =~= all.take(n));
            assert(all.take(n + 1).last() == x);
        }
        taken.insert(k, x);
        proof {
            law_arranged(all.take(n), before);
        }
    }
    assert(all.take(all.len() as int) =~= all);
    taken
}

/// The order of texts.
pub open spec fn text_order() -> spec_fn(Seq<char>, Seq<char>) -> bool {
    |a: Seq<char>, b: Seq<char>| text::text_less(a, b)
}

/// The texts in their order.
pub fn arrange_texts(v: Vec<String>) -> (r: Vec<String>)
    ensures
        text::views(r@) == arranged(text::views(v@), text_order()),
{
    let ghost before = |a: String, b: String| text::text_less(a@, b@);
    let less = |a: &String, b: &String| -> (t: bool)
        ensures
            t == text::text_less(a@, b@),
    { text::less(a.as_str(), b.as_str()) };
    proof {
        lemma_arranged_map(v@, before, |s: String| s@, text_order());
    }
    let ghost all = v@;
    let r = arrange(v, Ghost(before), less);
    assert(text::views(r@) =~= r@.map_values(|s: String| s@));
    assert(text::views(all) =~= all.map_values(|s: String| s@));
    r
}

/// Of two texts at most one comes before the other.
pub proof fn lemma_text_asymmetric(a: Seq<char>, b: Seq<char>)
    ensures
        !(text::text_less(a, b) && text::text_less(b, a)),
    decreases a.len(),
{
    if a.len() > 0 && b.len() > 0 {
        lemma_text_asymmetric(a.drop_first(), b.drop_first());
    }
}

/// A text that comes before another comes before any third one, or that one
/// comes before the other.
pub proof fn lemma_text_between(a: Seq<char>, b: Seq<char>, c: Seq<char>)
    requires
        text::text_less(a, b),
    ensures
        text::text_less(a, c) || text::text_less(c, b),
    decreases a.len(),
{
    if a.len() > 0 && c.len() > 0 && a[0] == b[0] && a[0] == c[0] {
        lemma_text_between(a.drop_first(), b.drop_first(), c.drop_first());
    }
}

/// Of two different texts one comes before the other.
pub proof fn lemma_text_total(a: Seq<char>, b: Seq<char>)
    ensures
        a == b || text::text_less(a, b) || text::text_less(b, a),
    decreases a.len(),
{
    if a.len() > 0 && b.len() > 0 && a[0] == b[0] {
        lemma_text_total(a.drop_first(), b.drop_first());
        if a.drop_first() == b.drop_first() {
            assert(a =~= seq![a[0]] + a.drop_first());
            assert(b =~= seq![b[0]] + b.drop_first());
        }
    } else if a.len() == 0 && b.len() == 0 {
        assert(a =~= b);
    }
}

} // verus!
