//! Tables: sequences of rows, with the selections and updates that the store
//! is made of.

use vstd::hash_set::StringHashSet;
use vstd::prelude::*;

use crate::text;
use crate::types;

verus! {

/// A row of a table.
pub trait Row: View + Sized {
    /// Another row that holds the same.
    fn copy(&self) -> (r: Self)
        ensures
            r@ == self@,
    ;
}

/// A row that a key identifies.
pub trait Keyed: Row {
    /// The type of the keys.
    type Key;

    /// The key of what a row holds.
    spec fn key(m: Self::V) -> Self::Key;

    /// Whether two rows have the same key.
    fn same_key(&self, other: &Self) -> (r: bool)
        ensures
            r == (Self::key(self@) == Self::key(other@)),
    ;
}

/// What the rows of a table hold.
pub open spec fn seen<T: View>(rows: Seq<T>) -> Seq<T::V> {
    rows.map_values(|t: T| t@)
}

/// The items that pass the test, in their order.
pub open spec fn kept<M>(s: Seq<M>, test: spec_fn(M) -> bool) -> Seq<M>
    decreases s.len(),
{
    if s.len() == 0 {
        s
    } else {
        let rest = kept(s.drop_last(), test);
        if test(s.last()) {
            rest.push(s.last())
        } else {
            rest
        }
    }
}

/// The place of the first item that passes the test.
pub open spec fn first_at<M>(s: Seq<M>, test: spec_fn(M) -> bool) -> Option<int>
    decreases s.len(),
{
    if s.len() == 0 {
        None
    } else {
        match first_at(s.drop_last(), test) {
            Some(i) => Some(i),
            None => if test(s.last()) {
                Some(s.len() - 1)
            } else {
                None
            },
        }
    }
}

/// The first item that passes the test.
pub open spec fn first<M>(s: Seq<M>, test: spec_fn(M) -> bool) -> Option<M> {
    match first_at(s, test) {
        Some(i) => Some(s[i]),
        None => None,
    }
}

/// The items without those that stand earlier too.
pub open spec fn distinct<M>(s: Seq<M>) -> Seq<M>
    decreases s.len(),
{
    if s.len() == 0 {
        s
    } else {
        let rest = distinct(s.drop_last());
        if rest.contains(s.last()) {
            rest
        } else {
            rest.push(s.last())
        }
    }
}

/// Whether any item passes the test.
pub open spec fn any<M>(s: Seq<M>, test: spec_fn(M) -> bool) -> bool {
    first_at(s, test) is Some
}

/// The test for a key.
pub open spec fn has_key<T: Keyed>(key: T::Key) -> spec_fn(T::V) -> bool {
    |m: T::V| T::key(m) == key
}

/// The test for another key.
pub open spec fn other_key<T: Keyed>(key: T::Key) -> spec_fn(T::V) -> bool {
    |m: T::V| T::key(m) != key
}

/// The table after `m` was put in the place of the row with its key, or at the
/// end where there is none.
pub open spec fn upserted<T: Keyed>(s: Seq<T::V>, m: T::V) -> Seq<T::V> {
    match first_at(s, has_key::<T>(T::key(m))) {
        Some(i) => s.update(i, m),
        None => s.push(m),
    }
}

/// The table after the row with `m`'s key was taken out and `m` put at the end.
pub open spec fn replaced<T: Keyed>(s: Seq<T::V>, m: T::V) -> Seq<T::V> {
    kept(s, other_key::<T>(T::key(m))).push(m)
}

/// The table after `m` was put at the end, unless a row has its key already.
pub open spec fn added<T: Keyed>(s: Seq<T::V>, m: T::V) -> Seq<T::V> {
    if any(s, has_key::<T>(T::key(m))) {
        s
    } else {
        s.push(m)
    }
}

/// The table after [`upserted`] for each item in turn.
pub open spec fn all_upserted<T: Keyed>(s: Seq<T::V>, ms: Seq<T::V>) -> Seq<T::V>
    decreases ms.len(),
{
    if ms.len() == 0 {
        s
    } else {
        upserted::<T>(all_upserted::<T>(s, ms.drop_last()), ms.last())
    }
}

/// The table after [`replaced`] for each item in turn.
pub open spec fn all_replaced<T: Keyed>(s: Seq<T::V>, ms: Seq<T::V>) -> Seq<T::V>
    decreases ms.len(),
{
    if ms.len() == 0 {
        s
    } else {
        replaced::<T>(all_replaced::<T>(s, ms.drop_last()), ms.last())
    }
}

/// The table after [`added`] for each item in turn.
pub open spec fn all_added<T: Keyed>(s: Seq<T::V>, ms: Seq<T::V>) -> Seq<T::V>
    decreases ms.len(),
{
    if ms.len() == 0 {
        s
    } else {
        added::<T>(all_added::<T>(s, ms.drop_last()), ms.last())
    }
}

/// Whether no two rows have the same key.
pub open spec fn unique<T: Keyed>(s: Seq<T::V>) -> bool {
    forall|i: int, j: int|
        0 <= i < j < s.len() ==> T::key(#[trigger] s[i]) != T::key(#[trigger] s[j])
}

/// What is kept is what passes, once for each time that it stands there.
pub proof fn lemma_kept<M>(s: Seq<M>, test: spec_fn(M) -> bool)
    ensures
        kept(s, test).len() <= s.len(),
        forall|i: int|
            0 <= i < kept(s, test).len() ==> test(#[trigger] kept(s, test)[i]) && s.contains(
                kept(s, test)[i],
            ),
        forall|x: M| #[trigger] kept(s, test).contains(x) <==> s.contains(x) && test(x),
    decreases s.len(),
{
    if s.len() > 0 {
        let d = s.drop_last();
        lemma_kept(d, test);
        let k = kept(s, test);
        assert forall|i: int| 0 <= i < k.len() implies test(#[trigger] k[i]) && s.contains(k[i]) by {
            if i < kept(d, test).len() {
                assert(k[i] == kept(d, test)[i]);
                let j = choose|j: int| 0 <= j < d.len() && d[j] == k[i];
                assert(s[j] == k[i]);
            } else {
                assert(s[s.len() - 1] == k[i]);
            }
        }
        assert forall|x: M| #[trigger] k.contains(x) <==> s.contains(x) && test(x) by {
            if s.contains(x) && test(x) {
                let j = choose|j: int| 0 <= j < s.len() && s[j] == x;
                if j < d.len() {
                    assert(d[j] == x);
                    assert(d.contains(x));
                    assert(kept(d, test).contains(x));
                    let i = choose|i: int|
                        0 <= i < kept(d, test).len() && kept(d, test)[i] == x;
                    assert(k[i] == x);
                } else {
                    assert(k[k.len() - 1] == x);
                }
            }
            if k.contains(x) {
                let i = choose|i: int| 0 <= i < k.len() && k[i] == x;
                assert(test(k[i]));
            }
        }
    }
}

/// Keeping goes through item by item.
pub proof fn lemma_kept_push<M>(s: Seq<M>, x: M, test: spec_fn(M) -> bool)
    ensures
        kept(s.push(x), test) == if test(x) {
            kept(s, test).push(x)
        } else {
            kept(s, test)
        },
{
    assert(s.push(x).drop_last() =~= s);
}

/// Keeping the next item too.
pub proof fn lemma_kept_next<M>(s: Seq<M>, i: int, test: spec_fn(M) -> bool)
    requires
        0 <= i < s.len(),
    ensures
        kept(s.take(i + 1), test) == if test(s[i]) {
            kept(s.take(i), test).push(s[i])
        } else {
            kept(s.take(i), test)
        },
{
    assert(s.take(i + 1).drop_last() =~= s.take(i));
}

/// What the place of the first item that passes says.
pub proof fn lemma_first_at<M>(s: Seq<M>, test: spec_fn(M) -> bool)
    ensures
        match first_at(s, test) {
            Some(i) => 0 <= i < s.len() && test(s[i]) && forall|j: int|
                0 <= j < i ==> !test(#[trigger] s[j]),
            None => forall|j: int| 0 <= j < s.len() ==> !test(#[trigger] s[j]),
        },
    decreases s.len(),
{
    if s.len() > 0 {
        let d = s.drop_last();
        lemma_first_at(d, test);
        match first_at(d, test) {
            Some(i) => {
                assert(d[i] == s[i]);
                assert forall|j: int| 0 <= j < i implies !test(#[trigger] s[j]) by {
                    assert(d[j] == s[j]);
                }
            },
            None => {
                assert forall|j: int| 0 <= j < s.len() - 1 implies !test(#[trigger] s[j]) by {
                    assert(d[j] == s[j]);
                }
            },
        }
    }
}

/// Some item passes where one of those that are there does.
pub proof fn lemma_any<M>(s: Seq<M>, test: spec_fn(M) -> bool)
    ensures
        any(s, test) == (exists|x: M| #[trigger] s.contains(x) && test(x)),
{
    lemma_first_at(s, test);
    match first_at(s, test) {
        Some(i) => {
            assert(s.contains(s[i]) && test(s[i]));
        },
        None => {
            assert forall|x: M| #[trigger] s.contains(x) implies !test(x) by {
                let i = choose|i: int| 0 <= i < s.len() && s[i] == x;
                assert(!test(s[i]));
            }
        },
    }
}

/// The first item that passes is the one before which none does.
pub proof fn lemma_first_is<M>(s: Seq<M>, test: spec_fn(M) -> bool, i: int)
    requires
        0 <= i <= s.len(),
        i < s.len() ==> test(s[i]),
        forall|j: int| 0 <= j < i ==> !test(#[trigger] s[j]),
    ensures
        first_at(s, test) == if i < s.len() {
            Some(i)
        } else {
            None
        },
{
    lemma_first_at(s, test);
}

/// Dropping rows that do not pass a test does not change the first that passes.
pub proof fn lemma_kept_first<M>(s: Seq<M>, keep: spec_fn(M) -> bool, test: spec_fn(M) -> bool)
    requires
        forall|x: M| #[trigger] test(x) ==> keep(x),
    ensures
        first(kept(s, keep), test) == first(s, test),
    decreases s.len(),
{
    if s.len() > 0 {
        let d = s.drop_last();
        lemma_kept_first(d, keep, test);
        let k = kept(d, keep);
        lemma_first_at(d, test);
        lemma_first_at(k, test);
        assert(k.push(s.last()).drop_last() =~= k);
        match first_at(d, test) {
            Some(i) => {
                assert(d[i] == s[i]);
            },
            None => {},
        }
    }
}

/// [`distinct`] holds each item once, in the order of the first times.
pub proof fn lemma_distinct<M>(s: Seq<M>)
    ensures
        distinct(s).no_duplicates(),
        forall|x: M| #[trigger] distinct(s).contains(x) <==> s.contains(x),
    decreases s.len(),
{
    if s.len() > 0 {
        let d = s.drop_last();
        lemma_distinct(d);
        assert forall|x: M| #[trigger] distinct(s).contains(x) <==> s.contains(x) by {
            if s.contains(x) {
                let j = choose|j: int| 0 <= j < s.len() && s[j] == x;
                if j < d.len() {
                    assert(d[j] == x);
                    assert(distinct(d).contains(x));
                    let i = choose|i: int| 0 <= i < distinct(d).len() && distinct(d)[i] == x;
                    assert(distinct(s)[i] == x);
                } else if !distinct(d).contains(x) {
                    assert(distinct(s)[distinct(s).len() - 1] == x);
                }
            }
            if distinct(s).contains(x) {
                let i = choose|i: int| 0 <= i < distinct(s).len() && distinct(s)[i] == x;
                if i < distinct(d).len() {
                    assert(distinct(d)[i] == x);
                    assert(distinct(d).contains(x));
                    assert(d.contains(x));
                    let j = choose|j: int| 0 <= j < d.len() && d[j] == x;
                    assert(s[j] == x);
                } else {
                    assert(s[s.len() - 1] == x);
                }
            }
        }
    }
}

/// A table with unique keys keeps them when a row is put in.
pub proof fn lemma_unique_upserted<T: Keyed>(s: Seq<T::V>, m: T::V)
    requires
        unique::<T>(s),
    ensures
        unique::<T>(upserted::<T>(s, m)),
{
    lemma_first_at(s, has_key::<T>(T::key(m)));
    let u = upserted::<T>(s, m);
    match first_at(s, has_key::<T>(T::key(m))) {
        Some(k) => {
            assert forall|i: int, j: int| 0 <= i < j < u.len() implies T::key(#[trigger] u[i])
                != T::key(#[trigger] u[j]) by {
                assert(T::key(s[i]) != T::key(s[j]));
                assert(T::key(s[k]) == T::key(m));
            }
        },
        None => {
            assert forall|i: int, j: int| 0 <= i < j < u.len() implies T::key(#[trigger] u[i])
                != T::key(#[trigger] u[j]) by {
                assert(has_key::<T>(T::key(m))(s[i]) == (T::key(s[i]) == T::key(m)));
            }
        },
    }
}

/// A table with unique keys keeps them when a row is added.
pub proof fn lemma_unique_added<T: Keyed>(s: Seq<T::V>, m: T::V)
    requires
        unique::<T>(s),
    ensures
        unique::<T>(added::<T>(s, m)),
{
    lemma_first_at(s, has_key::<T>(T::key(m)));
    if !any(s, has_key::<T>(T::key(m))) {
        let u = s.push(m);
        assert forall|i: int, j: int| 0 <= i < j < u.len() implies T::key(#[trigger] u[i])
            != T::key(#[trigger] u[j]) by {
            assert(has_key::<T>(T::key(m))(s[i]) == (T::key(s[i]) == T::key(m)));
        }
    }
}

/// A table with unique keys keeps them when rows are taken out.
pub proof fn lemma_unique_kept<T: Keyed>(s: Seq<T::V>, test: spec_fn(T::V) -> bool)
    requires
        unique::<T>(s),
    ensures
        unique::<T>(kept(s, test)),
    decreases s.len(),
{
    if s.len() > 0 {
        let d = s.drop_last();
        assert(unique::<T>(d)) by {
            assert forall|i: int, j: int| 0 <= i < j < d.len() implies T::key(#[trigger] d[i])
                != T::key(#[trigger] d[j]) by {
                assert(d[i] == s[i] && d[j] == s[j]);
            }
        }
        lemma_unique_kept::<T>(d, test);
        lemma_kept(d, test);
        let k = kept(s, test);
        assert forall|i: int, j: int| 0 <= i < j < k.len() implies T::key(#[trigger] k[i])
            != T::key(#[trigger] k[j]) by {
            if j < kept(d, test).len() {
                assert(k[i] == kept(d, test)[i] && k[j] == kept(d, test)[j]);
            } else {
                assert(d.contains(kept(d, test)[i]));
                let p = choose|p: int| 0 <= p < d.len() && d[p] == k[i];
                assert(s[p] == k[i]);
                assert(s[s.len() - 1] == k[j]);
            }
        }
    }
}

/// A table with unique keys keeps them when a row is replaced.
pub proof fn lemma_unique_replaced<T: Keyed>(s: Seq<T::V>, m: T::V)
    requires
        unique::<T>(s),
    ensures
        unique::<T>(replaced::<T>(s, m)),
{
    let test = other_key::<T>(T::key(m));
    lemma_unique_kept::<T>(s, test);
    lemma_kept(s, test);
    let k = kept(s, test);
    let u = replaced::<T>(s, m);
    assert forall|i: int, j: int| 0 <= i < j < u.len() implies T::key(#[trigger] u[i]) != T::key(
        #[trigger] u[j],
    ) by {
        if j < k.len() {
            assert(u[i] == k[i] && u[j] == k[j]);
        } else {
            assert(test(k[i]));
        }
    }
}

/// Putting rows in one by one keeps the keys unique.
pub proof fn lemma_unique_all_replaced<T: Keyed>(s: Seq<T::V>, ms: Seq<T::V>)
    requires
        unique::<T>(s),
    ensures
        unique::<T>(all_replaced::<T>(s, ms)),
    decreases ms.len(),
{
    if ms.len() > 0 {
        lemma_unique_all_replaced::<T>(s, ms.drop_last());
        lemma_unique_replaced::<T>(
            all_replaced::<T>(s, ms.drop_last()),
            ms.last(),
        );
    }
}

/// Putting rows in one by one keeps the keys unique.
pub proof fn lemma_unique_all_upserted<T: Keyed>(s: Seq<T::V>, ms: Seq<T::V>)
    requires
        unique::<T>(s),
    ensures
        unique::<T>(all_upserted::<T>(s, ms)),
    decreases ms.len(),
{
    if ms.len() > 0 {
        lemma_unique_all_upserted::<T>(s, ms.drop_last());
        lemma_unique_upserted::<T>(
            all_upserted::<T>(s, ms.drop_last()),
            ms.last(),
        );
    }
}

/// Adding rows one by one keeps the keys unique.
pub proof fn lemma_unique_all_added<T: Keyed>(s: Seq<T::V>, ms: Seq<T::V>)
    requires
        unique::<T>(s),
    ensures
        unique::<T>(all_added::<T>(s, ms)),
    decreases ms.len(),
{
    if ms.len() > 0 {
        lemma_unique_all_added::<T>(s, ms.drop_last());
        lemma_unique_added::<T>(all_added::<T>(s, ms.drop_last()), ms.last());
    }
}

/// See [`kept`]; `test` answers as `keep` does.
pub fn select<T: Row, F: Fn(&T) -> bool>(
    rows: &Vec<T>,
    Ghost(keep): Ghost<spec_fn(T::V) -> bool>,
    test: F,
) -> (r: Vec<T>)
    requires
        forall|a: T| #[trigger] test.requires((&a,)),
        forall|a: T, t: bool| #[trigger] test.ensures((&a,), t) ==> t == keep(a@),
    ensures
        seen(r@) == kept(seen(rows@), keep),
{
    let mut out: Vec<T> = Vec::new();
    let mut i: usize = 0;
    while i < rows.len()
        invariant
            i <= rows.len(),
            seen(out@) == kept(seen(rows@).take(i as int), keep),
            forall|a: T| #[trigger] test.requires((&a,)),
            forall|a: T, t: bool| #[trigger] test.ensures((&a,), t) ==> t == keep(a@),
        decreases rows.len() - i,
    {
        proof {
            lemma_kept_next(seen(rows@), i as int, keep);
        }
        let ghost was = out@;
        if test(&rows[i]) {
            out.push(rows[i].copy());
            assert(seen(out@) =~= seen(was).push(rows@[i as int]@));
        }
        i += 1;
    }
    assert(seen(rows@).take(rows@.len() as int) =~= seen(rows@));
    out
}

/// How many rows [`kept`] leaves.
pub fn count<T: Row, F: Fn(&T) -> bool>(
    rows: &Vec<T>,
    Ghost(keep): Ghost<spec_fn(T::V) -> bool>,
    test: F,
) -> (r: usize)
    requires
        forall|a: T| #[trigger] test.requires((&a,)),
        forall|a: T, t: bool| #[trigger] test.ensures((&a,), t) ==> t == keep(a@),
    ensures
        r == kept(seen(rows@), keep).len(),
{
    let mut n: usize = 0;
    let mut i: usize = 0;
    while i < rows.len()
        invariant
            n <= i <= rows.len(),
            n == kept(seen(rows@).take(i as int), keep).len(),
            forall|a: T| #[trigger] test.requires((&a,)),
            forall|a: T, t: bool| #[trigger] test.ensures((&a,), t) ==> t == keep(a@),
        decreases rows.len() - i,
    {
        proof {
            lemma_kept_next(seen(rows@), i as int, keep);
        }
        if test(&rows[i]) {
            n += 1;
        }
        i += 1;
    }
    assert(seen(rows@).take(rows@.len() as int) =~= seen(rows@));
    n
}

/// See [`first_at`]; the number of rows stands for none.
pub fn find<T: Row, F: Fn(&T) -> bool>(
    rows: &Vec<T>,
    Ghost(want): Ghost<spec_fn(T::V) -> bool>,
    test: F,
) -> (r: usize)
    requires
        forall|a: T| #[trigger] test.requires((&a,)),
        forall|a: T, t: bool| #[trigger] test.ensures((&a,), t) ==> t == want(a@),
    ensures
        r <= rows@.len(),
        first_at(seen(rows@), want) == (if r < rows@.len() {
            Some(r as int)
        } else {
            None
        }),
{
    let mut i: usize = 0;
    while i < rows.len()
        invariant
            i <= rows.len(),
            forall|j: int| 0 <= j < i ==> !want(#[trigger] seen(rows@)[j]),
            forall|a: T| #[trigger] test.requires((&a,)),
            forall|a: T, t: bool| #[trigger] test.ensures((&a,), t) ==> t == want(a@),
        decreases rows.len() - i,
    {
        assert(seen(rows@)[i as int] == rows@[i as int]@);
        if test(&rows[i]) {
            proof {
                lemma_first_is(seen(rows@), want, i as int);
            }
            return i;
        }
        i += 1;
    }
    proof {
        lemma_first_is(seen(rows@), want, rows@.len() as int);
    }
    i
}

/// See [`any`].
pub fn exists_row<T: Row, F: Fn(&T) -> bool>(
    rows: &Vec<T>,
    Ghost(want): Ghost<spec_fn(T::V) -> bool>,
    test: F,
) -> (r: bool)
    requires
        forall|a: T| #[trigger] test.requires((&a,)),
        forall|a: T, t: bool| #[trigger] test.ensures((&a,), t) ==> t == want(a@),
    ensures
        r == any(seen(rows@), want),
{
    find(rows, Ghost(want), test) < rows.len()
}

/// Takes out the rows that do not pass.
pub fn retain<T: Row, F: Fn(&T) -> bool>(
    rows: &mut Vec<T>,
    Ghost(keep): Ghost<spec_fn(T::V) -> bool>,
    test: F,
)
    requires
        forall|a: T| #[trigger] test.requires((&a,)),
        forall|a: T, t: bool| #[trigger] test.ensures((&a,), t) ==> t == keep(a@),
    ensures
        seen(final(rows)@) == kept(seen(old(rows)@), keep),
{
    let all = select(rows, Ghost(keep), test);
    *rows = all;
}

/// Puts a row in by its key; see [`upserted`].
pub fn upsert<T: Keyed>(rows: &mut Vec<T>, row: T)
    ensures
        seen(final(rows)@) == upserted::<T>(seen(old(rows)@), row@),
{
    let ghost was = rows@;
    let ghost m = row@;
    let test = |a: &T| -> (t: bool)
        ensures
            t == (T::key(a@) == T::key(row@)),
    { a.same_key(&row) };
    let k: usize = find(rows, Ghost(has_key::<T>(T::key(m))), test);
    if k < rows.len() {
        rows.set(k, row);
        assert(seen(rows@) =~= seen(was).update(k as int, m));
    } else {
        rows.push(row);
        assert(seen(rows@) =~= seen(was).push(m));
    }
}

/// Puts a row at the end in place of the one with its key; see [`replaced`].
pub fn replace<T: Keyed>(rows: &mut Vec<T>, row: T)
    ensures
        seen(final(rows)@) == replaced::<T>(seen(old(rows)@), row@),
{
    let ghost m = row@;
    let test = |a: &T| -> (t: bool)
        ensures
            t == (T::key(a@) != T::key(row@)),
    { !a.same_key(&row) };
    retain(rows, Ghost(other_key::<T>(T::key(m))), test);
    let ghost was = rows@;
    rows.push(row);
    assert(seen(rows@) =~= seen(was).push(m));
}

/// Puts a row at the end unless its key is there; see [`added`].
pub fn add_new<T: Keyed>(rows: &mut Vec<T>, row: T)
    ensures
        seen(final(rows)@) == added::<T>(seen(old(rows)@), row@),
{
    let ghost was = rows@;
    let ghost m = row@;
    let test = |a: &T| -> (t: bool)
        ensures
            t == (T::key(a@) == T::key(row@)),
    { a.same_key(&row) };
    let k: usize = find(rows, Ghost(has_key::<T>(T::key(m))), test);
    if k == rows.len() {
        rows.push(row);
        assert(seen(rows@) =~= seen(was).push(m));
    }
}

/// [`upsert`] for each row in turn.
pub fn upsert_all<T: Keyed>(rows: &mut Vec<T>, items: &Vec<T>)
    ensures
        seen(final(rows)@) == all_upserted::<T>(seen(old(rows)@), seen(items@)),
{
    let ghost was = seen(rows@);
    let mut i: usize = 0;
    while i < items.len()
        invariant
            i <= items.len(),
            seen(rows@) == all_upserted::<T>(was, seen(items@).take(i as int)),
        decreases items.len() - i,
    {
        upsert(rows, items[i].copy());
        i += 1;
        assert(seen(items@).take(i as int).drop_last() =~= seen(items@).take(i - 1));
    }
    assert(seen(items@).take(items@.len() as int) =~= seen(items@));
}

/// [`replace`] for each row in turn.
pub fn replace_all<T: Keyed>(rows: &mut Vec<T>, items: &Vec<T>)
    ensures
        seen(final(rows)@) == all_replaced::<T>(seen(old(rows)@), seen(items@)),
{
    let ghost was = seen(rows@);
    let mut i: usize = 0;
    while i < items.len()
        invariant
            i <= items.len(),
            seen(rows@) == all_replaced::<T>(was, seen(items@).take(i as int)),
        decreases items.len() - i,
    {
        replace(rows, items[i].copy());
        i += 1;
        assert(seen(items@).take(i as int).drop_last() =~= seen(items@).take(i - 1));
    }
    assert(seen(items@).take(items@.len() as int) =~= seen(items@));
}

/// [`add_new`] for each row in turn.
pub fn add_all<T: Keyed>(rows: &mut Vec<T>, items: &Vec<T>)
    ensures
        seen(final(rows)@) == all_added::<T>(seen(old(rows)@), seen(items@)),
{
    let ghost was = seen(rows@);
    let mut i: usize = 0;
    while i < items.len()
        invariant
            i <= items.len(),
            seen(rows@) == all_added::<T>(was, seen(items@).take(i as int)),
        decreases items.len() - i,
    {
        add_new(rows, items[i].copy());
        i += 1;
        assert(seen(items@).take(i as int).drop_last() =~= seen(items@).take(i - 1));
    }
    assert(seen(items@).take(items@.len() as int) =~= seen(items@));
}

/// Puts a row at the end for each item.
pub fn append<A, T: Row, F: Fn(&A) -> T>(
    rows: &mut Vec<T>,
    items: &Vec<A>,
    Ghost(f): Ghost<spec_fn(A) -> T::V>,
    make: F,
)
    requires
        forall|a: A| #[trigger] make.requires((&a,)),
        forall|a: A, t: T| #[trigger] make.ensures((&a,), t) ==> t@ == f(a),
    ensures
        seen(final(rows)@) == seen(old(rows)@) + items@.map_values(f),
{
    let ghost was = seen(rows@);
    let ghost all = items@.map_values(f);
    let mut i: usize = 0;
    while i < items.len()
        invariant
            i <= items.len(),
            all == items@.map_values(f),
            seen(rows@) == was + all.take(i as int),
            forall|a: A| #[trigger] make.requires((&a,)),
            forall|a: A, t: T| #[trigger] make.ensures((&a,), t) ==> t@ == f(a),
        decreases items.len() - i,
    {
        let ghost now = rows@;
        rows.push(make(&items[i]));
        assert(seen(rows@) =~= seen(now).push(all[i as int]));
        assert(was + all.take(i + 1) =~= (was + all.take(i as int)).push(all[i as int]));
        i += 1;
    }
    assert(all.take(items@.len() as int) =~= all);
}

/// Puts at the end what is said of each row.
pub fn say_all<T: Row, F: Fn(&T) -> String>(
    out: &mut Vec<String>,
    rows: &Vec<T>,
    Ghost(f): Ghost<spec_fn(T::V) -> Seq<char>>,
    say: F,
)
    requires
        forall|a: T| #[trigger] say.requires((&a,)),
        forall|a: T, t: String| #[trigger] say.ensures((&a,), t) ==> t@ == f(a@),
    ensures
        text::views(final(out)@) == text::views(old(out)@) + seen(rows@).map_values(f),
{
    let ghost was = text::views(out@);
    let ghost all = seen(rows@).map_values(f);
    let mut i: usize = 0;
    while i < rows.len()
        invariant
            i <= rows.len(),
            all == seen(rows@).map_values(f),
            text::views(out@) == was + all.take(i as int),
            forall|a: T| #[trigger] say.requires((&a,)),
            forall|a: T, t: String| #[trigger] say.ensures((&a,), t) ==> t@ == f(a@),
        decreases rows.len() - i,
    {
        let ghost now = out@;
        out.push(say(&rows[i]));
        assert(text::views(out@) =~= text::views(now).push(all[i as int]));
        assert(was + all.take(i + 1) =~= (was + all.take(i as int)).push(all[i as int]));
        i += 1;
    }
    assert(all.take(rows@.len() as int) =~= all);
}

/// The first `n` items.
pub open spec fn limited<M>(s: Seq<M>, n: nat) -> Seq<M> {
    if s.len() <= n {
        s
    } else {
        s.take(n as int)
    }
}

/// See [`limited`].
pub fn limit<T: Row>(rows: Vec<T>, n: usize) -> (r: Vec<T>)
    ensures
        seen(r@) == limited(seen(rows@), n as nat),
{
    let ghost all = rows@;
    let mut out = rows;
    out.truncate(n);
    assert(seen(out@) =~= limited(seen(all), n as nat));
    out
}

/// The texts that the rows give, each once; see [`distinct`].
pub fn distinct_texts<T: Row, F: Fn(&T) -> String>(
    rows: &Vec<T>,
    Ghost(f): Ghost<spec_fn(T::V) -> Seq<char>>,
    get: F,
) -> (r: Vec<String>)
    requires
        forall|a: T| #[trigger] get.requires((&a,)),
        forall|a: T, t: String| #[trigger] get.ensures((&a,), t) ==> t@ == f(a@),
    ensures
        text::views(r@) == distinct(seen(rows@).map_values(f)),
{
    let ghost all = seen(rows@).map_values(f);
    let mut out: Vec<String> = Vec::new();
    let mut known = StringHashSet::new();
    let mut i: usize = 0;
    while i < rows.len()
        invariant
            i <= rows.len(),
            all == seen(rows@).map_values(f),
            text::views(out@) == distinct(all.take(i as int)),
            forall|x: Seq<char>| #[trigger] known@.contains(x) <==> text::views(out@).contains(x),
            forall|a: T| #[trigger] get.requires((&a,)),
            forall|a: T, t: String| #[trigger] get.ensures((&a,), t) ==> t@ == f(a@),
        decreases rows.len() - i,
    {
        let t = get(&rows[i]);
        assert(all.take(i + 1).drop_last() =~= all.take(i as int));
        assert(all.take(i + 1).last() == t@);
        let ghost was = text::views(out@);
        if !known.contains(t.as_str()) {
            known.insert(t.clone());
            out.push(t);
            proof {
                assert(text::views(out@) =~= was.push(t@));
                assert forall|x: Seq<char>| #[trigger] known@.contains(x) <==> text::views(
                    out@,
                ).contains(x) by {
                    let now = text::views(out@);
                    if was.contains(x) {
                        let k = choose|k: int| 0 <= k < was.len() && was[k] == x;
                        assert(now[k] == x);
                    }
                    if now.contains(x) {
                        let k = choose|k: int| 0 <= k < now.len() && now[k] == x;
                        if k < was.len() {
                            assert(was[k] == x);
                        }
                    }
                    assert(now[was.len() as int] == t@);
                }
            }
        }
        i += 1;
    }
    assert(all.take(rows@.len() as int) =~= all);
    out
}

/// The set of the texts that the passing rows give.
pub fn text_set<T: Row, F: Fn(&T) -> Option<String>>(
    rows: &Vec<T>,
    Ghost(f): Ghost<spec_fn(T::V) -> Option<Seq<char>>>,
    get: F,
) -> (r: StringHashSet)
    requires
        forall|a: T| #[trigger] get.requires((&a,)),
        forall|a: T, t: Option<String>| #[trigger] get.ensures((&a,), t) ==> types::opt_text(t) == f(a@),
    ensures
        forall|x: Seq<char>| #[trigger] r@.contains(x) <==> any(seen(rows@), gives(f, x)),
{
    let mut out = StringHashSet::new();
    let mut i: usize = 0;
    while i < rows.len()
        invariant
            i <= rows.len(),
            forall|x: Seq<char>| #[trigger]
                out@.contains(x) <==> any(seen(rows@).take(i as int), gives(f, x)),
            forall|a: T| #[trigger] get.requires((&a,)),
            forall|a: T, t: Option<String>| #[trigger]
                get.ensures((&a,), t) ==> types::opt_text(t) == f(a@),
        decreases rows.len() - i,
    {
        let ghost s = seen(rows@).take(i as int);
        assert(seen(rows@).take(i + 1).drop_last() =~= s);
        assert(seen(rows@).take(i + 1).last() == rows@[i as int]@);
        if let Some(t) = get(&rows[i]) {
            out.insert(t);
        }
        i += 1;
    }
    assert(seen(rows@).take(rows@.len() as int) =~= seen(rows@));
    out
}

/// The test for the items that give a text.
pub open spec fn gives<M>(f: spec_fn(M) -> Option<Seq<char>>, x: Seq<char>) -> spec_fn(M) -> bool {
    |m: M| f(m) == Some(x)
}

/// Copies of all rows.
pub fn copies<T: Row>(rows: &Vec<T>) -> (r: Vec<T>)
    ensures
        seen(r@) == seen(rows@),
{
    let mut out: Vec<T> = Vec::new();
    let mut i: usize = 0;
    while i < rows.len()
        invariant
            i <= rows.len(),
            seen(out@) == seen(rows@).take(i as int),
        decreases rows.len() - i,
    {
        let ghost was = out@;
        out.push(rows[i].copy());
        assert(seen(out@) =~= seen(was).push(rows@[i as int]@));
        i += 1;
    }
    assert(seen(rows@).take(rows@.len() as int) =~= seen(rows@));
    out
}

/// What is made of each row.
pub fn made<T: View, U: View, F: Fn(&T) -> U>(
    rows: &Vec<T>,
    Ghost(f): Ghost<spec_fn(T::V) -> U::V>,
    make: F,
) -> (r: Vec<U>)
    requires
        forall|a: T| #[trigger] make.requires((&a,)),
        forall|a: T, u: U| #[trigger] make.ensures((&a,), u) ==> u@ == f(a@),
    ensures
        seen(r@) == seen(rows@).map_values(f),
{
    let ghost all = seen(rows@).map_values(f);
    let mut out: Vec<U> = Vec::new();
    let mut i: usize = 0;
    while i < rows.len()
        invariant
            i <= rows.len(),
            all == seen(rows@).map_values(f),
            seen(out@) == all.take(i as int),
            forall|a: T| #[trigger] make.requires((&a,)),
            forall|a: T, u: U| #[trigger] make.ensures((&a,), u) ==> u@ == f(a@),
        decreases rows.len() - i,
    {
        let ghost now = out@;
        out.push(make(&rows[i]));
        assert(seen(out@) =~= seen(now).push(all[i as int]));
        assert(all.take(i + 1) =~= all.take(i as int).push(all[i as int]));
        i += 1;
    }
    assert(all.take(rows@.len() as int) =~= all);
    out
}

} // verus!
