//! Values of JSON and TOML documents.

use vstd::prelude::*;
use vstd::string::*;

use crate::text;

verus! {

/// A value of a JSON or TOML document. A number is kept in its notation, an
/// integer apart from one with a fraction or an exponent, and so is what only
/// TOML has (a date).
#[derive(Debug, PartialEq, Eq)]
pub enum Datum {
    Null,
    Bool(bool),
    Number(String),
    Fraction(String),
    Text(String),
    Other(String),
    List(Vec<Datum>),
    Table(Vec<(String, Datum)>),
}

/// The model of a [`Datum`].
pub enum DatumModel {
    Null,
    Bool(bool),
    Number(Seq<char>),
    Fraction(Seq<char>),
    Text(Seq<char>),
    Other(Seq<char>),
    List(Seq<DatumModel>),
    Table(Seq<(Seq<char>, DatumModel)>),
}

/// The entries of a table.
pub type Entries = Seq<(Seq<char>, DatumModel)>;

/// The model of a value.
pub open spec fn value_model(v: Datum) -> DatumModel
    decreases v,
{
    match v {
        Datum::Null => DatumModel::Null,
        Datum::Bool(b) => DatumModel::Bool(b),
        Datum::Number(s) => DatumModel::Number(s@),
        Datum::Fraction(s) => DatumModel::Fraction(s@),
        Datum::Text(s) => DatumModel::Text(s@),
        Datum::Other(s) => DatumModel::Other(s@),
        Datum::List(l) => DatumModel::List(
            Seq::new(
                l@.len(),
                |i: int|
                    if 0 <= i < l@.len() {
                        value_model(l@[i])
                    } else {
                        DatumModel::Null
                    },
            ),
        ),
        Datum::Table(t) => DatumModel::Table(
            Seq::new(
                t@.len(),
                |i: int|
                    if 0 <= i < t@.len() {
                        (t@[i].0@, value_model(t@[i].1))
                    } else {
                        (Seq::empty(), DatumModel::Null)
                    },
            ),
        ),
    }
}

impl View for Datum {
    type V = DatumModel;

    open spec fn view(&self) -> DatumModel {
        value_model(*self)
    }
}

/// The entries that a list of named values models.
pub open spec fn entries(t: Seq<(String, Datum)>) -> Entries {
    t.map_values(|e: (String, Datum)| (e.0@, e.1@))
}

/// The values that a list models.
pub open spec fn items(l: Seq<Datum>) -> Seq<DatumModel> {
    l.map_values(|v: Datum| v@)
}

/// A table models its entries, and a list its items.
pub broadcast proof fn lemma_value_model(v: Datum)
    ensures
        #![trigger v@]
        v matches Datum::Table(t) ==> v@ == DatumModel::Table(entries(t@)),
        v matches Datum::List(l) ==> v@ == DatumModel::List(items(l@)),
{
    match v {
        Datum::Table(t) => {
            assert(v@->Table_0 =~= entries(t@));
        },
        Datum::List(l) => {
            assert(v@->List_0 =~= items(l@));
        },
        _ => {},
    }
}

impl Clone for Datum {
    fn clone(&self) -> (r: Datum)
        ensures
            r@ == self@,
        decreases self,
    {
        broadcast use lemma_value_model;

        match self {
            Datum::Null => Datum::Null,
            Datum::Bool(b) => Datum::Bool(*b),
            Datum::Number(s) => Datum::Number(s.clone()),
            Datum::Fraction(s) => Datum::Fraction(s.clone()),
            Datum::Text(s) => Datum::Text(s.clone()),
            Datum::Other(s) => Datum::Other(s.clone()),
            Datum::List(l) => {
                let mut out: Vec<Datum> = Vec::new();
                let mut i: usize = 0;
                while i < l.len()
                    invariant
                        i <= l.len(),
                        self matches Datum::List(x) && x == l,
                        items(out@) == items(l@).take(i as int),
                    decreases l.len() - i,
                {
                    let ghost before = items(out@);
                    assert(decreases_to!(self => l@[i as int]));
                    let c = l[i].clone();
                    out.push(c);
                    assert(items(out@) =~= before.push(c@));
                    i += 1;
                }
                assert(items(l@).take(l@.len() as int) =~= items(l@));
                Datum::List(out)
            },
            Datum::Table(t) => {
                let mut out: Vec<(String, Datum)> = Vec::new();
                let mut i: usize = 0;
                while i < t.len()
                    invariant
                        i <= t.len(),
                        self matches Datum::Table(x) && x == t,
                        entries(out@) == entries(t@).take(i as int),
                    decreases t.len() - i,
                {
                    let ghost before = entries(out@);
                    assert(decreases_to!(self => t@[i as int].1));
                    let c = (t[i].0.clone(), t[i].1.clone());
                    out.push(c);
                    assert(entries(out@) =~= before.push((c.0@, c.1@)));
                    i += 1;
                }
                assert(entries(t@).take(t@.len() as int) =~= entries(t@));
                Datum::Table(out)
            },
        }
    }
}


/// The value under a key, where there is one.
pub open spec fn lookup(t: Entries, key: Seq<char>) -> Option<DatumModel>
    decreases t.len(),
{
    if t.len() == 0 {
        None
    } else if t[0].0 == key {
        Some(t[0].1)
    } else {
        lookup(t.drop_first(), key)
    }
}

/// The entries with the value under `key` set, where it stood or at the end.
pub open spec fn put(t: Entries, key: Seq<char>, v: DatumModel) -> Entries
    decreases t.len(),
{
    if t.len() == 0 {
        seq![(key, v)]
    } else if t[0].0 == key {
        t.update(0, (key, v))
    } else {
        seq![t[0]] + put(t.drop_first(), key, v)
    }
}

/// The entries without the first one under `key`.
pub open spec fn without(t: Entries, key: Seq<char>) -> Entries
    decreases t.len(),
{
    if t.len() == 0 {
        t
    } else if t[0].0 == key {
        t.drop_first()
    } else {
        seq![t[0]] + without(t.drop_first(), key)
    }
}

/// The value under a key of a table; nothing where `v` is no table.
pub open spec fn field(v: DatumModel, key: Seq<char>) -> Option<DatumModel> {
    match v {
        DatumModel::Table(t) => lookup(t, key),
        _ => None,
    }
}

/// What a change at the first place of a key does.
proof fn lemma_first_key(t: Entries, key: Seq<char>, k: int)
    requires
        0 <= k <= t.len(),
        forall|i: int| 0 <= i < k ==> (#[trigger] t[i]).0 != key,
        k < t.len() ==> t[k].0 == key,
    ensures
        lookup(t, key) == (if k < t.len() {
            Some(t[k].1)
        } else {
            None
        }),
        forall|v: DatumModel| #[trigger]
            put(t, key, v) == (if k < t.len() {
                t.update(k, (key, v))
            } else {
                t.push((key, v))
            }),
        without(t, key) == (if k < t.len() {
            t.remove(k)
        } else {
            t
        }),
    decreases k,
{
    if t.len() == 0 {
        assert forall|v: DatumModel| #[trigger] put(t, key, v) == t.push((key, v)) by {
            assert(seq![(key, v)] =~= t.push((key, v)));
        }
    } else if k == 0 {
        assert(t.drop_first() =~= t.remove(0));
    } else {
        let r = t.drop_first();
        assert forall|i: int| 0 <= i < k - 1 implies (#[trigger] r[i]).0 != key by {
            assert(r[i] == t[i + 1]);
        }
        assert(t[0].0 != key);
        lemma_first_key(r, key, k - 1);
        assert forall|v: DatumModel| #[trigger] put(t, key, v) == (if k < t.len() {
            t.update(k, (key, v))
        } else {
            t.push((key, v))
        }) by {
            assert(put(r, key, v) == (if k - 1 < r.len() {
                r.update(k - 1, (key, v))
            } else {
                r.push((key, v))
            }));
            if k < t.len() {
                assert(seq![t[0]] + r.update(k - 1, (key, v)) =~= t.update(k, (key, v)));
            } else {
                assert(seq![t[0]] + r.push((key, v)) =~= t.push((key, v)));
            }
        }
        if k < t.len() {
            assert(seq![t[0]] + r.remove(k - 1) =~= t.remove(k));
        } else {
            assert(seq![t[0]] + r =~= t);
        }
    }
}

/// What is found after a change, and that the same change twice is one.
pub proof fn lemma_put(t: Entries, key: Seq<char>, v: DatumModel)
    ensures
        lookup(put(t, key, v), key) == Some(v),
        forall|other: Seq<char>|
            other != key ==> #[trigger] lookup(put(t, key, v), other) == lookup(t, other),
        put(put(t, key, v), key, v) == put(t, key, v),
    decreases t.len(),
{
    let p = put(t, key, v);
    if t.len() == 0 {
        assert(p[0] == (key, v));
        assert(p.drop_first() =~= t);
        assert(p.update(0, (key, v)) =~= p);
    } else if t[0].0 == key {
        assert(p.drop_first() =~= t.drop_first());
        assert(p.update(0, (key, v)) =~= p);
    } else {
        lemma_put(t.drop_first(), key, v);
        let q = put(t.drop_first(), key, v);
        assert(p.drop_first() =~= q);
        assert(p[0] == t[0]);
        assert forall|other: Seq<char>| other != key implies #[trigger] lookup(p, other) == lookup(
            t,
            other,
        ) by {
            assert(lookup(q, other) == lookup(t.drop_first(), other));
        }
    }
}

/// A value that is found stands at some place.
pub proof fn lemma_lookup_place(t: Entries, key: Seq<char>)
    requires
        lookup(t, key) is Some,
    ensures
        exists|k: int| 0 <= k < t.len() && #[trigger] t[k] == (key, lookup(t, key)->0),
    decreases t.len(),
{
    if t[0].0 == key {
        assert(t[0] == (key, lookup(t, key)->0));
    } else {
        let r = t.drop_first();
        lemma_lookup_place(r, key);
        let k = choose|k: int| 0 <= k < r.len() && #[trigger] r[k] == (key, lookup(r, key)->0);
        assert(t[k + 1] == r[k]);
    }
}

/// A change keeps the keys apart, and keeps what holds of every value.
pub proof fn lemma_put_keeps(
    t: Entries,
    key: Seq<char>,
    v: DatumModel,
    holds: spec_fn(DatumModel) -> bool,
)
    requires
        forall|i: int| 0 <= i < t.len() ==> holds((#[trigger] t[i]).1),
        holds(v),
    ensures
        forall|i: int| 0 <= i < put(t, key, v).len() ==> holds((#[trigger] put(t, key, v)[i]).1),
        keys_differ(t) ==> keys_differ(put(t, key, v)),
{
    if exists|k: int| 0 <= k < t.len() && (#[trigger] t[k]).0 == key {
        let k = lemma_key_place(t, key);
        lemma_first_key(t, key, k);
    } else {
        lemma_first_key(t, key, t.len() as int);
    }
}

/// A removal changes what is found under the key alone.
pub proof fn lemma_without(t: Entries, key: Seq<char>)
    ensures
        forall|other: Seq<char>|
            other != key ==> #[trigger] lookup(without(t, key), other) == lookup(t, other),
    decreases t.len(),
{
    if t.len() > 0 && t[0].0 != key {
        let r = t.drop_first();
        lemma_without(r, key);
        let w = without(t, key);
        assert(w.drop_first() =~= without(r, key));
        assert forall|other: Seq<char>| other != key implies #[trigger] lookup(w, other) == lookup(
            t,
            other,
        ) by {
            assert(lookup(without(r, key), other) == lookup(r, other));
        }
    }
}

/// A removal keeps the keys apart, and keeps what holds of every value.
pub proof fn lemma_without_keeps(
    t: Entries,
    key: Seq<char>,
    holds: spec_fn(DatumModel) -> bool,
)
    requires
        forall|i: int| 0 <= i < t.len() ==> holds((#[trigger] t[i]).1),
    ensures
        forall|i: int|
            0 <= i < without(t, key).len() ==> holds((#[trigger] without(t, key)[i]).1),
        keys_differ(t) ==> keys_differ(without(t, key)) && lookup(without(t, key), key) is None,
{
    if exists|k: int| 0 <= k < t.len() && (#[trigger] t[k]).0 == key {
        let k = lemma_key_place(t, key);
        lemma_first_key(t, key, k);
        let r = without(t, key);
        assert forall|i: int| 0 <= i < r.len() implies holds((#[trigger] r[i]).1) by {
            if i < k {
                assert(r[i] == t[i]);
            } else {
                assert(r[i] == t[i + 1]);
            }
        }
        if keys_differ(t) {
            assert forall|i: int| 0 <= i < r.len() implies (#[trigger] r[i]).0 != key by {
                if i < k {
                    assert(r[i] == t[i]);
                } else {
                    assert(r[i] == t[i + 1]);
                    assert(t[k].0 != t[i + 1].0);
                }
            }
            lemma_first_key(r, key, r.len() as int);
            assert forall|i: int, j: int| 0 <= i < j < r.len() implies (#[trigger] r[i]).0 != (
            #[trigger] r[j]).0 by {
                let p = if i < k {
                    i
                } else {
                    i + 1
                };
                let q = if j < k {
                    j
                } else {
                    j + 1
                };
                assert(t[p].0 != t[q].0);
            }
        }
    } else {
        lemma_first_key(t, key, t.len() as int);
    }
}

/// The first place of a key that is there.
proof fn lemma_key_place(t: Entries, key: Seq<char>) -> (k: int)
    requires
        exists|k: int| 0 <= k < t.len() && (#[trigger] t[k]).0 == key,
    ensures
        0 <= k < t.len(),
        t[k].0 == key,
        forall|i: int| 0 <= i < k ==> (#[trigger] t[i]).0 != key,
    decreases t.len(),
{
    let w = choose|k: int| 0 <= k < t.len() && (#[trigger] t[k]).0 == key;
    if exists|k: int| 0 <= k < w && (#[trigger] t.take(w)[k]).0 == key {
        let k = lemma_key_place(t.take(w), key);
        assert forall|i: int| 0 <= i < k implies (#[trigger] t[i]).0 != key by {
            assert(t.take(w)[i].0 != key);
        }
        k
    } else {
        assert forall|i: int| 0 <= i < w implies (#[trigger] t[i]).0 != key by {
            assert(t.take(w)[i] == t[i]);
        }
        w
    }
}

/// The place of the first entry under a key; the number of entries where there
/// is none.
pub fn position(t: &Vec<(String, Datum)>, key: &str) -> (k: usize)
    ensures
        k <= t@.len(),
        k < t@.len() ==> t@[k as int].0@ == key@,
        lookup(entries(t@), key@) == (if k < t@.len() {
            Some(t@[k as int].1@)
        } else {
            None
        }),
        forall|v: DatumModel| #[trigger]
            put(entries(t@), key@, v) == (if k < t@.len() {
                entries(t@).update(k as int, (key@, v))
            } else {
                entries(t@).push((key@, v))
            }),
        without(entries(t@), key@) == (if k < t@.len() {
            entries(t@).remove(k as int)
        } else {
            entries(t@)
        }),
{
    let mut i: usize = 0;
    while i < t.len() && !text::same(t[i].0.as_str(), key)
        invariant
            i <= t.len(),
            forall|k: int| 0 <= k < i ==> (#[trigger] entries(t@)[k]).0 != key@,
        decreases t.len() - i,
    {
        i += 1;
    }
    proof {
        if i < t@.len() {
            assert(entries(t@)[i as int].0 == key@);
        }
        lemma_first_key(entries(t@), key@, i as int);
    }
    i
}

/// See [`put`].
pub fn insert(t: &mut Vec<(String, Datum)>, key: &str, v: Datum)
    ensures
        entries(final(t)@) == put(entries(old(t)@), key@, v@),
{
    let ghost before = entries(t@);
    let ghost vm = v@;
    let k: usize = position(t, key);
    proof {
        assert(put(before, key@, vm) == put(before, key@, vm));
    }
    if k < t.len() {
        t.set(k, (key.to_owned(), v));
        assert(entries(t@) =~= before.update(k as int, (key@, vm)));
    } else {
        t.push((key.to_owned(), v));
        assert(entries(t@) =~= before.push((key@, vm)));
    }
}

/// See [`without`].
pub fn remove(t: &mut Vec<(String, Datum)>, key: &str)
    ensures
        entries(final(t)@) == without(entries(old(t)@), key@),
{
    let ghost before = entries(t@);
    let k: usize = position(t, key);
    if k < t.len() {
        t.remove(k);
        assert(entries(t@) =~= before.remove(k as int));
    }
}

/// Whether two values are equal; the order of the entries of a table does not
/// count.
pub open spec fn alike(a: DatumModel, b: DatumModel) -> bool
    decreases a,
{
    match (a, b) {
        (DatumModel::Null, DatumModel::Null) => true,
        (DatumModel::Bool(x), DatumModel::Bool(y)) => x == y,
        (DatumModel::Number(x), DatumModel::Number(y)) => x == y,
        (DatumModel::Fraction(x), DatumModel::Fraction(y)) => x == y,
        (DatumModel::Text(x), DatumModel::Text(y)) => x == y,
        (DatumModel::Other(x), DatumModel::Other(y)) => x == y,
        (DatumModel::List(x), DatumModel::List(y)) => x.len() == y.len() && forall|i: int|
            0 <= i < x.len() ==> alike(#[trigger] x[i], y[i]),
        (DatumModel::Table(x), DatumModel::Table(y)) => x.len() == y.len() && forall|i: int|
            0 <= i < x.len() ==> match lookup(y, (#[trigger] x[i]).0) {
                Some(w) => alike(x[i].1, w),
                None => false,
            },
        _ => false,
    }
}

/// See [`alike`].
pub fn same_datum(a: &Datum, b: &Datum) -> (r: bool)
    ensures
        r == alike(a@, b@),
    decreases a,
{
    broadcast use lemma_value_model;

    match (a, b) {
        (Datum::Null, Datum::Null) => true,
        (Datum::Bool(x), Datum::Bool(y)) => *x == *y,
        (Datum::Number(x), Datum::Number(y)) => text::same(x.as_str(), y.as_str()),
        (Datum::Fraction(x), Datum::Fraction(y)) => text::same(x.as_str(), y.as_str()),
        (Datum::Text(x), Datum::Text(y)) => text::same(x.as_str(), y.as_str()),
        (Datum::Other(x), Datum::Other(y)) => text::same(x.as_str(), y.as_str()),
        (Datum::List(x), Datum::List(y)) => {
            if x.len() != y.len() {
                return false;
            }
            let mut i: usize = 0;
            while i < x.len()
                invariant
                    i <= x.len(),
                    x.len() == y.len(),
                    a matches Datum::List(l) && l == x,
                    a@ == DatumModel::List(items(x@)),
                    b@ == DatumModel::List(items(y@)),
                    forall|k: int| 0 <= k < i ==> alike(#[trigger] items(x@)[k], items(y@)[k]),
                decreases x.len() - i,
            {
                assert(decreases_to!(a => x@[i as int]));
                let same = same_datum(&x[i], &y[i]);
                assert(items(x@)[i as int] == x@[i as int]@);
                assert(items(y@)[i as int] == y@[i as int]@);
                if !same {
                    return false;
                }
                i += 1;
            }
            true
        },
        (Datum::Table(x), Datum::Table(y)) => {
            if x.len() != y.len() {
                return false;
            }
            let mut i: usize = 0;
            while i < x.len()
                invariant
                    i <= x.len(),
                    x.len() == y.len(),
                    a matches Datum::Table(l) && l == x,
                    a@ == DatumModel::Table(entries(x@)),
                    b@ == DatumModel::Table(entries(y@)),
                    forall|k: int|
                        0 <= k < i ==> match lookup(entries(y@), (#[trigger] entries(x@)[k]).0) {
                            Some(w) => alike(entries(x@)[k].1, w),
                            None => false,
                        },
                decreases x.len() - i,
            {
                assert(decreases_to!(a => x@[i as int].1));
                let k: usize = position(y, x[i].0.as_str());
                assert(entries(x@)[i as int] == (x@[i as int].0@, x@[i as int].1@));
                if k == y.len() || !same_datum(&x[i].1, &y[k].1) {
                    return false;
                }
                i += 1;
            }
            true
        },
        _ => false,
    }
}

/// A value in which no object has a key twice is equal to itself.
pub proof fn lemma_alike(v: DatumModel, depth: nat)
    requires
        is_json(v, depth),
    ensures
        alike(v, v),
    decreases v,
{
    match v {
        DatumModel::List(l) => {
            assert forall|i: int| 0 <= i < l.len() implies alike(#[trigger] l[i], l[i]) by {
                lemma_alike(l[i], (depth - 1) as nat);
            }
        },
        DatumModel::Table(t) => {
            assert forall|i: int| 0 <= i < t.len() implies match lookup(t, (#[trigger] t[i]).0) {
                Some(w) => alike(t[i].1, w),
                None => false,
            } by {
                lemma_alike(t[i].1, (depth - 1) as nat);
                lemma_first_key(t, t[i].0, i);
            }
        },
        _ => {},
    }
}


impl Datum {
    /// See [`field`].
    pub fn get<'a>(&'a self, key: &str) -> (r: Option<&'a Datum>)
        ensures
            match r {
                Some(v) => field(self@, key@) == Some(v@),
                None => field(self@, key@) is None,
            },
    {
        broadcast use lemma_value_model;

        match self {
            Datum::Table(t) => {
                let k: usize = position(t, key);
                if k < t.len() {
                    Some(&t[k].1)
                } else {
                    None
                }
            },
            _ => None,
        }
    }

    /// The text that a value is, where it is one.
    pub fn as_text<'a>(&'a self) -> (r: Option<&'a String>)
        ensures
            match r {
                Some(s) => self@ == DatumModel::Text(s@),
                None => !(self@ is Text),
            },
    {
        match self {
            Datum::Text(s) => Some(s),
            _ => None,
        }
    }
}

/// Whether a text is the notation of a whole number of 64 bits.
pub open spec fn is_whole(n: Seq<char>) -> bool {
    exists|k: nat|
        #![trigger text::decimal(k)]
        (n == text::decimal(k) && k <= u64::MAX) || (n == seq!['-'] + text::decimal(k) && 0 < k
            <= 0x8000_0000_0000_0000)
}

/// Whether no two entries have the same key.
pub open spec fn keys_differ(t: Entries) -> bool {
    forall|i: int, j: int| 0 <= i < j < t.len() ==> (#[trigger] t[i]).0 != (#[trigger] t[j]).0
}

/// Whether a value is one that JSON has, with lists and objects nested at most
/// `depth` deep.
pub open spec fn is_json(v: DatumModel, depth: nat) -> bool
    decreases v,
{
    match v {
        DatumModel::Other(_) => false,
        DatumModel::List(l) => depth > 0 && forall|i: int|
            0 <= i < l.len() ==> is_json(#[trigger] l[i], (depth - 1) as nat),
        DatumModel::Table(t) => depth > 0 && keys_differ(t) && forall|i: int|
            0 <= i < t.len() ==> is_json((#[trigger] t[i]).1, (depth - 1) as nat),
        _ => true,
    }
}

/// Whether every number in a value is a whole number of 64 bits.
pub open spec fn has_whole_numbers(v: DatumModel) -> bool
    decreases v,
{
    match v {
        DatumModel::Number(n) => is_whole(n),
        DatumModel::Fraction(_) => false,
        DatumModel::List(l) => forall|i: int|
            0 <= i < l.len() ==> has_whole_numbers(#[trigger] l[i]),
        DatumModel::Table(t) => forall|i: int|
            0 <= i < t.len() ==> has_whole_numbers((#[trigger] t[i]).1),
        _ => true,
    }
}

/// How deep lists and objects are nested at most in JSON that is read.
pub open spec fn json_depth() -> nat {
    127
}

/// `serde_json::Value`, a JSON document.
#[verifier::external_type_specification]
#[verifier::external_body]
pub struct ExJsonValue(serde_json::Value);

/// What a JSON document holds; the entries of an object in the order in which
/// they stand.
pub uninterp spec fn json_contents(v: serde_json::Value) -> DatumModel;

/// What a text says as JSON, or the words in which it is refused.
pub uninterp spec fn json_parsed(text: Seq<char>) -> Result<DatumModel, Seq<char>>;

/// Whether a text says a value as JSON.
pub open spec fn reads_as(text: Seq<char>, v: DatumModel) -> bool {
    json_parsed(text) == Ok::<DatumModel, Seq<char>>(v)
}

/// `serde_json::from_str`: the document that a text is, in which no object has a
/// key twice, or the words of the error. Deeper nesting is an error.
#[verifier::external_body]
fn read_json(text: &str) -> (r: Result<serde_json::Value, String>)
    ensures
        match r {
            Ok(v) => json_parsed(text@) == Ok::<DatumModel, Seq<char>>(json_contents(v)) && is_json(
                json_contents(v),
                json_depth(),
            ),
            Err(e) => json_parsed(text@) == Err::<DatumModel, Seq<char>>(e@),
        },
{
    serde_json::from_str(text).map_err(|e| e.to_string())
}

/// What a `serde_json::Value` holds, variant by variant; a number in its
/// notation, one that `serde_json::Number::is_f64` knows as a float apart from
/// the others.
#[verifier::external_body]
fn from_json(v: serde_json::Value) -> (r: Datum)
    requires
        is_json(json_contents(v), json_depth()),
    ensures
        r@ == json_contents(v),
{
    match v {
        serde_json::Value::Null => Datum::Null,
        serde_json::Value::Bool(b) => Datum::Bool(b),
        serde_json::Value::Number(n) if n.is_f64() => Datum::Fraction(n.to_string()),
        serde_json::Value::Number(n) => Datum::Number(n.to_string()),
        serde_json::Value::String(s) => Datum::Text(s),
        serde_json::Value::Array(l) => Datum::List(l.into_iter().map(from_json).collect()),
        serde_json::Value::Object(m) => {
            Datum::Table(m.into_iter().map(|(k, v)| (k, from_json(v))).collect())
        }
    }
}

/// What a text says as JSON; see [`json_parsed`].
pub fn parse_json(s: &str) -> (r: Result<Datum, String>)
    ensures
        match r {
            Ok(v) => json_parsed(s@) == Ok::<DatumModel, Seq<char>>(v@) && is_json(
                v@,
                json_depth(),
            ),
            Err(e) => json_parsed(s@) == Err::<DatumModel, Seq<char>>(e@),
        },
{
    match read_json(s) {
        Ok(v) => Ok(from_json(v)),
        Err(e) => Err(e),
    }
}

/// What the JSON document that is made of a value holds.
pub uninterp spec fn json_made(v: DatumModel) -> DatumModel;

/// The text in which a JSON document is written with indentation.
pub uninterp spec fn json_text(v: DatumModel) -> Seq<char>;

/// The text in which a value is written as indented JSON.
pub open spec fn json_written(v: DatumModel) -> Seq<char> {
    json_text(json_made(v))
}

/// Whether a value is written as JSON and read back as it was. Of a number with a
/// fraction or an exponent the notation decides.
pub open spec fn reads_back(v: DatumModel) -> bool {
    json_made(v) == v && reads_as(json_text(v), v)
}

/// The `serde_json::Value` made of `v`, variant by variant: an integer with
/// `serde_json::Number::from_str`, another number with
/// `serde_json::Number::from_f64`, what JSON does not have as a text, and an
/// object with `serde_json::Map::from_iter`, which keeps the order of the
/// entries. It is JSON as `v` is, no deeper, and holds what `v` holds where all
/// numbers are whole; what a number with a fraction or an exponent becomes is
/// left unsaid.
#[verifier::external_body]
fn to_json(v: &Datum) -> (r: serde_json::Value)
    requires
        is_json(v@, json_depth()),
    ensures
        json_contents(r) == json_made(v@),
        is_json(json_contents(r), json_depth()),
        has_whole_numbers(v@) ==> json_contents(r) == v@,
{
    match v {
        Datum::Null => serde_json::Value::Null,
        Datum::Bool(b) => serde_json::Value::Bool(*b),
        Datum::Number(n) => n.parse().map(serde_json::Value::Number).unwrap_or_default(),
        Datum::Fraction(n) => n.parse().ok().and_then(serde_json::Number::from_f64).into(),
        Datum::Text(s) | Datum::Other(s) => serde_json::Value::String(s.clone()),
        Datum::List(l) => serde_json::Value::Array(l.iter().map(to_json).collect()),
        Datum::Table(t) => serde_json::Value::Object(
            t.iter().map(|e| (e.0.clone(), to_json(&e.1))).collect(),
        ),
    }
}

/// `serde_json::to_string_pretty` on a `serde_json::Value`, which never fails:
/// the text is a function of what the value holds, and gets a name. Where all
/// numbers are whole, the text is read back as what was written; of other
/// numbers that is left unsaid.
#[verifier::external_body]
fn print_json(v: &serde_json::Value) -> (r: String)
    requires
        is_json(json_contents(*v), json_depth()),
    ensures
        r@ == json_text(json_contents(*v)),
        has_whole_numbers(json_contents(*v)) ==> reads_as(r@, json_contents(*v)),
{
    serde_json::to_string_pretty(v).unwrap_or_default()
}

/// The text of a value as indented JSON; see [`json_written`].
pub fn write_json(v: &Datum) -> (r: String)
    requires
        is_json(v@, json_depth()),
    ensures
        r@ == json_written(v@),
        has_whole_numbers(v@) ==> reads_as(r@, v@),
{
    let made = to_json(v);
    print_json(&made)
}

/// `toml::Value`, a TOML document or a part of one.
#[verifier::external_type_specification]
#[verifier::external_body]
pub struct ExTomlValue(toml::Value);

/// What a TOML document holds.
pub uninterp spec fn toml_contents(v: toml::Value) -> DatumModel;

/// What a text says as TOML, or the words in which it is refused.
pub uninterp spec fn toml_parsed(text: Seq<char>) -> Result<DatumModel, Seq<char>>;

/// `toml::from_str`: the table that a text is, or the words of the error.
#[verifier::external_body]
fn read_toml(text: &str) -> (r: Result<toml::Value, String>)
    ensures
        match r {
            Ok(v) => toml_parsed(text@) == Ok::<DatumModel, Seq<char>>(toml_contents(v))
                && toml_contents(v) is Table,
            Err(e) => toml_parsed(text@) == Err::<DatumModel, Seq<char>>(e@),
        },
{
    toml::from_str::<toml::Table>(text).map(toml::Value::Table).map_err(|e| e.to_string())
}

/// What a `toml::Value` holds, variant by variant; a float in the notation that
/// the crate writes it in, and an integer and a date in their own.
#[verifier::external_body]
fn from_toml(v: toml::Value) -> (r: Datum)
    ensures
        r@ == toml_contents(v),
{
    match v {
        toml::Value::String(s) => Datum::Text(s),
        toml::Value::Integer(i) => Datum::Number(i.to_string()),
        toml::Value::Float(f) => Datum::Fraction(toml::Value::Float(f).to_string()),
        toml::Value::Boolean(b) => Datum::Bool(b),
        toml::Value::Datetime(d) => Datum::Other(d.to_string()),
        toml::Value::Array(l) => Datum::List(l.into_iter().map(from_toml).collect()),
        toml::Value::Table(m) => {
            Datum::Table(m.into_iter().map(|(k, v)| (k, from_toml(v))).collect())
        }
    }
}

/// What a text says as TOML: a table; see [`toml_parsed`].
pub fn parse_toml(s: &str) -> (r: Result<Vec<(String, Datum)>, String>)
    ensures
        match r {
            Ok(t) => toml_parsed(s@) == Ok::<DatumModel, Seq<char>>(
                DatumModel::Table(entries(t@)),
            ),
            Err(e) => toml_parsed(s@) == Err::<DatumModel, Seq<char>>(e@),
        },
{
    broadcast use lemma_value_model;

    match read_toml(s) {
        Ok(v) => match from_toml(v) {
            Datum::Table(t) => {
                assert(Datum::Table(t)@ == DatumModel::Table(entries(t@)));
                Ok(t)
            },
            other => {
                assert(other@ is Table);
                Ok(Vec::new())
            },
        },
        Err(e) => Err(e),
    }
}

} // verus!
