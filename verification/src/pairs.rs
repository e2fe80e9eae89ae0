//! A map from pairs of texts to numbers.

use std::collections::HashMap;
use vstd::hash_map::StringHashMap;
use vstd::prelude::*;
use vstd::string::*;

verus! {

/// A map from pairs of texts to numbers: each text gets a number of its own,
/// and a pair is looked up by the numbers of its texts.
pub struct PairMap {
    codes: StringHashMap<usize>,
    cells: HashMap<u128, usize>,
}

/// The number of a pair of numbers.
spec fn pair_code(a: usize, b: usize) -> u128 {
    ((a as int) * 0x1_0000_0000_0000_0000 + b) as u128
}

proof fn lemma_pair_code(a: usize, b: usize, c: usize, d: usize)
    ensures
        pair_code(a, b) == (a as int) * 0x1_0000_0000_0000_0000 + b,
        pair_code(a, b) == pair_code(c, d) ==> a == c && b == d,
{
}

impl PairMap {
    /// Every text has a number of its own below their count, and every cell
    /// belongs to a pair of texts that have numbers.
    pub closed spec fn wf(self) -> bool {
        &&& self.codes@.dom().finite()
        &&& forall|s: Seq<char>| #[trigger]
            self.codes@.contains_key(s) ==> self.codes@[s] < self.codes@.len()
        &&& forall|s: Seq<char>, t: Seq<char>|
            #![trigger self.codes@[s], self.codes@[t]]
            self.codes@.contains_key(s) && self.codes@.contains_key(t) && self.codes@[s]
                == self.codes@[t] ==> s == t
        &&& forall|k: u128| #[trigger]
            self.cells@.contains_key(k) ==> exists|s: Seq<char>, t: Seq<char>|
                #![trigger self.codes@[s], self.codes@[t]]
                self.codes@.contains_key(s) && self.codes@.contains_key(t) && k == pair_code(
                    self.codes@[s],
                    self.codes@[t],
                )
    }

    spec fn cell(self, p: (Seq<char>, Seq<char>)) -> u128 {
        pair_code(self.codes@[p.0], self.codes@[p.1])
    }

    spec fn has(self, p: (Seq<char>, Seq<char>)) -> bool {
        self.codes@.contains_key(p.0) && self.codes@.contains_key(p.1) && self.cells@.contains_key(
            self.cell(p),
        )
    }
}

impl View for PairMap {
    type V = Map<(Seq<char>, Seq<char>), usize>;

    closed spec fn view(&self) -> Map<(Seq<char>, Seq<char>), usize> {
        Map::new(
            |p: (Seq<char>, Seq<char>)| self.has(p),
            |p: (Seq<char>, Seq<char>)| self.cells@[self.cell(p)],
        )
    }
}

impl PairMap {
    /// The empty map.
    pub fn new() -> (r: PairMap)
        ensures
            r.wf(),
            r@ == Map::<(Seq<char>, Seq<char>), usize>::empty(),
    {
        broadcast use vstd::std_specs::hash::group_hash_axioms;

        let r = PairMap { codes: StringHashMap::new(), cells: HashMap::new() };
        assert(r@ =~= Map::empty());
        r
    }

    /// The number of a text, given out on first use.
    fn code(&mut self, s: &str) -> (r: usize)
        requires
            old(self).wf(),
        ensures
            final(self).wf(),
            final(self)@ == old(self)@,
            final(self).cells == old(self).cells,
            final(self).codes@.contains_key(s@),
            final(self).codes@[s@] == r,
            forall|t: Seq<char>|
                old(self).codes@.contains_key(t) ==> #[trigger] final(self).codes@.contains_key(t)
                    && final(self).codes@[t] == old(self).codes@[t],
    {
        if let Some(c) = self.codes.get(s) {
            return *c;
        }
        let ghost before = *self;
        let c: usize = self.codes.len();
        self.codes.insert(s.to_owned(), c);
        proof {
            assert(self.codes@ == before.codes@.insert(s@, c));
            assert(self.codes@.len() == before.codes@.len() + 1);
            assert forall|k: u128| #[trigger] self.cells@.contains_key(k) implies exists|
                x: Seq<char>,
                y: Seq<char>,
            |
                #![trigger self.codes@[x], self.codes@[y]]
                self.codes@.contains_key(x) && self.codes@.contains_key(y) && k == pair_code(
                    self.codes@[x],
                    self.codes@[y],
                ) by {
                assert(before.cells@.contains_key(k));
                let (x, y) = choose|x: Seq<char>, y: Seq<char>|
                    #![trigger before.codes@[x], before.codes@[y]]
                    before.codes@.contains_key(x) && before.codes@.contains_key(y) && k
                        == pair_code(before.codes@[x], before.codes@[y]);
                assert(self.codes@[x] == before.codes@[x]);
                assert(self.codes@[y] == before.codes@[y]);
            }
            assert forall|p: (Seq<char>, Seq<char>)| self.has(p) implies before.has(p) by {
                let k = self.cell(p);
                assert(before.cells@.contains_key(k));
                let (x, y) = choose|x: Seq<char>, y: Seq<char>|
                    #![trigger before.codes@[x], before.codes@[y]]
                    before.codes@.contains_key(x) && before.codes@.contains_key(y) && k
                        == pair_code(before.codes@[x], before.codes@[y]);
                lemma_pair_code(
                    self.codes@[p.0],
                    self.codes@[p.1],
                    before.codes@[x],
                    before.codes@[y],
                );
                assert(self.codes@[x] == before.codes@[x]);
                assert(self.codes@[y] == before.codes@[y]);
            }
            assert(self@ =~= before@);
        }
        c
    }

    /// The number of a pair, where it has one.
    pub fn get(&self, a: &str, b: &str) -> (r: Option<usize>)
        requires
            self.wf(),
        ensures
            match r {
                Some(v) => self@.contains_key((a@, b@)) && self@[(a@, b@)] == v,
                None => !self@.contains_key((a@, b@)),
            },
    {
        broadcast use vstd::std_specs::hash::group_hash_axioms;

        match self.codes.get(a) {
            None => None,
            Some(ca) => match self.codes.get(b) {
                None => None,
                Some(cb) => {
                    proof {
                        lemma_pair_code(*ca, *cb, *ca, *cb);
                    }
                    let k: u128 = (*ca as u128) * 0x1_0000_0000_0000_0000 + (*cb as u128);
                    match self.cells.get(&k) {
                        Some(v) => Some(*v),
                        None => None,
                    }
                },
            },
        }
    }

    /// Gives a pair a number.
    pub fn insert(&mut self, a: &str, b: &str, v: usize)
        requires
            old(self).wf(),
        ensures
            final(self).wf(),
            final(self)@ == old(self)@.insert((a@, b@), v),
    {
        broadcast use vstd::std_specs::hash::group_hash_axioms;

        let ghost first = self@;
        let ca: usize = self.code(a);
        let cb: usize = self.code(b);
        let ghost before = *self;
        proof {
            lemma_pair_code(ca, cb, ca, cb);
        }
        let k: u128 = (ca as u128) * 0x1_0000_0000_0000_0000 + (cb as u128);
        self.cells.insert(k, v);
        proof {
            assert(self.codes@.contains_key(a@));
            assert(self.codes@[a@] == ca && self.codes@[b@] == cb);
            assert forall|p: (Seq<char>, Seq<char>)|
                self.codes@.contains_key(p.0) && self.codes@.contains_key(p.1) implies (self.cell(p)
                == k) == (p == (a@, b@)) by {
                lemma_pair_code(self.codes@[p.0], self.codes@[p.1], ca, cb);
            }
            assert forall|k2: u128| #[trigger] self.cells@.contains_key(k2) implies exists|
                x: Seq<char>,
                y: Seq<char>,
            |
                #![trigger self.codes@[x], self.codes@[y]]
                self.codes@.contains_key(x) && self.codes@.contains_key(y) && k2 == pair_code(
                    self.codes@[x],
                    self.codes@[y],
                ) by {
                if k2 != k {
                    assert(before.cells@.contains_key(k2));
                }
            }
            assert(self@ =~= before@.insert((a@, b@), v));
        }
    }
}

} // verus!
