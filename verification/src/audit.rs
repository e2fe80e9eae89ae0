//! How precise the edges of syntax alone are, measured against the edges that a
//! compiler gave.

use vstd::prelude::*;
use vstd::string::*;

use crate::graph;
use crate::order;
use crate::rebuild;
use crate::rows;
use crate::rows::Row;
use crate::store::{Store, StoreModel};
use crate::tables::CallRowModel;
use crate::text;
use crate::types;
use crate::types::{Edge, EdgeModel, EdgeRelation, Node, NodeModel, ResolutionTier};

verus! {

/// A generator of pseudo-random numbers; its state is the last number.
pub struct XorShift(pub u64);

/// The number that follows a state.
pub open spec fn next_number(state: u64) -> u64 {
    let a = if state == 0 {
        1u64
    } else {
        state
    };
    let b = a ^ (a << 13u64);
    let c = b ^ (b >> 7u64);
    c ^ (c << 17u64)
}

impl XorShift {
    /// See [`next_number`].
    pub fn next(&mut self) -> (r: u64)
        ensures
            r == next_number(old(self).0),
            final(self).0 == r,
    {
        let a: u64 = if self.0 == 0 {
            1
        } else {
            self.0
        };
        let b: u64 = a ^ (a << 13u64);
        let c: u64 = b ^ (b >> 7u64);
        let d: u64 = c ^ (c << 17u64);
        self.0 = d;
        d
    }
}

/// No number of the generator is zero.
pub proof fn law_numbers_are_not_zero(state: u64)
    ensures
        next_number(state) != 0,
{
    let a = if state == 0 {
        1u64
    } else {
        state
    };
    let b = a ^ (a << 13u64);
    let c = b ^ (b >> 7u64);
    assert(a != 0 ==> a ^ (a << 13u64) != 0) by (bit_vector);
    assert(b != 0 ==> b ^ (b >> 7u64) != 0) by (bit_vector);
    assert(c != 0 ==> c ^ (c << 17u64) != 0) by (bit_vector);
}

/// The places that are drawn, each once, until there are `take` of them; with a
/// bound on the numbers that are drawn for it.
pub open spec fn draws(state: u64, picked: Seq<usize>, take: nat, len: nat, bound: nat) -> Seq<usize>
    decreases bound,
{
    if picked.len() >= take || bound == 0 {
        picked
    } else {
        let x = next_number(state);
        let i = (x % (len as u64)) as usize;
        draws(
            x,
            if picked.contains(i) {
                picked
            } else {
                picked.push(i)
            },
            take,
            len,
            (bound - 1) as nat,
        )
    }
}

/// The order of places.
pub open spec fn place_order() -> spec_fn(usize, usize) -> bool {
    |a: usize, b: usize| a < b
}

/// The places with those from `k` on that are missing, until there are `take` of
/// them.
pub open spec fn filled(picked: Seq<usize>, take: nat, k: nat, len: nat) -> Seq<usize>
    decreases len - k,
{
    if picked.len() >= take || k >= len {
        picked
    } else {
        filled(
            if picked.contains(k as usize) {
                picked
            } else {
                picked.push(k as usize)
            },
            take,
            k + 1,
            len,
        )
    }
}

/// The size of a sample of `take` out of `len`.
pub open spec fn sample_size(take: nat, len: nat) -> nat {
    if take < len {
        take
    } else {
        len
    }
}

/// The places of a sample of `take` out of `len`. After as many numbers as there
/// are states the generator gives the same ones again. What it would not have
/// given until then is taken from the front.
pub open spec fn sample_of(seed: u64, take: nat, len: nat) -> Seq<usize> {
    let n = sample_size(take, len);
    order::arranged(
        filled(
            draws(
                seed.wrapping_add(0x9E37_79B9_7F4A_7C15),
                Seq::empty(),
                n,
                len,
                u64::MAX as nat,
            ),
            n,
            0,
            len,
        ),
        place_order(),
    )
}

/// See [`sample_of`].
pub fn sample(seed: u64, take: usize, len: usize) -> (r: Vec<usize>)
    ensures
        r@ == sample_of(seed, take as nat, len as nat),
{
    let take: usize = if take < len {
        take
    } else {
        len
    };
    let mut rng = XorShift(seed.wrapping_add(0x9E37_79B9_7F4A_7C15));
    let mut picked: Vec<usize> = Vec::new();
    let mut chosen: Vec<bool> = Vec::new();
    let mut k: usize = 0;
    while k < len
        invariant
            k <= len,
            chosen@.len() == k,
            forall|j: int| 0 <= j < k ==> !#[trigger] chosen@[j],
        decreases len - k,
    {
        chosen.push(false);
        k += 1;
    }
    let ghost drawn = draws(rng.0, Seq::empty(), take as nat, len as nat, u64::MAX as nat);
    let mut bound: u64 = u64::MAX;
    assert(picked@ =~= Seq::empty());
    while picked.len() < take && bound > 0
        invariant
            take <= len,
            chosen@.len() == len,
            forall|j: usize| j < len ==> #[trigger] chosen@[j as int] == picked@.contains(j),
            drawn == draws(rng.0, picked@, take as nat, len as nat, bound as nat),
        decreases bound,
    {
        let x: u64 = rng.next();
        let i: usize = (x % (len as u64)) as usize;
        if !chosen[i] {
            let ghost was = picked@;
            picked.push(i);
            chosen.set(i, true);
            assert forall|j: usize| j < len implies #[trigger] chosen@[j as int] == picked@.contains(
                j,
            ) by {
                assert(picked@[was.len() as int] == i);
                if was.contains(j) {
                    let m = choose|m: int| 0 <= m < was.len() && was[m] == j;
                    assert(picked@[m] == j);
                }
                if picked@.contains(j) && j != i {
                    let m = choose|m: int| 0 <= m < picked@.len() && picked@[m] == j;
                    assert(was[m] == j);
                }
            }
        }
        bound -= 1;
    }
    assert(picked@ == drawn);
    let ghost all = filled(drawn, take as nat, 0, len as nat);
    let mut i: usize = 0;
    while picked.len() < take && i < len
        invariant
            take <= len,
            i <= len,
            chosen@.len() == len,
            forall|j: usize| j < len ==> #[trigger] chosen@[j as int] == picked@.contains(j),
            all == filled(picked@, take as nat, i as nat, len as nat),
        decreases len - i,
    {
        if !chosen[i] {
            let ghost was = picked@;
            picked.push(i);
            chosen.set(i, true);
            assert forall|j: usize| j < len implies #[trigger] chosen@[j as int] == picked@.contains(
                j,
            ) by {
                assert(picked@[was.len() as int] == i);
                if was.contains(j) {
                    let m = choose|m: int| 0 <= m < was.len() && was[m] == j;
                    assert(picked@[m] == j);
                }
                if picked@.contains(j) && j != i {
                    let m = choose|m: int| 0 <= m < picked@.len() && picked@[m] == j;
                    assert(was[m] == j);
                }
            }
        }
        i += 1;
    }
    let less = |a: &usize, b: &usize| -> (t: bool)
        ensures
            t == (*a < *b),
    { *a < *b };
    order::arrange(picked, Ghost(place_order()), less)
}

/// An edge of syntax alone: its ends, and why it was drawn.
pub struct Candidate {
    pub src: String,
    pub dst: String,
    pub tier: String,
}

/// The model of a [`Candidate`].
pub struct CandidateModel {
    pub src: Seq<char>,
    pub dst: Seq<char>,
    pub tier: Seq<char>,
}

impl View for Candidate {
    type V = CandidateModel;

    open spec fn view(&self) -> CandidateModel {
        CandidateModel { src: self.src@, dst: self.dst@, tier: self.tier@ }
    }
}

impl Row for Candidate {
    fn copy(&self) -> (r: Candidate) {
        Candidate { src: self.src.clone(), dst: self.dst.clone(), tier: self.tier.clone() }
    }
}

/// The order of candidates: by source, then by target, then by tier.
pub open spec fn candidate_less(a: CandidateModel, b: CandidateModel) -> bool {
    if a.src != b.src {
        text::text_less(a.src, b.src)
    } else if a.dst != b.dst {
        text::text_less(a.dst, b.dst)
    } else {
        text::text_less(a.tier, b.tier)
    }
}

/// See [`candidate_less`].
pub open spec fn candidate_order() -> spec_fn(CandidateModel, CandidateModel) -> bool {
    |a: CandidateModel, b: CandidateModel| candidate_less(a, b)
}

/// The calls that syntax alone resolves.
pub open spec fn is_syntax_call() -> spec_fn(EdgeModel) -> bool {
    |e: EdgeModel| e.tier == ResolutionTier::TreeSitter && e.relation == EdgeRelation::Calls
}

/// The calls that a compiler resolved.
pub open spec fn is_oracle() -> spec_fn(EdgeModel) -> bool {
    |e: EdgeModel| e.tier == ResolutionTier::Scip && e.relation == EdgeRelation::Calls
}

/// An edge as a candidate.
pub open spec fn candidate_of() -> spec_fn(EdgeModel) -> CandidateModel {
    |e: EdgeModel|
        CandidateModel {
            src: e.src,
            dst: e.dst,
            tier: match types::meta_text(e.metadata, "justification"@) {
                Some(j) => j,
                None => "untagged"@,
            },
        }
}

/// What syntax alone resolves in the whole repository, in order. The tables
/// cannot say it: there a compiler's edge has taken the place of each edge that
/// it agrees with.
pub open spec fn candidates_of(s: StoreModel) -> Seq<CandidateModel> {
    order::arranged(
        rows::kept(
            graph::built_edges(
                rebuild::resolver_nodes(s),
                s.calls.map_values(|c: CallRowModel| c.call),
            ),
            is_syntax_call(),
        ).map_values(candidate_of()),
        candidate_order(),
    )
}

/// The compiler's calls from a node.
pub open spec fn oracle_from(src: Seq<char>) -> spec_fn(EdgeModel) -> bool {
    |e: EdgeModel| is_oracle()(e) && e.src == src
}

/// The compiler's calls from one node to another.
pub open spec fn oracle_between(src: Seq<char>, dst: Seq<char>) -> spec_fn(EdgeModel) -> bool {
    |e: EdgeModel| is_oracle()(e) && e.src == src && e.dst == dst
}

/// The candidates that can be judged: the compiler saw their source.
pub open spec fn is_judged(edges: Seq<EdgeModel>) -> spec_fn(CandidateModel) -> bool {
    |c: CandidateModel| rows::any(edges, oracle_from(c.src))
}

/// The candidates that the compiler has too.
pub open spec fn is_confirmed(edges: Seq<EdgeModel>) -> spec_fn(CandidateModel) -> bool {
    |c: CandidateModel| rows::any(edges, oracle_between(c.src, c.dst))
}

/// The candidates of a tier.
pub open spec fn in_tier(tier: Seq<char>) -> spec_fn(CandidateModel) -> bool {
    |c: CandidateModel| c.tier == tier
}

/// What a sample says of one tier.
#[derive(Debug, PartialEq, Eq)]
pub struct TierTally {
    pub tier: String,
    pub checked: usize,
    pub confirmed: usize,
    pub unverifiable: usize,
}

/// The model of a [`TierTally`].
pub struct TallyModel {
    pub tier: Seq<char>,
    pub checked: nat,
    pub confirmed: nat,
    pub unverifiable: nat,
}

impl View for TierTally {
    type V = TallyModel;

    open spec fn view(&self) -> TallyModel {
        TallyModel {
            tier: self.tier@,
            checked: self.checked as nat,
            confirmed: self.confirmed as nat,
            unverifiable: self.unverifiable as nat,
        }
    }
}

/// What a sample says of a tier: how many of its edges could be judged, how many
/// of those the compiler confirms, and how many could not be judged.
pub open spec fn tally_of(edges: Seq<EdgeModel>, picked: Seq<CandidateModel>) -> spec_fn(
    Seq<char>,
) -> TallyModel {
    |tier: Seq<char>|
        {
            let own = rows::kept(picked, in_tier(tier));
            TallyModel {
                tier,
                checked: rows::kept(own, is_judged(edges)).len(),
                confirmed: rows::kept(own, is_confirmed(edges)).len(),
                unverifiable: rows::kept(own, |c: CandidateModel| !is_judged(edges)(c)).len(),
            }
        }
}

/// The tiers of a sample, by name, with what it says of each.
pub open spec fn tallies_of(edges: Seq<EdgeModel>, picked: Seq<CandidateModel>) -> Seq<TallyModel> {
    order::arranged(
        rows::distinct(picked.map_values(|c: CandidateModel| c.tier)),
        order::text_order(),
    ).map_values(tally_of(edges, picked))
}

/// The nodes that the compiler saw a call from.
pub open spec fn is_covered(edges: Seq<EdgeModel>) -> spec_fn(NodeModel) -> bool {
    |n: NodeModel| rows::any(edges, oracle_from(n.id))
}

/// The languages that the compiler saw, by name.
pub open spec fn oracle_languages(s: StoreModel) -> Seq<Seq<char>> {
    order::arranged(
        rows::distinct(
            rows::kept(s.nodes, is_covered(s.edges)).map_values(|n: NodeModel| n.language),
        ),
        order::text_order(),
    )
}

/// What an audit measures.
#[derive(Debug, PartialEq, Eq)]
pub struct Audit {
    pub oracle_edges: usize,
    pub oracle_languages: Vec<String>,
    pub sampled: usize,
    pub seed: u64,
    pub tiers: Vec<TierTally>,
    pub checked: usize,
    pub confirmed: usize,
}

/// The model of an [`Audit`].
pub struct AuditModel {
    pub oracle_edges: nat,
    pub oracle_languages: Seq<Seq<char>>,
    pub sampled: nat,
    pub seed: u64,
    pub tiers: Seq<TallyModel>,
    pub checked: nat,
    pub confirmed: nat,
}

impl View for Audit {
    type V = AuditModel;

    open spec fn view(&self) -> AuditModel {
        AuditModel {
            oracle_edges: self.oracle_edges as nat,
            oracle_languages: text::views(self.oracle_languages@),
            sampled: self.sampled as nat,
            seed: self.seed,
            tiers: rows::seen(self.tiers@),
            checked: self.checked as nat,
            confirmed: self.confirmed as nat,
        }
    }
}

/// The candidates at the given places.
pub open spec fn at_places(c: Seq<CandidateModel>, places: Seq<usize>) -> Seq<CandidateModel> {
    places.map_values(|i: usize| c[i as int])
}

/// What an audit measures; nothing where no compiler's edge is there to measure
/// against.
pub open spec fn audit_of(s: StoreModel, take: nat, seed: u64) -> Option<AuditModel> {
    if !rows::any(s.edges, is_oracle()) {
        None
    } else {
        let all = candidates_of(s);
        let picked = at_places(all, sample_of(seed, take, all.len()));
        Some(
            AuditModel {
                oracle_edges: rows::kept(s.edges, is_oracle()).len(),
                oracle_languages: oracle_languages(s),
                sampled: sample_size(take, all.len()),
                seed,
                tiers: tallies_of(s.edges, picked),
                checked: rows::kept(picked, is_judged(s.edges)).len(),
                confirmed: rows::kept(picked, is_confirmed(s.edges)).len(),
            },
        )
    }
}

/// The words in which an audit is refused.
pub const NO_ORACLE: &'static str =
    "no compiler-grade oracle in this graph — run `codegraph scip` (or build the Xcode index on macOS) first, then re-run `codegraph audit`";

impl Store {
    fn has_oracle_from(&self, src: &str) -> (r: bool)
        ensures
            r == rows::any(self@.edges, oracle_from(src@)),
    {
        let test = |e: &Edge| -> (t: bool)
            ensures
                t == oracle_from(src@)(e@),
        {
            e.tier == ResolutionTier::Scip && e.relation == EdgeRelation::Calls && text::same(
                e.src.as_str(),
                src,
            )
        };
        rows::exists_row(&self.edges, Ghost(oracle_from(src@)), test)
    }

    fn has_oracle_between(&self, src: &str, dst: &str) -> (r: bool)
        ensures
            r == rows::any(self@.edges, oracle_between(src@, dst@)),
    {
        let test = |e: &Edge| -> (t: bool)
            ensures
                t == oracle_between(src@, dst@)(e@),
        {
            e.tier == ResolutionTier::Scip && e.relation == EdgeRelation::Calls && text::same(
                e.src.as_str(),
                src,
            ) && text::same(e.dst.as_str(), dst)
        };
        rows::exists_row(&self.edges, Ghost(oracle_between(src@, dst@)), test)
    }

    /// See [`candidates_of`].
    pub fn audit_candidates(&self) -> (r: Vec<Candidate>)
        ensures
            rows::seen(r@) == candidates_of(self@),
    {
        let nodes = self.graph_nodes();
        let calls = self.all_calls();
        let built = graph::resolve_edges(nodes.as_slice(), calls.as_slice());
        let test = |e: &Edge| -> (t: bool)
            ensures
                t == is_syntax_call()(e@),
        { e.tier == ResolutionTier::TreeSitter && e.relation == EdgeRelation::Calls };
        let found = rows::select(&built, Ghost(is_syntax_call()), test);
        let make = |e: &Edge| -> (c: Candidate)
            ensures
                c@ == candidate_of()(e@),
        {
            Candidate {
                src: e.src.clone(),
                dst: e.dst.clone(),
                tier: match e.metadata.text("justification") {
                    Some(j) => j.clone(),
                    None => "untagged".to_owned(),
                },
            }
        };
        let all = rows::made(&found, Ghost(candidate_of()), make);
        let ghost given = all@;
        let ghost before = |a: Candidate, b: Candidate| candidate_less(a@, b@);
        let less = |a: &Candidate, b: &Candidate| -> (t: bool)
            ensures
                t == candidate_less(a@, b@),
        {
            if !text::same(a.src.as_str(), b.src.as_str()) {
                text::less(a.src.as_str(), b.src.as_str())
            } else if !text::same(a.dst.as_str(), b.dst.as_str()) {
                text::less(a.dst.as_str(), b.dst.as_str())
            } else {
                text::less(a.tier.as_str(), b.tier.as_str())
            }
        };
        let r = order::arrange(all, Ghost(before), less);
        proof {
            order::lemma_arranged_map(given, before, |c: Candidate| c@, candidate_order());
            assert(rows::seen(r@) =~= r@.map_values(|c: Candidate| c@));
            assert(rows::seen(given) =~= given.map_values(|c: Candidate| c@));
        }
        r
    }

    /// See [`tally_of`].
    fn tally(&self, picked: &Vec<Candidate>, tier: &str) -> (r: TierTally)
        ensures
            r@ == tally_of(self@.edges, rows::seen(picked@))(tier@),
    {
        let own_test = |c: &Candidate| -> (t: bool)
            ensures
                t == in_tier(tier@)(c@),
        { text::same(c.tier.as_str(), tier) };
        let own = rows::select(picked, Ghost(in_tier(tier@)), own_test);
        let judged = |c: &Candidate| -> (t: bool)
            ensures
                t == is_judged(self@.edges)(c@),
        { self.has_oracle_from(c.src.as_str()) };
        let confirmed = |c: &Candidate| -> (t: bool)
            ensures
                t == is_confirmed(self@.edges)(c@),
        { self.has_oracle_between(c.src.as_str(), c.dst.as_str()) };
        let unjudged = |c: &Candidate| -> (t: bool)
            ensures
                t == !is_judged(self@.edges)(c@),
        { !self.has_oracle_from(c.src.as_str()) };
        TierTally {
            tier: tier.to_owned(),
            checked: rows::count(&own, Ghost(is_judged(self@.edges)), judged),
            confirmed: rows::count(&own, Ghost(is_confirmed(self@.edges)), confirmed),
            unverifiable: rows::count(
                &own,
                Ghost(|c: CandidateModel| !is_judged(self@.edges)(c)),
                unjudged,
            ),
        }
    }

    /// See [`tallies_of`].
    fn tallies(&self, picked: &Vec<Candidate>) -> (r: Vec<TierTally>)
        ensures
            rows::seen(r@) == tallies_of(self@.edges, rows::seen(picked@)),
    {
        let get = |c: &Candidate| -> (t: String)
            ensures
                t@ == c@.tier,
        { c.tier.clone() };
        let names = rows::distinct_texts(picked, Ghost(|c: CandidateModel| c.tier), get);
        let names = order::arrange_texts(names);
        let make = |tier: &String| -> (t: TierTally)
            ensures
                t@ == tally_of(self@.edges, rows::seen(picked@))(tier@),
        { self.tally(picked, tier.as_str()) };
        assert(rows::seen(names@) =~= text::views(names@));
        rows::made(&names, Ghost(tally_of(self@.edges, rows::seen(picked@))), make)
    }

    /// See [`oracle_languages`].
    fn list_oracle_languages(&self) -> (r: Vec<String>)
        ensures
            text::views(r@) == oracle_languages(self@),
    {
        let test = |n: &Node| -> (t: bool)
            ensures
                t == is_covered(self@.edges)(n@),
        { self.has_oracle_from(n.id.as_str()) };
        let covered = rows::select(&self.nodes, Ghost(is_covered(self@.edges)), test);
        let get = |n: &Node| -> (t: String)
            ensures
                t@ == n@.language,
        { n.language.clone() };
        let names = rows::distinct_texts(&covered, Ghost(|n: NodeModel| n.language), get);
        order::arrange_texts(names)
    }

    /// Measures a sample of the edges of syntax alone against the compiler's;
    /// see [`audit_of`].
    pub fn audit(&self, take: usize, seed: u64) -> (r: Option<Audit>)
        ensures
            match r {
                Some(a) => audit_of(self@, take as nat, seed) == Some(a@),
                None => audit_of(self@, take as nat, seed) is None,
            },
    {
        let oracle = |e: &Edge| -> (t: bool)
            ensures
                t == is_oracle()(e@),
        { e.tier == ResolutionTier::Scip && e.relation == EdgeRelation::Calls };
        if !rows::exists_row(&self.edges, Ghost(is_oracle()), oracle) {
            return None;
        }
        let all = self.audit_candidates();
        let places = sample(seed, take, all.len());
        let ghost cands = rows::seen(all@);
        assert(cands.len() == all@.len());
        proof {
            law_sample_is_in_range(seed, take as nat, all@.len());
        }
        let mut picked: Vec<Candidate> = Vec::new();
        let mut i: usize = 0;
        while i < places.len()
            invariant
                i <= places.len(),
                cands == rows::seen(all@),
                forall|k: int| 0 <= k < places@.len() ==> #[trigger] places@[k] < all@.len(),
                rows::seen(picked@) == at_places(cands, places@.take(i as int)),
            decreases places.len() - i,
        {
            let ghost was = rows::seen(picked@);
            let c = all[places[i]].copy();
            picked.push(c);
            assert(rows::seen(picked@) =~= was.push(c@));
            assert(cands[places@[i as int] as int] == all@[places@[i as int] as int]@);
            assert(at_places(cands, places@.take(i + 1)) =~= was.push(c@));
            i += 1;
        }
        assert(places@.take(places@.len() as int) =~= places@);
        let oracle = |e: &Edge| -> (t: bool)
            ensures
                t == is_oracle()(e@),
        { e.tier == ResolutionTier::Scip && e.relation == EdgeRelation::Calls };
        let judged = |c: &Candidate| -> (t: bool)
            ensures
                t == is_judged(self@.edges)(c@),
        { self.has_oracle_from(c.src.as_str()) };
        let confirmed = |c: &Candidate| -> (t: bool)
            ensures
                t == is_confirmed(self@.edges)(c@),
        { self.has_oracle_between(c.src.as_str(), c.dst.as_str()) };
        Some(
            Audit {
                oracle_edges: rows::count(&self.edges, Ghost(is_oracle()), oracle),
                oracle_languages: self.list_oracle_languages(),
                sampled: if take < all.len() {
                    take
                } else {
                    all.len()
                },
                seed,
                tiers: self.tallies(&picked),
                checked: rows::count(&picked, Ghost(is_judged(self@.edges)), judged),
                confirmed: rows::count(&picked, Ghost(is_confirmed(self@.edges)), confirmed),
            },
        )
    }
}

proof fn lemma_draws(state: u64, picked: Seq<usize>, take: nat, len: nat, bound: nat)
    requires
        0 < len <= usize::MAX || take <= picked.len(),
        len <= u64::MAX,
        picked.len() <= take,
        picked.no_duplicates(),
        forall|k: int| 0 <= k < picked.len() ==> #[trigger] picked[k] < len,
    ensures
        draws(state, picked, take, len, bound).len() <= take,
        draws(state, picked, take, len, bound).no_duplicates(),
        forall|k: int|
            0 <= k < draws(state, picked, take, len, bound).len() ==> #[trigger] draws(
                state,
                picked,
                take,
                len,
                bound,
            )[k] < len,
    decreases bound,
{
    if picked.len() < take && bound > 0 {
        let x = next_number(state);
        let i = (x % (len as u64)) as usize;
        let next = if picked.contains(i) {
            picked
        } else {
            picked.push(i)
        };
        lemma_draws(x, next, take, len, (bound - 1) as nat);
    }
}

proof fn lemma_pigeons(picked: Seq<usize>, k: nat)
    requires
        k <= usize::MAX,
        picked.no_duplicates(),
        forall|j: usize| j < k ==> #[trigger] picked.contains(j),
    ensures
        picked.len() >= k,
    decreases k,
{
    if k > 0 {
        let last = (k - 1) as usize;
        assert(picked.contains(last));
        let i = choose|i: int| 0 <= i < picked.len() && picked[i] == last;
        let rest = picked.remove(i);
        assert forall|j: usize| j < k - 1 implies #[trigger] rest.contains(j) by {
            assert(picked.contains(j));
            let m = choose|m: int| 0 <= m < picked.len() && picked[m] == j;
            if m < i {
                assert(rest[m] == j);
            } else {
                assert(rest[m - 1] == j);
            }
        }
        lemma_pigeons(rest, (k - 1) as nat);
    }
}

proof fn lemma_filled(picked: Seq<usize>, take: nat, k: nat, len: nat)
    requires
        k <= len <= usize::MAX,
        take <= len,
        picked.len() <= take,
        picked.no_duplicates(),
        forall|i: int| 0 <= i < picked.len() ==> #[trigger] picked[i] < len,
        forall|j: usize| j < k ==> #[trigger] picked.contains(j),
    ensures
        filled(picked, take, k, len).len() == take,
        filled(picked, take, k, len).no_duplicates(),
        forall|i: int|
            0 <= i < filled(picked, take, k, len).len() ==> #[trigger] filled(
                picked,
                take,
                k,
                len,
            )[i] < len,
    decreases len - k,
{
    if picked.len() < take {
        if k >= len {
            lemma_pigeons(picked, k);
        } else {
            let place = k as usize;
            let next = if picked.contains(place) {
                picked
            } else {
                picked.push(place)
            };
            assert forall|j: usize| j < k + 1 implies #[trigger] next.contains(j) by {
                if j == place {
                    if !picked.contains(place) {
                        assert(next[picked.len() as int] == place);
                    }
                } else {
                    assert(picked.contains(j));
                    let m = choose|m: int| 0 <= m < picked.len() && picked[m] == j;
                    assert(next[m] == j);
                }
            }
            lemma_filled(next, take, k + 1, len);
        }
    }
}

/// A sample draws as many places as it is asked for, or all where there are not
/// more. They are places that are there, and none of them is drawn twice.
pub proof fn law_sample_is_in_range(seed: u64, take: nat, len: nat)
    requires
        len <= usize::MAX,
    ensures
        sample_of(seed, take, len).len() == sample_size(take, len),
        sample_of(seed, take, len).no_duplicates(),
        forall|k: int|
            0 <= k < sample_of(seed, take, len).len() ==> #[trigger] sample_of(
                seed,
                take,
                len,
            )[k] < len,
{
    let start = seed.wrapping_add(0x9E37_79B9_7F4A_7C15);
    let n = sample_size(take, len);
    let none = Seq::<usize>::empty();
    lemma_draws(start, none, n, len, u64::MAX as nat);
    let drawn = draws(start, none, n, len, u64::MAX as nat);
    lemma_filled(drawn, n, 0, len);
    let d = filled(drawn, n, 0, len);
    order::law_arranged(d, place_order());
    let a = order::arranged(d, place_order());
    d.lemma_multiset_has_no_duplicates();
    a.lemma_multiset_has_no_duplicates_conv();
    assert forall|k: int| 0 <= k < a.len() implies #[trigger] a[k] < len by {
        broadcast use vstd::seq_lib::group_to_multiset_ensures;

        assert(a.contains(a[k]));
        assert(a.to_multiset().count(a[k]) > 0);
        assert(d.contains(a[k]));
    }
}

/// How many edges tallies count.
pub open spec fn counted(tiers: Seq<TallyModel>) -> nat
    decreases tiers.len(),
{
    if tiers.len() == 0 {
        0
    } else {
        counted(tiers.drop_last()) + tiers.last().checked + tiers.last().unverifiable
    }
}

/// How many of the candidates are of the tiers.
spec fn of_tiers(names: Seq<Seq<char>>, picked: Seq<CandidateModel>) -> nat
    decreases names.len(),
{
    if names.len() == 0 {
        0
    } else {
        of_tiers(names.drop_last(), picked) + rows::kept(picked, in_tier(names.last())).len()
    }
}

proof fn lemma_of_tiers_push(
    names: Seq<Seq<char>>,
    picked: Seq<CandidateModel>,
    c: CandidateModel,
)
    requires
        names.no_duplicates(),
    ensures
        of_tiers(names, picked.push(c)) == of_tiers(names, picked) + if names.contains(c.tier) {
            1nat
        } else {
            0nat
        },
    decreases names.len(),
{
    if names.len() > 0 {
        let d = names.drop_last();
        lemma_of_tiers_push(d, picked, c);
        rows::lemma_kept_push(picked, c, in_tier(names.last()));
        if names.contains(c.tier) {
            let i = choose|i: int| 0 <= i < names.len() && names[i] == c.tier;
            if i < d.len() {
                assert(d[i] == c.tier);
                assert(names[i] != names[names.len() - 1]);
            } else if d.contains(c.tier) {
                let j = choose|j: int| 0 <= j < d.len() && d[j] == c.tier;
                assert(names[j] != names[names.len() - 1]);
            }
        } else {
            assert(names[names.len() - 1] == names.last());
            if d.contains(c.tier) {
                let j = choose|j: int| 0 <= j < d.len() && d[j] == c.tier;
                assert(names[j] == c.tier);
            }
        }
    }
}

proof fn lemma_of_tiers(names: Seq<Seq<char>>, picked: Seq<CandidateModel>)
    requires
        names.no_duplicates(),
        forall|i: int| 0 <= i < picked.len() ==> names.contains((#[trigger] picked[i]).tier),
    ensures
        of_tiers(names, picked) == picked.len(),
    decreases picked.len(),
{
    if picked.len() == 0 {
        lemma_of_none(names, picked);
    } else {
        let d = picked.drop_last();
        assert forall|i: int| 0 <= i < d.len() implies names.contains((#[trigger] d[i]).tier) by {
            assert(d[i] == picked[i]);
        }
        lemma_of_tiers(names, d);
        lemma_of_tiers_push(names, d, picked.last());
        assert(d.push(picked.last()) =~= picked);
        assert(picked[picked.len() - 1] == picked.last());
    }
}

proof fn lemma_of_none(names: Seq<Seq<char>>, picked: Seq<CandidateModel>)
    requires
        picked.len() == 0,
    ensures
        of_tiers(names, picked) == 0,
    decreases names.len(),
{
    if names.len() > 0 {
        lemma_of_none(names.drop_last(), picked);
    }
}

proof fn lemma_counted(
    names: Seq<Seq<char>>,
    edges: Seq<EdgeModel>,
    picked: Seq<CandidateModel>,
)
    ensures
        counted(names.map_values(tally_of(edges, picked))) == of_tiers(names, picked),
    decreases names.len(),
{
    let all = names.map_values(tally_of(edges, picked));
    if names.len() > 0 {
        lemma_counted(names.drop_last(), edges, picked);
        assert(all.drop_last() =~= names.drop_last().map_values(tally_of(edges, picked)));
        law_tally_adds_up(edges, picked, names.last());
    }
}

/// An audit counts every edge of its sample in one tier, and the sample has the
/// asked size, or is everything where there is not more.
pub proof fn law_audit_adds_up(s: StoreModel, take: nat, seed: u64)
    requires
        candidates_of(s).len() <= usize::MAX,
    ensures
        audit_of(s, take, seed) matches Some(a) ==> counted(a.tiers) == a.sampled && a.sampled
            == sample_size(take, candidates_of(s).len()) && a.confirmed <= a.checked <= a.sampled,
{
    broadcast use vstd::seq_lib::group_to_multiset_ensures;

    if let Some(a) = audit_of(s, take, seed) {
        let all = candidates_of(s);
        let picked = at_places(all, sample_of(seed, take, all.len()));
        law_sample_is_in_range(seed, take, all.len());
        let tiers = picked.map_values(|c: CandidateModel| c.tier);
        let once = rows::distinct(tiers);
        let names = order::arranged(once, order::text_order());
        rows::lemma_distinct(tiers);
        order::law_arranged(once, order::text_order());
        once.lemma_multiset_has_no_duplicates();
        names.lemma_multiset_has_no_duplicates_conv();
        assert forall|i: int| 0 <= i < picked.len() implies names.contains(
            (#[trigger] picked[i]).tier,
        ) by {
            assert(tiers[i] == picked[i].tier);
            assert(tiers.contains(tiers[i]));
            assert(once.contains(tiers[i]));
            assert(once.to_multiset().count(tiers[i]) > 0);
        }
        lemma_of_tiers(names, picked);
        lemma_counted(names, s.edges, picked);
        lemma_split(s.edges, picked);
    }
}

/// Every edge of a tier in a sample is counted once: as judged or as not, and
/// what is confirmed was judged.
pub proof fn law_tally_adds_up(
    edges: Seq<EdgeModel>,
    picked: Seq<CandidateModel>,
    tier: Seq<char>,
)
    ensures
        ({
            let t = tally_of(edges, picked)(tier);
            t.checked + t.unverifiable == rows::kept(picked, in_tier(tier)).len() && t.confirmed
                <= t.checked
        }),
{
    lemma_split(edges, rows::kept(picked, in_tier(tier)));
}

proof fn lemma_split(edges: Seq<EdgeModel>, own: Seq<CandidateModel>)
    ensures
        rows::kept(own, is_judged(edges)).len() + rows::kept(
            own,
            |c: CandidateModel| !is_judged(edges)(c),
        ).len() == own.len(),
        rows::kept(own, is_confirmed(edges)).len() <= rows::kept(own, is_judged(edges)).len(),
    decreases own.len(),
{
    if own.len() > 0 {
        lemma_split(edges, own.drop_last());
        let c = own.last();
        if is_confirmed(edges)(c) {
            rows::lemma_first_at(edges, oracle_between(c.src, c.dst));
            rows::lemma_first_at(edges, oracle_from(c.src));
            let k = rows::first_at(edges, oracle_between(c.src, c.dst))->0;
            assert(oracle_from(c.src)(edges[k]));
        }
    }
}

} // verus!
