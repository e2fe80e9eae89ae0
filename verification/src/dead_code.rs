//! Which functions look dead, and what speaks against it.

use vstd::prelude::*;
use vstd::string::*;

use crate::answers;
use crate::answers::{AnswerMetadata, EvidenceModel, EvidenceQuality, GraphAnswer};
use crate::order;
use crate::rows;
use crate::rows::Row;
use crate::search;
use crate::store::{Store, StoreModel};
use crate::store_files;
use crate::store_queries;
use crate::text;
use crate::types;
use crate::types::{Edge, Node, NodeLabel, NodeModel};
use crate::words;

verus! {

/// How a mention that is no resolved call refers to a function.
#[derive(Debug, Clone, Copy, PartialEq, Eq, Structural)]
pub enum ReferenceKind {
    DirectCall,
    Callback,
    FunctionValue,
    MacroRegistration,
    FrameworkRegistration,
    FfiExport,
    PublicExport,
    UnknownIndirect,
}

/// A mention of a function in a file.
#[derive(Debug, PartialEq, Eq)]
pub struct RefRow {
    pub name: String,
    pub kind: ReferenceKind,
    pub line: u32,
    pub file_path: String,
}

/// The model of a [`RefRow`].
pub struct RefModel {
    pub name: Seq<char>,
    pub kind: ReferenceKind,
    pub line: u32,
    pub file_path: Seq<char>,
}

impl View for RefRow {
    type V = RefModel;

    open spec fn view(&self) -> RefModel {
        RefModel {
            name: self.name@,
            kind: self.kind,
            line: self.line,
            file_path: self.file_path@,
        }
    }
}

impl Row for RefRow {
    fn copy(&self) -> (r: RefRow) {
        RefRow {
            name: self.name.clone(),
            kind: self.kind,
            line: self.line,
            file_path: self.file_path.clone(),
        }
    }
}

/// A symbol without its details.
#[derive(Debug, PartialEq, Eq)]
pub struct LeanSym {
    pub id: String,
    pub name: String,
    pub kind: NodeLabel,
    pub file: String,
    pub line: u32,
}

/// The model of a [`LeanSym`].
pub struct LeanModel {
    pub id: Seq<char>,
    pub name: Seq<char>,
    pub kind: NodeLabel,
    pub file: Seq<char>,
    pub line: u32,
}

impl View for LeanSym {
    type V = LeanModel;

    open spec fn view(&self) -> LeanModel {
        LeanModel {
            id: self.id@,
            name: self.name@,
            kind: self.kind,
            file: self.file@,
            line: self.line,
        }
    }
}

/// A node without its details.
pub open spec fn lean_of(n: NodeModel) -> LeanModel {
    LeanModel { id: n.id, name: n.name, kind: n.label, file: n.file_path, line: n.line_start }
}

/// See [`lean_of`].
pub fn lean(n: &Node) -> (r: LeanSym)
    ensures
        r@ == lean_of(n@),
{
    LeanSym {
        id: n.id.clone(),
        name: n.name.clone(),
        kind: n.label,
        file: n.file_path.clone(),
        line: n.line_start,
    }
}

/// What is known of a function that nothing calls.
#[derive(Debug, PartialEq, Eq)]
pub enum DeadCodeAssessment {
    /// Nothing refers to it.
    Candidate { node: LeanSym },
    /// Something refers to it without calling it.
    IndirectlyReferenced { node: LeanSym, kinds: Vec<ReferenceKind>, sites: usize },
    /// It is an entry point by its name.
    Excluded { node: LeanSym, context: String },
    /// Whether anything uses it cannot be known.
    Unknown { node: LeanSym, reason: String },
}

/// The model of a [`DeadCodeAssessment`].
pub enum AssessmentModel {
    Candidate(LeanModel),
    IndirectlyReferenced(LeanModel, Seq<ReferenceKind>, nat),
    Excluded(LeanModel, Seq<char>),
    Unknown(LeanModel, Seq<char>),
}

impl View for DeadCodeAssessment {
    type V = AssessmentModel;

    open spec fn view(&self) -> AssessmentModel {
        match *self {
            DeadCodeAssessment::Candidate { node } => AssessmentModel::Candidate(node@),
            DeadCodeAssessment::IndirectlyReferenced {
                node,
                kinds,
                sites,
            } => AssessmentModel::IndirectlyReferenced(node@, kinds@, sites as nat),
            DeadCodeAssessment::Excluded { node, context } => AssessmentModel::Excluded(
                node@,
                context@,
            ),
            DeadCodeAssessment::Unknown { node, reason } => AssessmentModel::Unknown(
                node@,
                reason@,
            ),
        }
    }
}

/// The last part of a qualified name.
pub open spec fn leaf(name: Seq<char>) -> Seq<char> {
    search::after_last(search::after_last(name, '.'), ':')
}

/// See [`leaf`].
pub fn leaf_name(name: &str) -> (r: String)
    ensures
        r@ == leaf(name@),
{
    let tail = search::text_after_last(name, '.');
    search::text_after_last(tail.as_str(), ':')
}

/// Whether a mention stands where the function is defined: such a mention
/// counts for the functions of its own file alone.
pub open spec fn is_surface(kind: ReferenceKind) -> bool {
    kind == ReferenceKind::FfiExport || kind == ReferenceKind::PublicExport || kind
        == ReferenceKind::FrameworkRegistration
}

/// The mentions that count for a function.
pub open spec fn speaks_for(n: NodeModel) -> spec_fn(RefModel) -> bool {
    |r: RefModel| r.name == leaf(n.name) && (is_surface(r.kind) ==> r.file_path == n.file_path)
}

/// The kinds of mentions, each once, in the order in which they first come.
pub open spec fn kinds_of(refs: Seq<RefModel>) -> Seq<ReferenceKind> {
    rows::distinct(refs.map_values(|r: RefModel| r.kind))
}

/// The kinds of what speaks for a function, with the route that it handles.
pub open spec fn evidence_kinds(n: NodeModel, refs: Seq<RefModel>, handler: bool) -> Seq<
    ReferenceKind,
> {
    let kinds = kinds_of(rows::kept(refs, speaks_for(n)));
    if handler && !kinds.contains(ReferenceKind::FrameworkRegistration) {
        kinds.push(ReferenceKind::FrameworkRegistration)
    } else {
        kinds
    }
}

/// How many places speak for a function.
pub open spec fn evidence_sites(n: NodeModel, refs: Seq<RefModel>, handler: bool) -> nat {
    let found = rows::kept(refs, speaks_for(n));
    if handler && !kinds_of(found).contains(ReferenceKind::FrameworkRegistration) {
        found.len() + 1
    } else {
        found.len()
    }
}

/// Whether all of the kinds are one.
pub open spec fn all_are(kinds: Seq<ReferenceKind>, k: ReferenceKind) -> bool {
    forall|i: int| 0 <= i < kinds.len() ==> #[trigger] kinds[i] == k
}

/// What is known of a function that nothing calls.
pub open spec fn assessed(n: NodeModel, refs: Seq<RefModel>, handler: bool) -> AssessmentModel {
    let node = lean_of(n);
    let kinds = evidence_kinds(n, refs, handler);
    let sites = evidence_sites(n, refs, handler);
    if store_queries::is_entry_name(n.name) {
        AssessmentModel::Excluded(
            node,
            "entrypoint naming convention (main/init/new/setup/run/constructor)"@,
        )
    } else if kinds.len() == 0 {
        AssessmentModel::Candidate(node)
    } else if all_are(kinds, ReferenceKind::UnknownIndirect) {
        AssessmentModel::Unknown(
            node,
            "referenced only in positions static analysis cannot classify ("@ + text::decimal(sites)
                + " site(s))"@,
        )
    } else if all_are(kinds, ReferenceKind::PublicExport) {
        AssessmentModel::Unknown(
            node,
            "public export with no in-repo references — external callers are invisible"@,
        )
    } else {
        AssessmentModel::IndirectlyReferenced(node, kinds, sites)
    }
}

fn has_kind(kinds: &Vec<ReferenceKind>, k: ReferenceKind) -> (r: bool)
    ensures
        r == kinds@.contains(k),
{
    let mut i: usize = 0;
    while i < kinds.len()
        invariant
            i <= kinds.len(),
            forall|j: int| 0 <= j < i ==> kinds@[j] != k,
        decreases kinds.len() - i,
    {
        if kinds[i] == k {
            return true;
        }
        i += 1;
    }
    false
}

fn only_kind(kinds: &Vec<ReferenceKind>, k: ReferenceKind) -> (r: bool)
    ensures
        r == all_are(kinds@, k),
{
    let mut i: usize = 0;
    while i < kinds.len()
        invariant
            i <= kinds.len(),
            forall|j: int| 0 <= j < i ==> kinds@[j] == k,
        decreases kinds.len() - i,
    {
        if kinds[i] != k {
            return false;
        }
        i += 1;
    }
    true
}

/// See [`kinds_of`].
fn list_kinds(refs: &Vec<RefRow>) -> (r: Vec<ReferenceKind>)
    ensures
        r@ == kinds_of(rows::seen(refs@)),
{
    let ghost all = rows::seen(refs@).map_values(|r: RefModel| r.kind);
    let mut out: Vec<ReferenceKind> = Vec::new();
    let mut i: usize = 0;
    assert(all.take(0) =~= Seq::empty());
    while i < refs.len()
        invariant
            i <= refs.len(),
            all == rows::seen(refs@).map_values(|r: RefModel| r.kind),
            out@ == rows::distinct(all.take(i as int)),
        decreases refs.len() - i,
    {
        let ghost next = all.take(i + 1);
        assert(all.len() == refs@.len());
        assert(next.drop_last() =~= all.take(i as int));
        assert(next.last() == refs@[i as int].kind);
        if !has_kind(&out, refs[i].kind) {
            out.push(refs[i].kind);
        }
        i += 1;
    }
    assert(all.take(all.len() as int) =~= all);
    out
}

/// Whether a function or a method is in no test file, and no edge and no call
/// site leads to it.
pub open spec fn uncalled(s: StoreModel) -> spec_fn(NodeModel) -> bool {
    |n: NodeModel|
        store_files::is_callable(n) && !words::test_path(n.file_path) && !rows::any(
            s.calls,
            store_queries::calls_naming(n.name),
        ) && !rows::any(s.edges, store_queries::calls_to(n.id))
}

/// The functions and methods that nothing calls, in the order of file and line.
pub open spec fn uncalled_nodes(s: StoreModel) -> Seq<NodeModel> {
    order::arranged(rows::kept(s.nodes, uncalled(s)), store_queries::place_order())
}

/// What is known of a function of the index that nothing calls.
pub open spec fn assessment_of(s: StoreModel, refs: Seq<RefModel>) -> spec_fn(
    NodeModel,
) -> AssessmentModel {
    |n: NodeModel| assessed(n, refs, rows::any(s.nodes, store_queries::route_to(n.name)))
}

/// Whether nothing at all speaks for a function.
pub open spec fn is_candidate(s: StoreModel, refs: Seq<RefModel>) -> spec_fn(NodeModel) -> bool {
    |n: NodeModel| assessment_of(s, refs)(n) is Candidate
}

/// The first functions for which nothing speaks.
pub open spec fn candidates_of(s: StoreModel, refs: Seq<RefModel>, limit: nat) -> Seq<LeanModel> {
    rows::limited(rows::kept(uncalled_nodes(s), is_candidate(s, refs)), limit).map_values(
        |n: NodeModel| lean_of(n),
    )
}

proof fn lemma_place_order()
    ensures
        order::is_order(store_queries::place_order()),
{
    let before = store_queries::place_order();
    assert forall|a: NodeModel, b: NodeModel| #[trigger] before(a, b) implies !before(b, a) by {
        order::lemma_text_asymmetric(a.file_path, b.file_path);
    }
    assert forall|a: NodeModel, b: NodeModel, c: NodeModel|
        #![trigger before(a, b), before(a, c)]
        #![trigger before(a, b), before(c, b)]
        before(a, b) implies before(a, c) || before(c, b) by {
        order::lemma_text_total(a.file_path, c.file_path);
        order::lemma_text_total(c.file_path, b.file_path);
        if a.file_path != b.file_path {
            order::lemma_text_between(a.file_path, b.file_path, c.file_path);
        } else if c.file_path != a.file_path {
            order::lemma_text_asymmetric(a.file_path, c.file_path);
        }
    }
}

proof fn lemma_kept_arranged(s: Seq<NodeModel>, test: spec_fn(NodeModel) -> bool)
    requires
        order::is_arranged(s, store_queries::place_order()),
    ensures
        order::is_arranged(rows::kept(s, test), store_queries::place_order()),
    decreases s.len(),
{
    if s.len() > 0 {
        let d = s.drop_last();
        assert forall|i: int, j: int| 0 <= i < j < d.len() implies !store_queries::place_order()(
            #[trigger] d[j],
            #[trigger] d[i],
        ) by {
            assert(d[i] == s[i] && d[j] == s[j]);
        }
        lemma_kept_arranged(d, test);
        rows::lemma_kept(d, test);
        let k = rows::kept(d, test);
        let all = rows::kept(s, test);
        assert forall|i: int, j: int| 0 <= i < j < all.len() implies !store_queries::place_order()(
            #[trigger] all[j],
            #[trigger] all[i],
        ) by {
            if j < k.len() {
                assert(all[i] == k[i] && all[j] == k[j]);
            } else {
                assert(all[i] == k[i] && all[j] == s[s.len() - 1]);
                assert(d.contains(k[i]));
                let m = choose|m: int| 0 <= m < d.len() && d[m] == k[i];
                assert(s[m] == k[i]);
            }
        }
    }
}

/// The candidates are functions that nothing calls and for which nothing speaks,
/// in the order of file and line. No limit is exceeded, and a smaller one gives
/// the front of what a larger one gives.
pub proof fn law_candidates_are_a_front(
    s: StoreModel,
    refs: Seq<RefModel>,
    small: nat,
    large: nat,
)
    requires
        small <= large,
    ensures
        candidates_of(s, refs, small).len() <= small,
        candidates_of(s, refs, small) == rows::limited(candidates_of(s, refs, large), small),
        forall|i: int|
            0 <= i < candidates_of(s, refs, large).len() ==> exists|n: NodeModel| #[trigger]
                s.nodes.contains(n) && uncalled(s)(n) && is_candidate(s, refs)(n) && lean_of(n)
                    == #[trigger] candidates_of(s, refs, large)[i],
        forall|i: int, j: int|
            0 <= i < j < candidates_of(s, refs, large).len() ==> !comes_before(
                #[trigger] candidates_of(s, refs, large)[j],
                #[trigger] candidates_of(s, refs, large)[i],
            ),
{
    broadcast use vstd::seq_lib::group_to_multiset_ensures;

    assert(candidates_of(s, refs, small) =~= rows::limited(candidates_of(s, refs, large), small));
    let free = rows::kept(s.nodes, uncalled(s));
    let all = uncalled_nodes(s);
    let found = rows::kept(all, is_candidate(s, refs));
    let out = candidates_of(s, refs, large);
    lemma_place_order();
    order::law_arranged(free, store_queries::place_order());
    lemma_kept_arranged(all, is_candidate(s, refs));
    rows::lemma_kept(all, is_candidate(s, refs));
    rows::lemma_kept(s.nodes, uncalled(s));
    assert forall|i: int| 0 <= i < out.len() implies exists|n: NodeModel| #[trigger]
        s.nodes.contains(n) && uncalled(s)(n) && is_candidate(s, refs)(n) && lean_of(n)
            == #[trigger] out[i] by {
        let n = found[i];
        assert(out[i] == lean_of(n));
        assert(all.contains(n));
        assert(all.to_multiset().count(n) > 0);
        assert(free.to_multiset().count(n) > 0);
        assert(free.contains(n));
        assert(s.nodes.contains(n));
    }
    assert forall|i: int, j: int| 0 <= i < j < out.len() implies !comes_before(
        #[trigger] out[j],
        #[trigger] out[i],
    ) by {
        assert(out[i] == lean_of(found[i]) && out[j] == lean_of(found[j]));
        assert(!store_queries::place_order()(found[j], found[i]));
    }
}

/// Whether a function comes before another by file and line.
pub open spec fn comes_before(a: LeanModel, b: LeanModel) -> bool {
    if a.file != b.file {
        text::text_less(a.file, b.file)
    } else {
        a.line < b.line
    }
}

/// What an answer about dead code says of itself: it never is more than a lower
/// bound.
pub open spec fn dead_code_evidence() -> EvidenceModel {
    EvidenceModel::LowerBound(
        "static view — dynamic dispatch, exports and reflection are invisible"@,
    )
}

fn dead_code_meta(store: &Store) -> (r: AnswerMetadata)
    ensures
        r@ == answers::metadata_of(store@, dead_code_evidence()),
{
    answers::metadata_for(
        store,
        EvidenceQuality::LowerBound {
            reason: "static view — dynamic dispatch, exports and reflection are invisible".to_owned(),
        },
    )
}

impl Store {
    /// See [`uncalled_nodes`].
    pub fn dead_code_batch(&self) -> (r: Vec<Node>)
        ensures
            types::node_views(r@) == uncalled_nodes(self@),
    {
        let test = |n: &Node| -> (t: bool)
            ensures
                t == uncalled(self@)(n@),
        {
            (n.label == NodeLabel::Function || n.label == NodeLabel::Method)
                && !words::is_test_path(n.file_path.as_str()) && !self.is_called(n.name.as_str())
                && !self.is_edge_target(n.id.as_str())
        };
        let found = rows::select(&self.nodes, Ghost(uncalled(self@)), test);
        store_queries::arrange_by_place(found)
    }

    /// Whether a call edge leads to a node.
    fn is_edge_target(&self, id: &str) -> (r: bool)
        ensures
            r == rows::any(self@.edges, store_queries::calls_to(id@)),
    {
        let test = |e: &Edge| -> (t: bool)
            ensures
                t == store_queries::calls_to(id@)(e@),
        { e.relation == types::EdgeRelation::Calls && text::same(e.dst.as_str(), id) };
        rows::exists_row(&self.edges, Ghost(store_queries::calls_to(id@)), test)
    }
}

/// The answers about dead code.
pub struct DeadCodeService;

impl DeadCodeService {
    /// What is known of the first `limit` functions that nothing calls.
    pub fn assess(store: &Store, references: &Vec<RefRow>, limit: usize) -> (r: GraphAnswer<
        Vec<DeadCodeAssessment>,
    >)
        requires
            references@.len() < usize::MAX,
        ensures
            r.meta@ == answers::metadata_of(store@, dead_code_evidence()),
            rows::seen(r.data@) == rows::limited(uncalled_nodes(store@), limit as nat).map_values(
                assessment_of(store@, rows::seen(references@)),
            ),
    {
        let all = store.dead_code_batch();
        let nodes = rows::limit(all, limit);
        let make = |n: &Node| -> (a: DeadCodeAssessment)
            ensures
                a@ == assessment_of(store@, rows::seen(references@))(n@),
        {
            let handler = store.handles_route(n.name.as_str());
            Self::classify(n, references, handler)
        };
        let data = rows::made(
            &nodes,
            Ghost(assessment_of(store@, rows::seen(references@))),
            make,
        );
        GraphAnswer { meta: dead_code_meta(store), data }
    }

    /// The first `limit` functions for which nothing speaks. What is known of
    /// the others takes no place in the list.
    pub fn candidates(store: &Store, references: &Vec<RefRow>, limit: usize) -> (r: GraphAnswer<
        Vec<LeanSym>,
    >)
        requires
            references@.len() < usize::MAX,
        ensures
            r.meta@ == answers::metadata_of(store@, dead_code_evidence()),
            rows::seen(r.data@) == candidates_of(store@, rows::seen(references@), limit as nat),
    {
        let all = store.dead_code_batch();
        let test = |n: &Node| -> (t: bool)
            ensures
                t == is_candidate(store@, rows::seen(references@))(n@),
        {
            let handler = store.handles_route(n.name.as_str());
            match Self::classify(n, references, handler) {
                DeadCodeAssessment::Candidate { node: _ } => true,
                _ => false,
            }
        };
        let found = rows::select(
            &all,
            Ghost(is_candidate(store@, rows::seen(references@))),
            test,
        );
        let nodes = rows::limit(found, limit);
        let make = |n: &Node| -> (a: LeanSym)
            ensures
                a@ == lean_of(n@),
        { lean(n) };
        let data = rows::made(&nodes, Ghost(|n: NodeModel| lean_of(n)), make);
        GraphAnswer { meta: dead_code_meta(store), data }
    }

    /// What is known of a function that nothing calls; see [`assessed`]. The number
    /// of mentions leaves room for one more.
    pub fn classify(n: &Node, references: &Vec<RefRow>, handler: bool) -> (r: DeadCodeAssessment)
        requires
            references@.len() < usize::MAX,
        ensures
            r@ == assessed(n@, rows::seen(references@), handler),
    {
        let node = lean(n);
        if store_queries::entry_name(n.name.as_str()) {
            return DeadCodeAssessment::Excluded {
                node,
                context: "entrypoint naming convention (main/init/new/setup/run/constructor)".to_owned(),
            };
        }
        let own = leaf_name(n.name.as_str());
        let test = |r: &RefRow| -> (t: bool)
            ensures
                t == speaks_for(n@)(r@),
        {
            let surface = r.kind == ReferenceKind::FfiExport || r.kind == ReferenceKind::PublicExport
                || r.kind == ReferenceKind::FrameworkRegistration;
            text::same(r.name.as_str(), own.as_str()) && (!surface || text::same(
                r.file_path.as_str(),
                n.file_path.as_str(),
            ))
        };
        let found = rows::select(references, Ghost(speaks_for(n@)), test);
        proof {
            rows::lemma_kept(rows::seen(references@), speaks_for(n@));
            assert(rows::seen(found@).len() == found@.len());
            assert(rows::seen(references@).len() == references@.len());
        }
        let mut kinds = list_kinds(&found);
        let mut sites: usize = found.len();
        if handler && !has_kind(&kinds, ReferenceKind::FrameworkRegistration) {
            kinds.push(ReferenceKind::FrameworkRegistration);
            sites += 1;
        }
        if kinds.len() == 0 {
            DeadCodeAssessment::Candidate { node }
        } else if only_kind(&kinds, ReferenceKind::UnknownIndirect) {
            let n = text::to_decimal(sites as u64);
            DeadCodeAssessment::Unknown {
                node,
                reason: "referenced only in positions static analysis cannot classify (".to_owned()
                    .concat(n.as_str()).concat(" site(s))"),
            }
        } else if only_kind(&kinds, ReferenceKind::PublicExport) {
            DeadCodeAssessment::Unknown {
                node,
                reason:
                    "public export with no in-repo references — external callers are invisible".to_owned(),
            }
        } else {
            DeadCodeAssessment::IndirectlyReferenced { node, kinds, sites }
        }
    }
}

/// A function is a candidate exactly where its name is no entry point's, it
/// handles no route, and no mention speaks for it.
pub proof fn law_candidate_has_no_evidence(n: NodeModel, refs: Seq<RefModel>, handler: bool)
    ensures
        (assessed(n, refs, handler) is Candidate) <==> (!store_queries::is_entry_name(n.name)
            && !handler && rows::kept(refs, speaks_for(n)).len() == 0),
{
    let found = rows::kept(refs, speaks_for(n));
    let kinds = found.map_values(|r: RefModel| r.kind);
    rows::lemma_distinct(kinds);
    if found.len() > 0 {
        assert(kinds.contains(kinds[0]));
        assert(rows::distinct(kinds).contains(kinds[0]));
    } else {
        assert(kinds =~= Seq::empty());
    }
}

/// What a function of the same name in another file exports says nothing of
/// this one.
pub proof fn law_twin_lends_no_surface(
    n: NodeModel,
    refs: Seq<RefModel>,
    r: RefModel,
    handler: bool,
)
    requires
        is_surface(r.kind),
        r.file_path != n.file_path,
    ensures
        assessed(n, refs.push(r), handler) == assessed(n, refs, handler),
{
    rows::lemma_kept_push(refs, r, speaks_for(n));
}

} // verus!
