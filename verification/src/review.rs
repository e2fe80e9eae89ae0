//! The review of a diff: the symbols that it touches, the symbols that it
//! takes away, and the files of which the graph knows nothing.

use vstd::prelude::*;
use vstd::string::*;

use crate::answers;
use crate::answers::{EvidenceModel, EvidenceQuality, GraphAnswer};
use crate::changes;
use crate::changes::{ChangeKind, ChangeModel, ChangedPath};
use crate::listing;
use crate::order;
use crate::parse;
use crate::rows;
use crate::rows::Row;
use crate::scan;
use crate::store;
use crate::store::{Store, StoreModel};
use crate::store_lists;
use crate::store_queries;
use crate::tables::{CallRow, CallRowModel, CoChange, CoChangeModel, ManifestEntry};
use crate::text;
use crate::types;
use crate::types::{Edge, EdgeModel, EdgeRelation, Node, NodeLabel, NodeModel};
use crate::words;

verus! {

/// What shows that a symbol is tested.
#[derive(Debug, Clone, Copy, PartialEq, Eq, Structural)]
pub enum TestEvidence {
    /// A resolved edge from a test.
    Resolved,
    /// A call site in a test file that has the name.
    Textual,
    /// Nothing.
    Absent,
}

/// What is known of a symbol that a diff touches.
#[derive(Debug, PartialEq, Eq)]
pub struct ReviewRow {
    pub id: String,
    pub name: String,
    pub file: String,
    pub line: u32,
    /// The resolved calls of this very symbol.
    pub fan_in_resolved: usize,
    /// The call sites that have its name.
    pub textual_sites: usize,
    pub complexity: u64,
    pub tested: TestEvidence,
}

/// The model of a [`ReviewRow`].
pub struct RowModel {
    pub id: Seq<char>,
    pub name: Seq<char>,
    pub file: Seq<char>,
    pub line: u32,
    pub fan_in_resolved: nat,
    pub textual_sites: nat,
    pub complexity: u64,
    pub tested: TestEvidence,
}

impl View for ReviewRow {
    type V = RowModel;

    open spec fn view(&self) -> RowModel {
        RowModel {
            id: self.id@,
            name: self.name@,
            file: self.file@,
            line: self.line,
            fan_in_resolved: self.fan_in_resolved as nat,
            textual_sites: self.textual_sites as nat,
            complexity: self.complexity,
            tested: self.tested,
        }
    }
}

impl Row for ReviewRow {
    fn copy(&self) -> (r: ReviewRow) {
        ReviewRow {
            id: self.id.clone(),
            name: self.name.clone(),
            file: self.file.clone(),
            line: self.line,
            fan_in_resolved: self.fan_in_resolved,
            textual_sites: self.textual_sites,
            complexity: self.complexity,
            tested: self.tested,
        }
    }
}

/// The edges from tests to a node.
pub open spec fn tests_of(id: Seq<char>) -> spec_fn(EdgeModel) -> bool {
    |e: EdgeModel| e.relation == EdgeRelation::Tests && e.dst == id
}

/// The call sites in test files that have a name.
pub open spec fn test_calls(name: Seq<char>) -> spec_fn(CallRowModel) -> bool {
    |c: CallRowModel| c.call.callee_name == name && words::test_path(c.file_path)
}

/// What shows that a node is tested. What has only its name is never more than
/// a mention: it may mean another node.
pub open spec fn test_evidence(s: StoreModel, id: Seq<char>, name: Seq<char>) -> TestEvidence {
    if rows::any(s.edges, tests_of(id)) {
        TestEvidence::Resolved
    } else if rows::any(s.calls, test_calls(name)) {
        TestEvidence::Textual
    } else {
        TestEvidence::Absent
    }
}

/// What is known of a symbol. All but the mentions goes by its id, so that
/// symbols of one name do not share it.
pub open spec fn row_of(s: StoreModel) -> spec_fn(NodeModel) -> RowModel {
    |n: NodeModel|
        RowModel {
            id: n.id,
            name: n.name,
            file: n.file_path,
            line: n.line_start,
            fan_in_resolved: rows::kept(s.edges, store_queries::calls_to(n.id)).len(),
            textual_sites: rows::kept(s.calls, store_queries::calls_naming(n.name)).len(),
            complexity: match types::meta_count(n.metadata, "complexity"@) {
                Some(c) => c,
                None => 1,
            },
            tested: test_evidence(s, n.id, n.name),
        }
}

impl Store {
    /// How many resolved calls lead to a node.
    pub fn fan_in_of_id(&self, id: &str) -> (r: usize)
        ensures
            r == rows::kept(self@.edges, store_queries::calls_to(id@)).len(),
    {
        let test = |e: &Edge| -> (t: bool)
            ensures
                t == store_queries::calls_to(id@)(e@),
        { e.relation == EdgeRelation::Calls && text::same(e.dst.as_str(), id) };
        rows::count(&self.edges, Ghost(store_queries::calls_to(id@)), test)
    }

    /// See [`test_evidence`].
    pub fn test_evidence_of_id(&self, id: &str, name: &str) -> (r: TestEvidence)
        ensures
            r == test_evidence(self@, id@, name@),
    {
        let by_edge = |e: &Edge| -> (t: bool)
            ensures
                t == tests_of(id@)(e@),
        { e.relation == EdgeRelation::Tests && text::same(e.dst.as_str(), id) };
        if rows::exists_row(&self.edges, Ghost(tests_of(id@)), by_edge) {
            return TestEvidence::Resolved;
        }
        let by_call = |c: &CallRow| -> (t: bool)
            ensures
                t == test_calls(name@)(c@),
        {
            text::same(c.call.callee_name.as_str(), name) && words::is_test_path(
                c.file_path.as_str(),
            )
        };
        if rows::exists_row(&self.calls, Ghost(test_calls(name@)), by_call) {
            TestEvidence::Textual
        } else {
            TestEvidence::Absent
        }
    }
}

/// What the graph knows of a file.
#[derive(Debug, Clone, Copy, PartialEq, Eq, Structural)]
pub enum FileGraphCoverage {
    IndexedWithSymbols,
    IndexedWithoutSymbols,
    NotIndexed,
    Deleted,
    Unsupported,
}

/// Whether a path is one of a source file.
pub open spec fn is_code(path: Seq<char>) -> bool {
    listing::kind_of(path, true, 0) == Some(false)
}

/// See [`is_code`].
pub fn is_code_file(path: &str) -> (r: bool)
    ensures
        r == is_code(path@),
{
    match listing::classify(path, true, 0) {
        Some(document) => !document,
        None => false,
    }
}

/// What the graph knows of a changed file: by its own tables, never by what is
/// on disk.
pub open spec fn coverage_of_file(s: StoreModel, path: Seq<char>, deleted: bool) -> FileGraphCoverage {
    if deleted {
        FileGraphCoverage::Deleted
    } else if !is_code(path) {
        FileGraphCoverage::Unsupported
    } else if rows::any(s.nodes, store_queries::symbol_in(path)) {
        FileGraphCoverage::IndexedWithSymbols
    } else if rows::any(s.manifest, store::manifest_is(path)) {
        FileGraphCoverage::IndexedWithoutSymbols
    } else {
        FileGraphCoverage::NotIndexed
    }
}

impl Store {
    /// See [`coverage_of_file`].
    pub fn file_graph_coverage(&self, path: &str, deleted: bool) -> (r: FileGraphCoverage)
        ensures
            r == coverage_of_file(self@, path@, deleted),
    {
        if deleted {
            return FileGraphCoverage::Deleted;
        }
        if !is_code_file(path) {
            return FileGraphCoverage::Unsupported;
        }
        let symbol = |n: &Node| -> (t: bool)
            ensures
                t == store_queries::symbol_in(path@)(n@),
        { text::same(n.file_path.as_str(), path) && store_queries::type_like(n) };
        if rows::exists_row(&self.nodes, Ghost(store_queries::symbol_in(path@)), symbol) {
            return FileGraphCoverage::IndexedWithSymbols;
        }
        let entry = |m: &ManifestEntry| -> (t: bool)
            ensures
                t == store::manifest_is(path@)(m@),
        { text::same(m.file_path.as_str(), path) };
        if rows::exists_row(&self.manifest, Ghost(store::manifest_is(path@)), entry) {
            FileGraphCoverage::IndexedWithoutSymbols
        } else {
            FileGraphCoverage::NotIndexed
        }
    }
}

/// How a symbol of the base side was lost.
#[derive(Debug, Clone, Copy, PartialEq, Eq, Structural)]
pub enum BaseDisposition {
    /// The whole file was deleted.
    FileDeleted,
    /// The file is still there, and the symbol is not.
    RemovedFromFile,
    /// The file has another name, and the symbol is not in it.
    LostInRename,
}

/// A symbol that only the base side has.
#[derive(Debug, PartialEq, Eq)]
pub struct BaseOnlySymbol {
    pub name: String,
    pub kind: NodeLabel,
    /// The path on the base side.
    pub file: String,
    pub line: u32,
    pub disposition: BaseDisposition,
    pub evidence: EvidenceQuality,
}

/// The model of a [`BaseOnlySymbol`].
pub struct BaseModel {
    pub name: Seq<char>,
    pub kind: NodeLabel,
    pub file: Seq<char>,
    pub line: u32,
    pub disposition: BaseDisposition,
    pub evidence: EvidenceModel,
}

impl View for BaseOnlySymbol {
    type V = BaseModel;

    open spec fn view(&self) -> BaseModel {
        BaseModel {
            name: self.name@,
            kind: self.kind,
            file: self.file@,
            line: self.line,
            disposition: self.disposition,
            evidence: self.evidence@,
        }
    }
}

/// A symbol of the base side. The graph holds no evidence for what is no longer
/// in it.
pub open spec fn base_symbol(file: Seq<char>, disposition: BaseDisposition) -> spec_fn(
    NodeModel,
) -> BaseModel {
    |n: NodeModel|
        BaseModel {
            name: n.name,
            kind: n.label,
            file,
            line: n.line_start,
            disposition,
            evidence: EvidenceModel::Unavailable(
                "base-side symbol — fan-in/test evidence not reconstructible from the current graph"@,
            ),
        }
}

/// The symbols among nodes.
pub open spec fn symbols() -> spec_fn(NodeModel) -> bool {
    |n: NodeModel| store_queries::is_type_like(n)
}

/// The symbols of a source text.
pub open spec fn source_symbols(project: Seq<char>, path: Seq<char>, source: Seq<char>) -> Seq<
    NodeModel,
> {
    rows::kept(scan::source_model(project, path, source).nodes, symbols())
}

/// See [`source_symbols`].
fn read_symbols(project: &str, path: &str, source: &str) -> (r: Vec<Node>)
    ensures
        types::node_views(r@) == source_symbols(project@, path@, source@),
{
    let parsed = parse::parse_file(project, path, source);
    let test = |n: &Node| -> (t: bool)
        ensures
            t == symbols()(n@),
    { store_queries::type_like(n) };
    assert(parsed.model() == scan::source_model(project@, path@, source@));
    rows::select(&parsed.nodes, Ghost(symbols()), test)
}

/// A change with the two sides of its file: what was read, or why it was not.
pub struct ChangeFacts {
    pub change: ChangedPath,
    pub current: Result<String, String>,
    pub base: Result<String, String>,
}

/// The model of a [`ChangeFacts`].
pub struct FactsModel {
    pub change: ChangeModel,
    pub current: Result<Seq<char>, Seq<char>>,
    pub base: Result<Seq<char>, Seq<char>>,
}

impl View for ChangeFacts {
    type V = FactsModel;

    open spec fn view(&self) -> FactsModel {
        FactsModel {
            change: self.change@,
            current: text::text_result(self.current),
            base: text::text_result(self.base),
        }
    }
}

/// The path whose content on the base side a change is held against.
pub open spec fn base_path(c: ChangeModel) -> Seq<char> {
    match c.old_path {
        Some(p) => p,
        None => c.path,
    }
}

/// What the review of one change gives.
pub struct PartModel {
    pub rows: Seq<RowModel>,
    pub base_only: Seq<BaseModel>,
    pub unknown: Seq<Seq<char>>,
}

/// What the review of one change gives.
pub struct ReviewPart {
    pub rows: Vec<ReviewRow>,
    pub base_only: Vec<BaseOnlySymbol>,
    pub unknown: Vec<String>,
}

impl View for ReviewPart {
    type V = PartModel;

    open spec fn view(&self) -> PartModel {
        PartModel {
            rows: rows::seen(self.rows@),
            base_only: rows::seen(self.base_only@),
            unknown: text::views(self.unknown@),
        }
    }
}

/// A text with a remark in brackets behind it.
pub open spec fn remarked(path: Seq<char>, remark: Seq<char>, e: Seq<char>) -> Seq<char> {
    path + " ("@ + remark + e + ")"@
}

fn remark(path: &str, what: &str, e: &str) -> (r: String)
    ensures
        r@ == remarked(path@, what@, e@),
{
    path.to_owned().concat(" (").concat(what).concat(e).concat(")")
}

/// The symbols of a file in the order of lines.
pub open spec fn file_symbols(s: StoreModel, path: Seq<char>) -> Seq<NodeModel> {
    order::arranged(
        rows::kept(s.nodes, store_queries::symbol_in(path)),
        store_queries::line_order(),
    )
}

/// What is said of a file that the graph has no symbols of. It is unknown where
/// the graph never saw it, where its symbols are missing from the graph, or
/// where that cannot be told.
pub open spec fn unseen(s: StoreModel, f: FactsModel) -> Seq<Seq<char>> {
    let path = f.change.path;
    match coverage_of_file(s, path, false) {
        FileGraphCoverage::NotIndexed => seq![
            remarked(path, "not indexed — no graph coverage"@, ""@),
        ],
        FileGraphCoverage::IndexedWithoutSymbols => match f.current {
            Ok(source) => if source_symbols("review"@, path, source).len() > 0 {
                seq![
                    remarked(
                        path,
                        "indexed without symbols but the parser finds some — graph coverage is incomplete"@,
                        ""@,
                    ),
                ]
            } else {
                Seq::empty()
            },
            Err(e) => seq![remarked(path, "unreadable for verification: "@, e)],
        },
        _ => Seq::empty(),
    }
}

/// The names that a file has now: those in the graph, and those in its text.
pub open spec fn present_names(s: StoreModel, path: Seq<char>, source: Seq<char>) -> Seq<
    Seq<char>,
> {
    file_symbols(s, path).map_values(|n: NodeModel| n.name) + source_symbols(
        "review"@,
        path,
        source,
    ).map_values(|n: NodeModel| n.name)
}

/// The symbols whose name is not among those given.
pub open spec fn gone_from(names: Seq<Seq<char>>) -> spec_fn(NodeModel) -> bool {
    |n: NodeModel| !names.contains(n.name)
}

/// How a symbol is lost that a change of this kind took away.
pub open spec fn disposition_of(kind: ChangeKind) -> BaseDisposition {
    if kind == ChangeKind::Deleted {
        BaseDisposition::FileDeleted
    } else if kind == ChangeKind::Renamed || kind == ChangeKind::Copied {
        BaseDisposition::LostInRename
    } else {
        BaseDisposition::RemovedFromFile
    }
}

/// The symbols that a change took away, and what could not be told. A deleted
/// source file loses all of its symbols. Any other is held against its base
/// side; a new file has none.
pub open spec fn taken_away(s: StoreModel, f: FactsModel) -> (Seq<BaseModel>, Seq<Seq<char>>) {
    let c = f.change;
    let before = base_path(c);
    let make = base_symbol(
        if c.kind == ChangeKind::Deleted {
            c.path
        } else {
            before
        },
        disposition_of(c.kind),
    );
    if c.kind == ChangeKind::Deleted {
        if !is_code(c.path) {
            (Seq::empty(), Seq::empty())
        } else {
            match f.base {
                Ok(b) => (source_symbols("base"@, c.path, b).map_values(make), Seq::empty()),
                Err(e) => (Seq::empty(), seq![remarked(c.path, "base source unavailable: "@, e)]),
            }
        }
    } else if !is_code(before) || c.kind == ChangeKind::Added {
        (Seq::empty(), Seq::empty())
    } else {
        match f.current {
            Err(e) => (
                Seq::empty(),
                seq![remarked(c.path, "unreadable for base comparison: "@, e)],
            ),
            Ok(source) => match f.base {
                Ok(b) => (
                    rows::kept(
                        source_symbols("base"@, before, b),
                        gone_from(present_names(s, c.path, source)),
                    ).map_values(make),
                    Seq::empty(),
                ),
                Err(e) => (Seq::empty(), seq![remarked(before, "base source unavailable: "@, e)]),
            },
        }
    }
}

/// The review of one change.
pub open spec fn part_of(s: StoreModel, f: FactsModel) -> PartModel {
    let (base_only, unknown) = taken_away(s, f);
    if f.change.kind == ChangeKind::Deleted {
        PartModel { rows: Seq::empty(), base_only, unknown }
    } else {
        PartModel {
            rows: file_symbols(s, f.change.path).map_values(row_of(s)),
            base_only,
            unknown: unseen(s, f) + unknown,
        }
    }
}

fn make_base(nodes: &Vec<Node>, file: &str, disposition: BaseDisposition) -> (r: Vec<
    BaseOnlySymbol,
>)
    ensures
        rows::seen(r@) == types::node_views(nodes@).map_values(base_symbol(file@, disposition)),
{
    let make = |n: &Node| -> (b: BaseOnlySymbol)
        ensures
            b@ == base_symbol(file@, disposition)(n@),
    {
        BaseOnlySymbol {
            name: n.name.clone(),
            kind: n.label,
            file: file.to_owned(),
            line: n.line_start,
            disposition,
            evidence: EvidenceQuality::Unavailable {
                reason:
                    "base-side symbol — fan-in/test evidence not reconstructible from the current graph".to_owned(),
            },
        }
    };
    rows::made(nodes, Ghost(base_symbol(file@, disposition)), make)
}

fn one(s: String) -> (r: Vec<String>)
    ensures
        text::views(r@) == seq![s@],
{
    let mut v: Vec<String> = Vec::new();
    v.push(s);
    assert(text::views(v@) =~= seq![s@]);
    v
}

fn none() -> (r: Vec<String>)
    ensures
        text::views(r@) == Seq::<Seq<char>>::empty(),
{
    let v: Vec<String> = Vec::new();
    assert(text::views(v@) =~= Seq::empty());
    v
}

fn no_symbols() -> (r: Vec<BaseOnlySymbol>)
    ensures
        rows::seen(r@) == Seq::<BaseModel>::empty(),
{
    let v: Vec<BaseOnlySymbol> = Vec::new();
    assert(rows::seen(v@) =~= Seq::empty());
    v
}

/// See [`unseen`].
fn find_unseen(store: &Store, f: &ChangeFacts) -> (r: Vec<String>)
    ensures
        text::views(r@) == unseen(store@, f@),
{
    let path = f.change.path.as_str();
    match store.file_graph_coverage(path, false) {
        FileGraphCoverage::NotIndexed => one(remark(path, "not indexed — no graph coverage", "")),
        FileGraphCoverage::IndexedWithoutSymbols => match &f.current {
            Ok(source) => {
                let fresh = read_symbols("review", path, source.as_str());
                assert(types::node_views(fresh@).len() == fresh@.len());
                if fresh.len() > 0 {
                    one(
                        remark(
                            path,
                            "indexed without symbols but the parser finds some — graph coverage is incomplete",
                            "",
                        ),
                    )
                } else {
                    none()
                }
            },
            Err(e) => one(remark(path, "unreadable for verification: ", e.as_str())),
        },
        _ => none(),
    }
}

/// See [`present_names`].
fn list_present(store: &Store, path: &str, source: &str) -> (r: Vec<String>)
    ensures
        text::views(r@) == present_names(store@, path@, source@),
{
    let ghost f = |n: NodeModel| n.name;
    let say = |n: &Node| -> (t: String)
        ensures
            t@ == n@.name,
    { n.name.clone() };
    let mut out: Vec<String> = none();
    let known = store.symbols_in_file(path);
    rows::say_all(&mut out, &known, Ghost(f), say);
    let fresh = read_symbols("review", path, source);
    let say = |n: &Node| -> (t: String)
        ensures
            t@ == n@.name,
    { n.name.clone() };
    rows::say_all(&mut out, &fresh, Ghost(f), say);
    assert(text::views(out@) =~= present_names(store@, path@, source@));
    out
}

/// See [`taken_away`].
fn find_taken_away(store: &Store, f: &ChangeFacts) -> (r: (Vec<BaseOnlySymbol>, Vec<String>))
    ensures
        rows::seen(r.0@) == taken_away(store@, f@).0,
        text::views(r.1@) == taken_away(store@, f@).1,
{
    let c = &f.change;
    let path = c.path.as_str();
    let before = match &c.old_path {
        Some(p) => p.as_str(),
        None => path,
    };
    if c.kind == ChangeKind::Deleted {
        if !is_code_file(path) {
            return (no_symbols(), none());
        }
        match &f.base {
            Ok(b) => {
                let lost = read_symbols("base", path, b.as_str());
                (make_base(&lost, path, BaseDisposition::FileDeleted), none())
            },
            Err(e) => (no_symbols(), one(remark(path, "base source unavailable: ", e.as_str()))),
        }
    } else if !is_code_file(before) || c.kind == ChangeKind::Added {
        (no_symbols(), none())
    } else {
        let disposition = if c.kind == ChangeKind::Renamed || c.kind == ChangeKind::Copied {
            BaseDisposition::LostInRename
        } else {
            BaseDisposition::RemovedFromFile
        };
        match &f.current {
            Err(e) => (
                no_symbols(),
                one(remark(path, "unreadable for base comparison: ", e.as_str())),
            ),
            Ok(source) => match &f.base {
                Ok(b) => {
                    let names = list_present(store, path, source.as_str());
                    let ghost known = present_names(store@, path@, source@);
                    let test = |n: &Node| -> (t: bool)
                        ensures
                            t == gone_from(text::views(names@))(n@),
                    { !text::is_listed(&names, n.name.as_str()) };
                    let at_base = read_symbols("base", before, b.as_str());
                    let lost = rows::select(
                        &at_base,
                        Ghost(gone_from(text::views(names@))),
                        test,
                    );
                    assert(text::views(names@) == known);
                    (make_base(&lost, before, disposition), none())
                },
                Err(e) => (
                    no_symbols(),
                    one(remark(before, "base source unavailable: ", e.as_str())),
                ),
            },
        }
    }
}

/// The files that changed most often together with a file.
pub open spec fn partners(s: StoreModel, file: Seq<char>, limit: nat) -> Seq<CoChangeModel> {
    rows::limited(
        order::arranged(
            rows::kept(s.cochanges, store_lists::pair_with(file)).map_values(
                store_lists::partner(file),
            ),
            store_lists::cochange_order(),
        ),
        limit,
    )
}

/// The pairs that count as a hint: often enough, and outside the diff.
pub open spec fn is_hint(changed: Seq<Seq<char>>) -> spec_fn(CoChangeModel) -> bool {
    |c: CoChangeModel| c.n >= 3 && !changed.contains(c.file_b)
}

/// The pairs that count as hints for the first `k` files of a diff.
pub open spec fn hint_pairs(s: StoreModel, changed: Seq<Seq<char>>, k: nat) -> Seq<CoChangeModel>
    decreases k,
{
    if k == 0 {
        Seq::empty()
    } else {
        hint_pairs(s, changed, (k - 1) as nat) + rows::kept(
            partners(s, changed[k - 1], 5),
            is_hint(changed),
        )
    }
}

/// How often a file changed together with its closest partner.
pub open spec fn most(pairs: Seq<CoChangeModel>, file: Seq<char>) -> u32
    decreases pairs.len(),
{
    if pairs.len() == 0 {
        0
    } else {
        let rest = most(pairs.drop_last(), file);
        if pairs.last().file_b == file && pairs.last().n > rest {
            pairs.last().n
        } else {
            rest
        }
    }
}

/// The files that usually change with a diff and are not in it, by name, each
/// with how often.
pub open spec fn hints_for(s: StoreModel, changed: Seq<Seq<char>>) -> Seq<(Seq<char>, u32)> {
    let pairs = hint_pairs(s, changed, changed.len());
    order::arranged(
        rows::distinct(pairs.map_values(|c: CoChangeModel| c.file_b)),
        order::text_order(),
    ).map_values(|f: Seq<char>| (f, most(pairs, f)))
}

/// What hints hold.
pub open spec fn hint_views(v: Seq<(String, u32)>) -> Seq<(Seq<char>, u32)> {
    v.map_values(|h: (String, u32)| (h.0@, h.1))
}

/// See [`most`].
fn find_most(pairs: &Vec<CoChange>, file: &str) -> (r: u32)
    ensures
        r == most(rows::seen(pairs@), file@),
{
    let ghost all = rows::seen(pairs@);
    let mut best: u32 = 0;
    let mut i: usize = 0;
    while i < pairs.len()
        invariant
            i <= pairs.len(),
            all == rows::seen(pairs@),
            best == most(all.take(i as int), file@),
        decreases pairs.len() - i,
    {
        assert(all.take(i + 1).drop_last() =~= all.take(i as int));
        assert(all.take(i + 1).last() == pairs@[i as int]@);
        if text::same(pairs[i].file_b.as_str(), file) && pairs[i].n > best {
            best = pairs[i].n;
        }
        i += 1;
    }
    assert(all.take(pairs@.len() as int) =~= all);
    best
}

impl Store {
    /// See [`hints_for`].
    pub fn co_change_hints(&self, changed: &Vec<String>) -> (r: Vec<(String, u32)>)
        ensures
            hint_views(r@) == hints_for(self@, text::views(changed@)),
    {
        let ghost files = text::views(changed@);
        let mut pairs: Vec<CoChange> = Vec::new();
        let mut i: usize = 0;
        assert(rows::seen(pairs@) =~= hint_pairs(self@, files, 0));
        while i < changed.len()
            invariant
                i <= changed.len(),
                files == text::views(changed@),
                rows::seen(pairs@) == hint_pairs(self@, files, i as nat),
            decreases changed.len() - i,
        {
            let found = self.cochanges_for(changed[i].as_str(), 5);
            assert(rows::seen(found@) == partners(self@, files[i as int], 5));
            let test = |c: &CoChange| -> (t: bool)
                ensures
                    t == is_hint(text::views(changed@))(c@),
            { c.n >= 3 && !text::is_listed(changed, c.file_b.as_str()) };
            let mut strong = rows::select(
                &found,
                Ghost(is_hint(text::views(changed@))),
                test,
            );
            let ghost was = pairs@;
            let ghost more = strong@;
            pairs.append(&mut strong);
            assert(rows::seen(pairs@) =~= rows::seen(was) + rows::seen(more));
            i += 1;
        }
        let ghost all = rows::seen(pairs@);
        let get = |c: &CoChange| -> (t: String)
            ensures
                t@ == c@.file_b,
        { c.file_b.clone() };
        let others = rows::distinct_texts(&pairs, Ghost(|c: CoChangeModel| c.file_b), get);
        let others = order::arrange_texts(others);
        let ghost sorted = text::views(others@);
        let mut out: Vec<(String, u32)> = Vec::new();
        let mut k: usize = 0;
        while k < others.len()
            invariant
                k <= others.len(),
                sorted == text::views(others@),
                all == rows::seen(pairs@),
                hint_views(out@) == sorted.take(k as int).map_values(
                    |f: Seq<char>| (f, most(all, f)),
                ),
            decreases others.len() - k,
        {
            let n: u32 = find_most(&pairs, others[k].as_str());
            let ghost was = hint_views(out@);
            out.push((others[k].clone(), n));
            assert(sorted[k as int] == others@[k as int]@);
            assert(hint_views(out@) =~= was.push((sorted[k as int], n)));
            assert(sorted.take(k + 1).map_values(|f: Seq<char>| (f, most(all, f))) =~= was.push(
                (sorted[k as int], n),
            ));
            k += 1;
        }
        assert(sorted.take(sorted.len() as int) =~= sorted);
        out
    }
}

/// The review of a diff.
pub struct Review {
    pub base: String,
    pub changed_files: Vec<String>,
    /// What is known of the symbols that the diff touches.
    pub rows: Vec<ReviewRow>,
    /// The symbols that only the base side has.
    pub base_only: Vec<BaseOnlySymbol>,
    /// The files of which the graph knows nothing, with the reason.
    pub unknown_files: Vec<String>,
    pub co_change_hints: Vec<(String, u32)>,
}

/// The model of a [`Review`].
pub struct ReviewModel {
    pub base: Seq<char>,
    pub changed_files: Seq<Seq<char>>,
    pub rows: Seq<RowModel>,
    pub base_only: Seq<BaseModel>,
    pub unknown_files: Seq<Seq<char>>,
    pub co_change_hints: Seq<(Seq<char>, u32)>,
}

impl View for Review {
    type V = ReviewModel;

    open spec fn view(&self) -> ReviewModel {
        ReviewModel {
            base: self.base@,
            changed_files: text::views(self.changed_files@),
            rows: rows::seen(self.rows@),
            base_only: rows::seen(self.base_only@),
            unknown_files: text::views(self.unknown_files@),
            co_change_hints: hint_views(self.co_change_hints@),
        }
    }
}

/// What the first `k` changes give, one after the other.
pub open spec fn parts_of(s: StoreModel, facts: Seq<FactsModel>, k: nat) -> PartModel
    decreases k,
{
    if k == 0 {
        PartModel { rows: Seq::empty(), base_only: Seq::empty(), unknown: Seq::empty() }
    } else {
        let rest = parts_of(s, facts, (k - 1) as nat);
        let part = part_of(s, facts[k - 1]);
        PartModel {
            rows: rest.rows + part.rows,
            base_only: rest.base_only + part.base_only,
            unknown: rest.unknown + part.unknown,
        }
    }
}

/// The review of a diff against `base`.
pub open spec fn review_of(s: StoreModel, base: Seq<char>, facts: Seq<FactsModel>) -> ReviewModel {
    let parts = parts_of(s, facts, facts.len());
    let changed = facts.map_values(|f: FactsModel| f.change.path);
    ReviewModel {
        base,
        changed_files: changed,
        rows: parts.rows,
        base_only: parts.base_only,
        unknown_files: parts.unknown,
        co_change_hints: hints_for(s, changed),
    }
}

/// How far the evidence of a review reaches: less than all of the diff where
/// the graph knows nothing of a file.
pub open spec fn review_evidence(unknown: nat) -> EvidenceModel {
    if unknown == 0 {
        EvidenceModel::Exact
    } else {
        EvidenceModel::LowerBound(
            text::decimal(unknown)
                + " changed path(s) have no current-graph view (deleted/renamed source)"@,
        )
    }
}

/// The answers about diffs.
pub struct ReviewService;

impl ReviewService {
    /// See [`row_of`].
    pub fn row_for(store: &Store, sym: &Node) -> (r: ReviewRow)
        ensures
            r@ == row_of(store@)(sym@),
    {
        ReviewRow {
            id: sym.id.clone(),
            name: sym.name.clone(),
            file: sym.file_path.clone(),
            line: sym.line_start,
            fan_in_resolved: store.fan_in_of_id(sym.id.as_str()),
            textual_sites: store.call_site_count(sym.name.as_str()),
            complexity: match sym.metadata.count("complexity") {
                Some(c) => c,
                None => 1,
            },
            tested: store.test_evidence_of_id(sym.id.as_str(), sym.name.as_str()),
        }
    }

    /// See [`part_of`].
    pub fn review_change(store: &Store, f: &ChangeFacts) -> (r: ReviewPart)
        ensures
            r@ == part_of(store@, f@),
    {
        let (base_only, lost) = find_taken_away(store, f);
        if f.change.kind == ChangeKind::Deleted {
            let rows: Vec<ReviewRow> = Vec::new();
            assert(rows::seen(rows@) =~= Seq::empty());
            return ReviewPart { rows, base_only, unknown: lost };
        }
        let mut unknown = find_unseen(store, f);
        let mut lost = lost;
        let ghost a = unknown@;
        let ghost b = lost@;
        unknown.append(&mut lost);
        assert(text::views(unknown@) =~= text::views(a) + text::views(b));
        let syms = store.symbols_in_file(f.change.path.as_str());
        let make = |n: &Node| -> (t: ReviewRow)
            ensures
                t@ == row_of(store@)(n@),
        { Self::row_for(store, n) };
        let rows = rows::made(&syms, Ghost(row_of(store@)), make);
        ReviewPart { rows, base_only, unknown }
    }

    /// The review of a diff against `base`; see [`review_of`].
    pub fn review(store: &Store, base: &str, facts: &Vec<ChangeFacts>) -> (r: GraphAnswer<Review>)
        ensures
            r.data@ == review_of(store@, base@, rows::seen(facts@)),
            r.meta@ == answers::metadata_of(store@, review_evidence(r.data@.unknown_files.len())),
    {
        let ghost all = rows::seen(facts@);
        let mut found: Vec<ReviewRow> = Vec::new();
        let mut base_only: Vec<BaseOnlySymbol> = no_symbols();
        let mut unknown: Vec<String> = none();
        let mut changed: Vec<String> = none();
        let mut i: usize = 0;
        assert(rows::seen(found@) =~= Seq::empty());
        assert(text::views(changed@) =~= all.take(0).map_values(
            |f: FactsModel| f.change.path,
        ));
        while i < facts.len()
            invariant
                i <= facts.len(),
                all == rows::seen(facts@),
                rows::seen(found@) == parts_of(store@, all, i as nat).rows,
                rows::seen(base_only@) == parts_of(store@, all, i as nat).base_only,
                text::views(unknown@) == parts_of(store@, all, i as nat).unknown,
                text::views(changed@) == all.take(i as int).map_values(
                    |f: FactsModel| f.change.path,
                ),
            decreases facts.len() - i,
        {
            let part = Self::review_change(store, &facts[i]);
            assert(all[i as int] == facts@[i as int]@);
            let ghost names = text::views(changed@);
            changed.push(facts[i].change.path.clone());
            assert(text::views(changed@) =~= names.push(all[i as int].change.path));
            assert(all.take(i + 1).map_values(|f: FactsModel| f.change.path) =~= names.push(
                all[i as int].change.path,
            ));
            let mut rows_part = part.rows;
            let mut base_part = part.base_only;
            let mut unknown_part = part.unknown;
            let ghost (a, b, c) = (found@, base_only@, unknown@);
            let ghost (x, y, z) = (rows_part@, base_part@, unknown_part@);
            found.append(&mut rows_part);
            base_only.append(&mut base_part);
            unknown.append(&mut unknown_part);
            assert(rows::seen(found@) =~= rows::seen(a) + rows::seen(x));
            assert(rows::seen(base_only@) =~= rows::seen(b) + rows::seen(y));
            assert(text::views(unknown@) =~= text::views(c) + text::views(z));
            i += 1;
        }
        assert(all.take(all.len() as int) =~= all);
        let hints = store.co_change_hints(&changed);
        let evidence = if unknown.len() == 0 {
            EvidenceQuality::Exact
        } else {
            let n = text::to_decimal(unknown.len() as u64);
            EvidenceQuality::LowerBound {
                reason: n.concat(
                    " changed path(s) have no current-graph view (deleted/renamed source)",
                ),
            }
        };
        assert(text::views(unknown@).len() == unknown@.len());
        let meta = answers::metadata_for(store, evidence);
        GraphAnswer {
            meta,
            data: Review {
                base: base.to_owned(),
                changed_files: changed,
                rows: found,
                base_only,
                unknown_files: unknown,
                co_change_hints: hints,
            },
        }
    }
}

/// How risky a change of a symbol is.
#[derive(Debug, Clone, Copy, PartialEq, Eq, Structural)]
pub enum RiskTier {
    High,
    Med,
    Low,
}

/// The bits of the risk of 6 in double precision. Those of numbers that are not
/// negative are ordered as the numbers are.
pub const HIGH_RISK: u64 = 0x4018_0000_0000_0000;

/// The bits of the risk of 2.5 in double precision.
pub const MEDIUM_RISK: u64 = 0x4004_0000_0000_0000;

/// The tier of a risk, given by the bits of a number in double precision that
/// is not negative.
pub open spec fn tier_of(risk: u64) -> RiskTier {
    if risk >= HIGH_RISK {
        RiskTier::High
    } else if risk >= MEDIUM_RISK {
        RiskTier::Med
    } else {
        RiskTier::Low
    }
}

/// See [`tier_of`].
pub fn risk_tier(risk: u64) -> (r: RiskTier)
    ensures
        r == tier_of(risk),
{
    if risk >= HIGH_RISK {
        RiskTier::High
    } else if risk >= MEDIUM_RISK {
        RiskTier::Med
    } else {
        RiskTier::Low
    }
}

/// A reviewed symbol with the bits of its risk.
#[derive(Debug, PartialEq, Eq)]
pub struct RankedRow {
    pub row: ReviewRow,
    pub risk: u64,
    pub tier: RiskTier,
}

/// The model of a [`RankedRow`].
pub struct RankedModel {
    pub row: RowModel,
    pub risk: u64,
    pub tier: RiskTier,
}

impl View for RankedRow {
    type V = RankedModel;

    open spec fn view(&self) -> RankedModel {
        RankedModel { row: self.row@, risk: self.risk, tier: self.tier }
    }
}

/// The rows with their risks.
pub open spec fn rated(found: Seq<RowModel>, risks: Seq<u64>) -> Seq<RankedModel> {
    Seq::new(
        found.len(),
        |i: int| RankedModel { row: found[i], risk: risks[i], tier: tier_of(risks[i]) },
    )
}

/// The order of reviewed symbols: the riskiest first.
pub open spec fn risk_order() -> spec_fn(RankedModel, RankedModel) -> bool {
    |a: RankedModel, b: RankedModel| a.risk > b.risk
}

/// The rows with the risks that were computed for them, the riskiest first, and
/// those of one risk in the order in which they were found.
pub fn rank_rows(found: &Vec<ReviewRow>, risks: &Vec<u64>) -> (r: Vec<RankedRow>)
    requires
        found@.len() == risks@.len(),
    ensures
        rows::seen(r@) == order::arranged(rated(rows::seen(found@), risks@), risk_order()),
{
    let ghost all = rows::seen(found@);
    let n: usize = found.len();
    let mut out: Vec<RankedRow> = Vec::new();
    let mut i: usize = 0;
    while i < n
        invariant
            i <= n,
            n == risks@.len(),
            n == found@.len(),
            all == rows::seen(found@),
            rows::seen(out@) == rated(all, risks@).take(i as int),
        decreases n - i,
    {
        let ghost done = rows::seen(out@);
        let row = found[i].copy();
        assert(row@ == all[i as int]);
        let ranked = RankedRow { row, risk: risks[i], tier: risk_tier(risks[i]) };
        out.push(ranked);
        assert(rows::seen(out@) =~= done.push(ranked@));
        assert(rated(all, risks@).take(i + 1) =~= done.push(ranked@));
        i += 1;
    }
    assert(rated(all, risks@).take(n as int) =~= rated(all, risks@));
    let ghost given = out@;
    let ghost before = |a: RankedRow, b: RankedRow| a.risk > b.risk;
    let less = |a: &RankedRow, b: &RankedRow| -> (t: bool)
        ensures
            t == (a.risk > b.risk),
    { a.risk > b.risk };
    let r = order::arrange(out, Ghost(before), less);
    proof {
        order::lemma_arranged_map(given, before, |a: RankedRow| a@, risk_order());
        assert(rows::seen(r@) =~= r@.map_values(|a: RankedRow| a@));
        assert(rows::seen(given) =~= given.map_values(|a: RankedRow| a@));
    }
    r
}

/// An edge to another node changes nothing of what is known of a symbol, even
/// where the two have one name.
pub proof fn law_rows_are_independent(s: StoreModel, n: NodeModel, e: EdgeModel)
    requires
        e.dst != n.id,
    ensures
        row_of(StoreModel { edges: s.edges.push(e), ..s })(n) == row_of(s)(n),
{
    rows::lemma_kept_push(s.edges, e, store_queries::calls_to(n.id));
    let more = s.edges.push(e);
    rows::lemma_first_at(s.edges, tests_of(n.id));
    rows::lemma_first_at(more, tests_of(n.id));
    if rows::any(more, tests_of(n.id)) {
        let k = rows::first_at(more, tests_of(n.id))->0;
        assert(more[k] == s.edges[k]);
    }
    if rows::any(s.edges, tests_of(n.id)) {
        let k = rows::first_at(s.edges, tests_of(n.id))->0;
        assert(more[k] == s.edges[k]);
    }
}

/// Whether a symbol is among those that only the base side has.
pub open spec fn is_reported(found: Seq<BaseModel>, n: NodeModel) -> bool {
    exists|i: int|
        0 <= i < found.len() && (#[trigger] found[i]).name == n.name && found[i].line
            == n.line_start && found[i].kind == n.label
}

/// Every symbol of a deleted source file is reported.
pub proof fn law_deleted_symbols_are_reported(s: StoreModel, f: FactsModel, b: Seq<char>, k: int)
    requires
        f.change.kind == ChangeKind::Deleted,
        is_code(f.change.path),
        f.base == Ok::<Seq<char>, Seq<char>>(b),
        0 <= k < source_symbols("base"@, f.change.path, b).len(),
    ensures
        is_reported(part_of(s, f).base_only, source_symbols("base"@, f.change.path, b)[k]),
{
    let n = source_symbols("base"@, f.change.path, b)[k];
    let found = part_of(s, f).base_only;
    assert(found[k].name == n.name);
}

/// A symbol of the base side of a changed source file is reported exactly where
/// the file no longer has a symbol of that name.
pub proof fn law_lost_symbols_are_reported(
    s: StoreModel,
    f: FactsModel,
    source: Seq<char>,
    b: Seq<char>,
    n: NodeModel,
)
    requires
        f.change.kind != ChangeKind::Deleted,
        f.change.kind != ChangeKind::Added,
        is_code(base_path(f.change)),
        f.current == Ok::<Seq<char>, Seq<char>>(source),
        f.base == Ok::<Seq<char>, Seq<char>>(b),
        source_symbols("base"@, base_path(f.change), b).contains(n),
    ensures
        present_names(s, f.change.path, source).contains(n.name) <==> !is_reported(
            part_of(s, f).base_only,
            n,
        ),
{
    let before = base_path(f.change);
    let at_base = source_symbols("base"@, before, b);
    let gone = gone_from(present_names(s, f.change.path, source));
    let lost = rows::kept(at_base, gone);
    let found = part_of(s, f).base_only;
    rows::lemma_kept(at_base, gone);
    if gone(n) {
        assert(lost.contains(n));
        let k = choose|k: int| 0 <= k < lost.len() && lost[k] == n;
        assert(found[k].name == n.name);
    }
    if is_reported(found, n) {
        let k = choose|k: int|
            0 <= k < found.len() && (#[trigger] found[k]).name == n.name && found[k].line
                == n.line_start && found[k].kind == n.label;
        assert(found[k].name == lost[k].name);
        assert(gone(lost[k]));
    }
}

/// A changed source file that the graph never saw is never passed over: the
/// review is then no more than a lower bound.
pub proof fn law_unseen_file_is_unknown(s: StoreModel, base: Seq<char>, facts: Seq<FactsModel>, k: int)
    requires
        0 <= k < facts.len(),
        facts[k].change.kind != ChangeKind::Deleted,
        coverage_of_file(s, facts[k].change.path, false) == FileGraphCoverage::NotIndexed,
    ensures
        review_of(s, base, facts).unknown_files.len() > 0,
        review_evidence(review_of(s, base, facts).unknown_files.len()) is LowerBound,
{
    lemma_unknown_grows(s, facts, (k + 1) as nat, facts.len());
}

proof fn lemma_unknown_grows(s: StoreModel, facts: Seq<FactsModel>, a: nat, b: nat)
    requires
        a <= b <= facts.len(),
    ensures
        parts_of(s, facts, a).unknown.len() <= parts_of(s, facts, b).unknown.len(),
    decreases b - a,
{
    if a < b {
        lemma_unknown_grows(s, facts, a, (b - 1) as nat);
    }
}

} // verus!
