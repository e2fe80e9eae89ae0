//! The tools that an agent asks: what they take, and what they answer.

use vstd::hash_map::*;
use vstd::prelude::*;
use vstd::string::*;

use crate::graph;
use crate::order;
use crate::query;
use crate::rows;
use crate::search;
use crate::store::{Store, StoreModel};
use crate::store_files;
use crate::store_lists;
use crate::store_queries;
use crate::store_queries::Coverage;
use crate::text;
use crate::types;
use crate::types::{Node, NodeModel};
use crate::usage;

verus! {

/// Whether the tools can be served.
pub fn mcp_ready() -> (r: bool)
    ensures
        r,
{
    true
}

/// What a search takes.
#[derive(Debug)]
pub struct SearchArgs {
    pub query: String,
    /// How many results at most.
    pub limit: Option<usize>,
    /// Whether the query is a regular expression over names.
    pub regex: Option<bool>,
    /// Whether a language model puts the hits in order.
    pub rerank: Option<bool>,
}

/// What a request for the context of a task takes.
#[derive(Debug)]
pub struct ContextArgs {
    pub query: String,
    /// About how many tokens the answer may take.
    pub budget: Option<usize>,
}

/// What a request for one node takes.
#[derive(Debug)]
pub struct IdArgs {
    pub id: String,
    /// Whether its lines are wanted too.
    pub snippet: Option<bool>,
}

/// What a question about a name takes.
#[derive(Debug)]
pub struct NameArgs {
    pub name: String,
    /// The one definition that is meant.
    pub id: Option<String>,
}

/// What a question about two names takes.
#[derive(Debug)]
pub struct TwoNamesArgs {
    pub from: String,
    pub to: String,
}

/// What a question about a file takes.
#[derive(Debug)]
pub struct FileArgs {
    pub file: String,
    pub limit: Option<usize>,
}

/// What a review takes.
#[derive(Debug)]
pub struct ChangesArgs {
    /// What the working tree is held against.
    pub base: Option<String>,
}

/// What a query of the graph takes.
#[derive(Debug)]
pub struct CypherArgs {
    pub query: String,
}

/// What a list takes.
#[derive(Debug)]
pub struct LimitArgs {
    pub limit: Option<usize>,
}

/// What a list of routes takes.
#[derive(Debug)]
pub struct RoutesArgs {
    pub limit: Option<usize>,
    pub offset: Option<usize>,
    pub path_prefix: Option<String>,
    pub method: Option<String>,
}

/// Which file an open index is in.
pub type DbFileId = Option<(u64, u64)>;

/// An open index with the file that it is in.
pub struct PooledStore {
    pub id: DbFileId,
    pub store: Store,
}

/// Takes an open index out of the pool for the file that is there now. An index
/// in another file is dropped, and so is one whose file cannot be told.
pub fn take_pooled(slot: &mut Option<PooledStore>, id: DbFileId) -> (r: Option<PooledStore>)
    ensures
        *final(slot) is None,
        r == (match *old(slot) {
            Some(p) => if id is Some && p.id == id {
                Some(p)
            } else {
                None
            },
            None => None,
        }),
{
    let cached = slot.take();
    match cached {
        Some(p) => {
            let same = match (p.id, id) {
                (Some(a), Some(b)) => a.0 == b.0 && a.1 == b.1,
                _ => false,
            };
            if same {
                Some(p)
            } else {
                None
            }
        },
        None => None,
    }
}

/// Whether the index is looked at again: not more than once in a second.
pub fn refresh_due(elapsed_ms: Option<u128>) -> (r: bool)
    ensures
        r == (match elapsed_ms {
            Some(t) => t > 1000,
            None => true,
        }),
{
    match elapsed_ms {
        Some(t) => t > 1000,
        None => true,
    }
}

/// What is said in place of an answer from an empty graph.
pub open spec fn empty_graph_text(root: Seq<char>) -> Seq<char> {
    "graph is EMPTY for root "@ + root
        + " — likely a stale/wrong server root (moved repo? stale --path in the MCP registration?). Fix the registration (register `codegraph mcp` WITHOUT --path so it follows the project directory) or run `codegraph index` in the intended repo. Do NOT conclude anything about the code from this answer."@
}

/// Whether an index may answer: an empty one never does, for an empty answer
/// would say something of the code.
pub fn ensure_answerable(store: &Store, root: &str) -> (r: Result<(), String>)
    ensures
        match r {
            Ok(_) => store@.nodes.len() > 0,
            Err(e) => store@.nodes.len() == 0 && e@ == empty_graph_text(root@),
        },
{
    assert(store@.nodes.len() == store.nodes@.len());
    if store.nodes.len() == 0 {
        Err(
            "graph is EMPTY for root ".to_owned().concat(root).concat(
                " — likely a stale/wrong server root (moved repo? stale --path in the MCP registration?). Fix the registration (register `codegraph mcp` WITHOUT --path so it follows the project directory) or run `codegraph index` in the intended repo. Do NOT conclude anything about the code from this answer.",
            ),
        )
    } else {
        Ok(())
    }
}

/// The family of languages that a file is of, by what its path ends with.
pub open spec fn family_of(path: Seq<char>) -> Seq<char> {
    let ext = search::after_last(path, '.');
    if ext == "ts"@ || ext == "tsx"@ || ext == "mts"@ || ext == "cts"@ || ext == "js"@ || ext
        == "jsx"@ || ext == "mjs"@ || ext == "cjs"@ {
        "js"@
    } else if ext == "py"@ || ext == "pyi"@ {
        "py"@
    } else if ext == "rs"@ {
        "rs"@
    } else if ext == "go"@ {
        "go"@
    } else if ext == "swift"@ {
        "swift"@
    } else if ext == "kt"@ || ext == "kts"@ || ext == "java"@ {
        "jvm"@
    } else if ext == "c"@ || ext == "h"@ || ext == "cpp"@ || ext == "cc"@ || ext == "cxx"@ || ext
        == "hpp"@ || ext == "hh"@ || ext == "hxx"@ {
        "c"@
    } else if ext == "rb"@ {
        "rb"@
    } else if ext == "cs"@ {
        "cs"@
    } else {
        "other"@
    }
}

/// See [`family_of`].
pub fn lang_family(path: &str) -> (r: &'static str)
    ensures
        r@ == family_of(path@),
{
    let ext = search::text_after_last(path, '.');
    let e = ext.as_str();
    if text::same(e, "ts") || text::same(e, "tsx") || text::same(e, "mts") || text::same(e, "cts")
        || text::same(e, "js") || text::same(e, "jsx") || text::same(e, "mjs") || text::same(
        e,
        "cjs",
    ) {
        "js"
    } else if text::same(e, "py") || text::same(e, "pyi") {
        "py"
    } else if text::same(e, "rs") {
        "rs"
    } else if text::same(e, "go") {
        "go"
    } else if text::same(e, "swift") {
        "swift"
    } else if text::same(e, "kt") || text::same(e, "kts") || text::same(e, "java") {
        "jvm"
    } else if text::same(e, "c") || text::same(e, "h") || text::same(e, "cpp") || text::same(
        e,
        "cc",
    ) || text::same(e, "cxx") || text::same(e, "hpp") || text::same(e, "hh") || text::same(
        e,
        "hxx",
    ) {
        "c"
    } else if text::same(e, "rb") {
        "rb"
    } else if text::same(e, "cs") {
        "cs"
    } else {
        "other"
    }
}

/// What an agent is told to do where an answer may be incomplete: why, and the
/// search that shows the rest.
#[derive(Debug, PartialEq, Eq)]
pub struct Fallback {
    pub why: String,
    pub run: String,
}

/// Why an answer is no more than a lower bound.
pub open spec fn fallback_why(dropped: nat, name: Seq<char>) -> Seq<char> {
    text::decimal(dropped) + " in-repo call site(s) naming '"@ + name
        + "' did not resolve — the precise list is a LOWER BOUND"@
}

/// The search that shows what an answer may miss.
pub open spec fn fallback_run(name: Seq<char>) -> Seq<char> {
    "grep -rn \""@ + name
        + "\\s*(\" --include=\"*.ts\" --include=\"*.tsx\" --include=\"*.js\" --include=\"*.py\" --include=\"*.swift\" --include=\"*.kt\" --include=\"*.java\" --include=\"*.go\" --include=\"*.rb\" --include=\"*.cs\" --include=\"*.rs\""@
}

/// What an agent is told where an answer may be incomplete; nothing where it is
/// not.
pub fn fallback_hint(coverage: &Coverage, name: &str) -> (r: Option<Fallback>)
    ensures
        match r {
            Some(f) => coverage.may_be_incomplete && f.why@ == fallback_why(
                coverage.dropped as nat,
                name@,
            ) && f.run@ == fallback_run(name@),
            None => !coverage.may_be_incomplete,
        },
{
    if !coverage.may_be_incomplete {
        return None;
    }
    let n = text::to_decimal(coverage.dropped as u64);
    Some(
        Fallback {
            why: n.concat(" in-repo call site(s) naming '").concat(name).concat(
                "' did not resolve — the precise list is a LOWER BOUND",
            ),
            run: "grep -rn \"".to_owned().concat(name).concat(
                "\\s*(\" --include=\"*.ts\" --include=\"*.tsx\" --include=\"*.js\" --include=\"*.py\" --include=\"*.swift\" --include=\"*.kt\" --include=\"*.java\" --include=\"*.go\" --include=\"*.rb\" --include=\"*.cs\" --include=\"*.rs\"",
            ),
        },
    )
}

/// The files of a family of languages.
pub open spec fn of_family(family: Seq<char>) -> spec_fn(Seq<char>) -> bool {
    |f: Seq<char>| family_of(f) == family
}

/// How many of the files are of the family of languages of a file.
pub open spec fn votes(files: Seq<Seq<char>>, file: Seq<char>) -> nat {
    rows::kept(files, of_family(family_of(file))).len()
}

/// Whether a definition is the likelier one that a name means: it has more
/// resolved callers, else more call sites in its family of languages, else the
/// lesser path.
pub open spec fn likelier(files: Seq<Seq<char>>, a: (NodeModel, nat), b: (NodeModel, nat)) -> bool {
    let (va, vb) = (votes(files, a.0.file_path), votes(files, b.0.file_path));
    if a.1 != b.1 {
        a.1 > b.1
    } else if va != vb {
        va > vb
    } else {
        text::text_less(a.0.file_path, b.0.file_path)
    }
}

/// See [`likelier`].
pub open spec fn likelihood(files: Seq<Seq<char>>) -> spec_fn(
    (NodeModel, nat),
    (NodeModel, nat),
) -> bool {
    |a: (NodeModel, nat), b: (NodeModel, nat)| likelier(files, a, b)
}

/// See [`votes`].
fn count_votes(files: &Vec<String>, file: &str) -> (r: usize)
    ensures
        r == votes(text::views(files@), file@),
{
    let ghost all = text::views(files@);
    let family = lang_family(file);
    let mut n: usize = 0;
    let mut i: usize = 0;
    assert(all.take(0) =~= Seq::empty());
    while i < files.len()
        invariant
            n <= i <= files.len(),
            all == text::views(files@),
            family@ == family_of(file@),
            n == rows::kept(all.take(i as int), of_family(family_of(file@))).len(),
        decreases files.len() - i,
    {
        proof {
            rows::lemma_kept_next(all, i as int, of_family(family_of(file@)));
            assert(all[i as int] == files@[i as int]@);
        }
        if text::same(lang_family(files[i].as_str()), family) {
            n += 1;
        }
        i += 1;
    }
    assert(all.take(files@.len() as int) =~= all);
    n
}

/// The definitions that a name may mean, the likeliest first.
pub fn rank_definitions(defs: Vec<(Node, usize)>, files: &Vec<String>) -> (r: Vec<(Node, usize)>)
    ensures
        usage::definition_views(r@) == order::arranged(
            usage::definition_views(defs@),
            likelihood(text::views(files@)),
        ),
{
    let ghost all = defs@;
    let ghost f = |p: (Node, usize)| (p.0@, p.1 as nat);
    let ghost before = |a: (Node, usize), b: (Node, usize)|
        likelier(text::views(files@), (a.0@, a.1 as nat), (b.0@, b.1 as nat));
    let less = |a: &(Node, usize), b: &(Node, usize)| -> (t: bool)
        ensures
            t == likelier(text::views(files@), (a.0@, a.1 as nat), (b.0@, b.1 as nat)),
    {
        if a.1 != b.1 {
            a.1 > b.1
        } else {
            let va: usize = count_votes(files, a.0.file_path.as_str());
            let vb: usize = count_votes(files, b.0.file_path.as_str());
            if va != vb {
                va > vb
            } else {
                text::less(a.0.file_path.as_str(), b.0.file_path.as_str())
            }
        }
    };
    let r = order::arrange(defs, Ghost(before), less);
    proof {
        order::lemma_arranged_map(all, before, f, likelihood(text::views(files@)));
        assert(usage::definition_views(r@) =~= r@.map_values(f));
        assert(usage::definition_views(all) =~= all.map_values(f));
    }
    r
}

/// The answer to who calls something.
pub enum CallersAnswer {
    /// The callers of the one definition that was meant.
    Pinned { callers: Vec<Node> },
    /// The definitions that the name may mean, each with the number of its
    /// callers.
    Ambiguous { candidates: Vec<(Node, usize)>, note: String, coverage: Coverage },
    /// The callers of the name; the files whose call sites of that name led to
    /// no edge; where the name is used as a type; and what to do where more may
    /// be missing.
    Resolved {
        callers: Vec<Node>,
        coverage: Coverage,
        unresolved_files: Vec<String>,
        type_usages: Vec<(String, String)>,
        fallback: Option<Fallback>,
    },
}

/// The model of a [`CallersAnswer`].
pub enum CallersModel {
    Pinned(Seq<NodeModel>),
    Ambiguous(Seq<(NodeModel, nat)>, Seq<char>, Coverage),
    Resolved(
        Seq<NodeModel>,
        Coverage,
        Seq<Seq<char>>,
        Seq<(Seq<char>, Seq<char>)>,
        Option<(Seq<char>, Seq<char>)>,
    ),
}

/// What a hint says.
pub open spec fn fallback_view(f: Option<Fallback>) -> Option<(Seq<char>, Seq<char>)> {
    match f {
        Some(f) => Some((f.why@, f.run@)),
        None => None,
    }
}

impl View for CallersAnswer {
    type V = CallersModel;

    open spec fn view(&self) -> CallersModel {
        match *self {
            CallersAnswer::Pinned { callers } => CallersModel::Pinned(types::node_views(callers@)),
            CallersAnswer::Ambiguous { candidates, note, coverage } => CallersModel::Ambiguous(
                usage::definition_views(candidates@),
                note@,
                coverage,
            ),
            CallersAnswer::Resolved {
                callers,
                coverage,
                unresolved_files,
                type_usages,
                fallback,
            } => CallersModel::Resolved(
                types::node_views(callers@),
                coverage,
                text::views(unresolved_files@),
                store_files::pair_views(type_usages@),
                fallback_view(fallback),
            ),
        }
    }
}

/// What is told where a name has several definitions.
pub open spec fn ambiguity_note(name: Seq<char>, n: nat) -> Seq<char> {
    "'"@ + name + "' has "@ + text::decimal(n)
        + " definitions; callers differ per definition. Re-call with id=<id> to pin one."@
}

/// The definitions of a name with the numbers of their callers.
pub open spec fn definitions(s: StoreModel, name: Seq<char>) -> Seq<(NodeModel, nat)> {
    order::arranged(
        rows::kept(s.nodes, usage::callable_named(name)).map_values(usage::with_callers(s.edges)),
        usage::definition_order(),
    )
}

/// How many of the call sites of a name led to an edge.
pub open spec fn callers_coverage(s: StoreModel, name: Seq<char>) -> Coverage {
    store_queries::coverage_of(
        rows::kept(s.calls, store_queries::resolved_caller_sites(s, name)).len(),
        rows::kept(s.calls, store_queries::caller_sites(s, name)).len(),
    )
}

/// The files that are not among those of nodes.
pub open spec fn in_no_file_of(nodes: Seq<NodeModel>) -> spec_fn(Seq<char>) -> bool {
    |f: Seq<char>| !nodes.map_values(|n: NodeModel| n.file_path).contains(f)
}

/// What an agent is told for a coverage.
pub open spec fn fallback_for(c: Coverage, name: Seq<char>) -> Option<(Seq<char>, Seq<char>)> {
    if c.may_be_incomplete {
        Some((fallback_why(c.dropped as nat, name), fallback_run(name)))
    } else {
        None
    }
}

/// The answer to who calls something. The callers of definitions that share a
/// name are never put together.
pub open spec fn callers_answer(
    s: StoreModel,
    name: Seq<char>,
    pin: Option<Seq<char>>,
    documents: Seq<Seq<char>>,
) -> CallersModel {
    match pin {
        Some(id) => CallersModel::Pinned(
            rows::kept(s.nodes, store_queries::caller_of_id(s.edges, id)),
        ),
        None => {
            let defs = definitions(s, name);
            let strays = store_lists::stray_files(s, name, None);
            let coverage = callers_coverage(s, name);
            if defs.len() > 1 {
                CallersModel::Ambiguous(
                    order::arranged(defs, likelihood(strays)),
                    ambiguity_note(name, defs.len()),
                    coverage,
                )
            } else {
                let callers = rows::kept(s.nodes, store_queries::caller_of(s, name));
                CallersModel::Resolved(
                    callers,
                    coverage,
                    order::arranged(
                        rows::kept(strays, in_no_file_of(callers)),
                        order::text_order(),
                    ),
                    rows::limited(usage::uses(s, name, documents), 50),
                    fallback_for(coverage, name),
                )
            }
        },
    }
}

/// The texts that a test takes.
fn pick_texts<F: Fn(&str) -> bool>(
    v: &Vec<String>,
    Ghost(keep): Ghost<spec_fn(Seq<char>) -> bool>,
    test: F,
) -> (r: Vec<String>)
    requires
        forall|a: &str| #[trigger] test.requires((a,)),
        forall|a: &str, t: bool| #[trigger] test.ensures((a,), t) ==> t == keep(a@),
    ensures
        text::views(r@) == rows::kept(text::views(v@), keep),
{
    let ghost all = text::views(v@);
    let mut out: Vec<String> = Vec::new();
    let mut i: usize = 0;
    assert(all.take(0) =~= Seq::empty());
    assert(text::views(out@) =~= Seq::empty());
    while i < v.len()
        invariant
            i <= v.len(),
            all == text::views(v@),
            text::views(out@) == rows::kept(all.take(i as int), keep),
            forall|a: &str| #[trigger] test.requires((a,)),
            forall|a: &str, t: bool| #[trigger] test.ensures((a,), t) ==> t == keep(a@),
        decreases v.len() - i,
    {
        proof {
            rows::lemma_kept_next(all, i as int, keep);
            assert(all[i as int] == v@[i as int]@);
        }
        let ghost was = text::views(out@);
        if test(v[i].as_str()) {
            out.push(v[i].clone());
            assert(text::views(out@) =~= was.push(v@[i as int]@));
        }
        i += 1;
    }
    assert(all.take(v@.len() as int) =~= all);
    out
}

fn file_names(nodes: &Vec<Node>) -> (r: Vec<String>)
    ensures
        text::views(r@) == types::node_views(nodes@).map_values(|n: NodeModel| n.file_path),
{
    let mut out: Vec<String> = Vec::new();
    let say = |n: &Node| -> (t: String)
        ensures
            t@ == n@.file_path,
    { n.file_path.clone() };
    assert(text::views(out@) =~= Seq::empty());
    rows::say_all(&mut out, nodes, Ghost(|n: NodeModel| n.file_path), say);
    assert(text::views(out@) =~= types::node_views(nodes@).map_values(
        |n: NodeModel| n.file_path,
    ));
    out
}

/// Who calls something; see [`callers_answer`]. `documents` are the files that
/// are no source.
pub fn callers(store: &Store, args: &NameArgs, documents: &Vec<String>) -> (r: CallersAnswer)
    ensures
        r@ == callers_answer(
            store@,
            args.name@,
            types::opt_text(args.id),
            text::views(documents@),
        ),
{
    let name = args.name.as_str();
    if let Some(id) = &args.id {
        return CallersAnswer::Pinned { callers: store.callers_of_id(id.as_str()) };
    }
    let defs = store.definitions_of(name);
    let coverage = store.coverage_for_callers(name);
    let strays = store.unresolved_call_site_files(name, None);
    let n: usize = defs.len();
    assert(usage::definition_views(defs@).len() == n);
    if n > 1 {
        let count = text::to_decimal(n as u64);
        let candidates = rank_definitions(defs, &strays);
        return CallersAnswer::Ambiguous {
            candidates,
            note: "'".to_owned().concat(name).concat("' has ").concat(count.as_str()).concat(
                " definitions; callers differ per definition. Re-call with id=<id> to pin one.",
            ),
            coverage,
        };
    }
    let callers = store.callers_of(name);
    let files = file_names(&callers);
    let test = |f: &str| -> (t: bool)
        ensures
            t == in_no_file_of(types::node_views(callers@))(f@),
    { !text::is_listed(&files, f) };
    let rest = pick_texts(&strays, Ghost(in_no_file_of(types::node_views(callers@))), test);
    let unresolved_files = order::arrange_texts(rest);
    let mut type_usages = store.type_usages(name, documents);
    let ghost all = store_files::pair_views(type_usages@);
    type_usages.truncate(50);
    assert(store_files::pair_views(type_usages@) =~= rows::limited(all, 50));
    let fallback = fallback_hint(&coverage, name);
    CallersAnswer::Resolved { callers, coverage, unresolved_files, type_usages, fallback }
}

} // verus!
