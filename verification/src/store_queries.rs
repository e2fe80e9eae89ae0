//! The questions that the store answers about callers, definitions, types and
//! history, and how complete the answers are.

use vstd::prelude::*;
use vstd::string::*;

use crate::like;
use crate::order;
use crate::rows;
use crate::store;
use crate::store::{Store, StoreModel};
use crate::store_files;
use crate::tables::{CallRow, CallRowModel, ImportRow, ImportRowModel};
use crate::text;
use crate::types;
use crate::types::{Confidence, Edge, EdgeModel, EdgeRelation, Node, NodeLabel, NodeModel, Receiver};
use crate::words;

verus! {

/// How many of the call sites that a question is about were resolved.
#[derive(Debug, Clone, Copy, PartialEq, Eq, Structural)]
pub struct Coverage {
    pub resolved: usize,
    pub total_call_sites: usize,
    pub dropped: usize,
    pub may_be_incomplete: bool,
}

/// The coverage that follows from two counts.
pub open spec fn coverage_of(resolved: nat, total: nat) -> Coverage {
    Coverage {
        resolved: resolved as usize,
        total_call_sites: total as usize,
        dropped: if total > resolved {
            (total - resolved) as usize
        } else {
            0
        },
        may_be_incomplete: total > resolved,
    }
}

impl Coverage {
    /// See [`coverage_of`].
    pub fn of(resolved: usize, total: usize) -> (r: Coverage)
        ensures
            r == coverage_of(resolved as nat, total as nat),
    {
        Coverage {
            resolved,
            total_call_sites: total,
            dropped: if total > resolved {
                total - resolved
            } else {
                0
            },
            may_be_incomplete: total > resolved,
        }
    }
}

/// The call sites that name something.
pub open spec fn calls_naming(name: Seq<char>) -> spec_fn(CallRowModel) -> bool {
    |c: CallRowModel| c.call.callee_name == name
}

/// Whether a file is one of TypeScript or JavaScript.
pub open spec fn is_script(path: Seq<char>) -> bool {
    like::like(path, "%.ts"@) || like::like(path, "%.tsx"@) || like::like(path, "%.js"@)
        || like::like(path, "%.jsx"@) || like::like(path, "%.mjs"@)
}

/// Whether a module specifier points into the repository.
pub open spec fn is_local_module(module: Seq<char>, marks: Seq<char>) -> bool {
    module.len() > 0 && marks.contains(module[0])
}

/// Whether an import binds a call site to a package outside the repository.
pub open spec fn import_binds(c: CallRowModel) -> spec_fn(ImportRowModel) -> bool {
    |i: ImportRowModel|
        i.file_path == c.file_path && (i.name == c.call.callee_name || c.call.receiver == Some(
            i.name,
        )) && !is_local_module(i.module, seq!['.', '/', '#']) && is_script(i.file_path)
}

/// Whether a call site is bound to a package outside the repository.
pub open spec fn external_bound(s: StoreModel, c: CallRowModel) -> bool {
    rows::any(s.imports, import_binds(c))
}

/// Whether a node is a function, a method or a class with a name.
pub open spec fn defines(name: Seq<char>) -> spec_fn(NodeModel) -> bool {
    |n: NodeModel|
        n.name == name && (n.label == NodeLabel::Function || n.label == NodeLabel::Method || n.label
            == NodeLabel::Class)
}

/// Whether nothing in the repository has the name that a call site calls.
pub open spec fn no_definition(s: StoreModel, c: CallRowModel) -> bool {
    !rows::any(s.nodes, defines(c.call.callee_name))
}

/// Whether no resolver could bind a call site inside the repository.
pub open spec fn unresolvable(s: StoreModel) -> spec_fn(CallRowModel) -> bool {
    |c: CallRowModel| external_bound(s, c) || no_definition(s, c)
}

/// Whether the node with an id has a name.
pub open spec fn is_named(nodes: Seq<NodeModel>, id: Seq<char>, name: Seq<char>) -> bool {
    rows::any(nodes, |n: NodeModel| n.id == id && n.name == name)
}

/// Whether a certain call edge leads from a caller to something with a name.
pub open spec fn has_sure_call(s: StoreModel, caller: Seq<char>, name: Seq<char>) -> bool {
    rows::any(
        s.edges,
        |e: EdgeModel|
            e.src == caller && e.relation == EdgeRelation::Calls && e.confidence
                != Confidence::Ambiguous && is_named(s.nodes, e.dst, name),
    )
}

/// Whether a call edge leads from a caller to something with a name.
pub open spec fn has_call(s: StoreModel, caller: Seq<char>, name: Seq<char>) -> bool {
    rows::any(
        s.edges,
        |e: EdgeModel|
            e.src == caller && e.relation == EdgeRelation::Calls && is_named(s.nodes, e.dst, name),
    )
}

/// The call sites that count for the callers of a name.
pub open spec fn caller_sites(s: StoreModel, name: Seq<char>) -> spec_fn(CallRowModel) -> bool {
    |c: CallRowModel| c.call.callee_name == name && !external_bound(s, c)
}

/// Those of them that were resolved.
pub open spec fn resolved_caller_sites(s: StoreModel, name: Seq<char>) -> spec_fn(
    CallRowModel,
) -> bool {
    |c: CallRowModel|
        c.call.callee_name == name && !external_bound(s, c) && has_sure_call(
            s,
            c.call.caller_id,
            name,
        )
}

/// The call sites that count for what a caller calls.
pub open spec fn callee_sites(s: StoreModel, caller: Seq<char>) -> spec_fn(CallRowModel) -> bool {
    |c: CallRowModel|
        c.call.caller_id == caller && !(external_bound(s, c) || no_definition(s, c))
}

/// Those of them that were resolved.
pub open spec fn resolved_callee_sites(s: StoreModel, caller: Seq<char>) -> spec_fn(
    CallRowModel,
) -> bool {
    |c: CallRowModel|
        c.call.caller_id == caller && !(external_bound(s, c) || no_definition(s, c))
            && has_sure_call(s, caller, c.call.callee_name)
}

/// The name that a call goes through.
fn receiver_is(r: &Receiver, name: &str) -> (t: bool)
    ensures
        t == (r.name() == Some(name@)),
{
    match r {
        Receiver::Bare => false,
        Receiver::Named(n) => text::same(n.as_str(), name),
    }
}

/// See [`is_script`].
pub fn script(path: &str) -> (r: bool)
    ensures
        r == is_script(path@),
{
    like::matches_like(path, "%.ts") || like::matches_like(path, "%.tsx") || like::matches_like(
        path,
        "%.js",
    ) || like::matches_like(path, "%.jsx") || like::matches_like(path, "%.mjs")
}

/// Whether a module specifier begins with `.` or `/`, or with `#` where that
/// counts too.
pub fn local_module(module: &str, hash: bool) -> (r: bool)
    ensures
        r == is_local_module(
            module@,
            if hash {
                seq!['.', '/', '#']
            } else {
                seq!['.', '/']
            },
        ),
{
    let v = text::chars_of(module);
    let ghost marks = if hash {
        seq!['.', '/', '#']
    } else {
        seq!['.', '/']
    };
    proof {
        assert(marks[0] == '.' && marks[1] == '/');
        if hash {
            assert(marks[2] == '#');
        }
    }
    v.len() > 0 && (v[0] == '.' || v[0] == '/' || (hash && v[0] == '#'))
}

/// The tests for kinds of definitions.
pub open spec fn is_type_like(n: NodeModel) -> bool {
    n.label == NodeLabel::Class || n.label == NodeLabel::Interface || n.label == NodeLabel::Enum
        || n.label == NodeLabel::Type || n.label == NodeLabel::Function || n.label
        == NodeLabel::Method
}

/// See [`is_type_like`].
pub(crate) fn type_like(n: &Node) -> (r: bool)
    ensures
        r == is_type_like(n@),
{
    n.label == NodeLabel::Class || n.label == NodeLabel::Interface || n.label == NodeLabel::Enum
        || n.label == NodeLabel::Type || n.label == NodeLabel::Function || n.label
        == NodeLabel::Method
}

/// The order of nodes by line.
pub open spec fn line_order() -> spec_fn(NodeModel, NodeModel) -> bool {
    |a: NodeModel, b: NodeModel| a.line_start < b.line_start
}

/// Whether a node comes before another by file and line.
pub open spec fn place_less(a: NodeModel, b: NodeModel) -> bool {
    if a.file_path != b.file_path {
        text::text_less(a.file_path, b.file_path)
    } else {
        a.line_start < b.line_start
    }
}

/// The order of nodes by file and line.
pub open spec fn place_order() -> spec_fn(NodeModel, NodeModel) -> bool {
    |a: NodeModel, b: NodeModel| place_less(a, b)
}

/// The nodes in the order of file and line.
pub(crate) fn arrange_by_place(nodes: Vec<Node>) -> (r: Vec<Node>)
    ensures
        types::node_views(r@) == order::arranged(types::node_views(nodes@), place_order()),
{
    let ghost all = nodes@;
    let ghost before = |a: Node, b: Node| place_less(a@, b@);
    let less = |a: &Node, b: &Node| -> (t: bool)
        ensures
            t == place_less(a@, b@),
    {
        if !text::same(a.file_path.as_str(), b.file_path.as_str()) {
            text::less(a.file_path.as_str(), b.file_path.as_str())
        } else {
            a.line_start < b.line_start
        }
    };
    let r = order::arrange(nodes, Ghost(before), less);
    proof {
        order::lemma_arranged_map(all, before, |n: Node| n@, place_order());
        assert(types::node_views(r@) =~= r@.map_values(|n: Node| n@));
        assert(types::node_views(all) =~= all.map_values(|n: Node| n@));
    }
    r
}

/// The nodes in the order of lines.
fn arrange_by_line(nodes: Vec<Node>) -> (r: Vec<Node>)
    ensures
        types::node_views(r@) == order::arranged(types::node_views(nodes@), line_order()),
{
    let ghost all = nodes@;
    let ghost before = |a: Node, b: Node| a@.line_start < b@.line_start;
    let less = |a: &Node, b: &Node| -> (t: bool)
        ensures
            t == (a@.line_start < b@.line_start),
    { a.line_start < b.line_start };
    let r = order::arrange(nodes, Ghost(before), less);
    proof {
        order::lemma_arranged_map(all, before, |n: Node| n@, line_order());
        assert(types::node_views(r@) =~= r@.map_values(|n: Node| n@));
        assert(types::node_views(all) =~= all.map_values(|n: Node| n@));
    }
    r
}

/// Whether a name is that of an entry point.
pub open spec fn is_entry_name(name: Seq<char>) -> bool {
    name == "main"@ || name == "init"@ || name == "new"@ || name == "setup"@ || name == "run"@
        || name == "constructor"@
}

/// See [`is_entry_name`].
pub(crate) fn entry_name(name: &str) -> (r: bool)
    ensures
        r == is_entry_name(name@),
{
    text::same(name, "main") || text::same(name, "init") || text::same(name, "new") || text::same(
        name,
        "setup",
    ) || text::same(name, "run") || text::same(name, "constructor")
}

/// Whether a node is a route that something with the name handles.
pub open spec fn route_to(name: Seq<char>) -> spec_fn(NodeModel) -> bool {
    |r: NodeModel|
        r.label == NodeLabel::Route && types::meta_text(r.metadata, "handler"@) == Some(name)
}

/// Whether a function or method looks dead: no call site names it, and it is
/// neither an entry point nor a route handler nor in a test file.
pub open spec fn looks_dead(s: StoreModel) -> spec_fn(NodeModel) -> bool {
    |n: NodeModel|
        store_files::is_callable(n) && !is_entry_name(n.name) && !words::test_path(n.file_path)
            && !rows::any(s.calls, calls_naming(n.name)) && !rows::any(s.nodes, route_to(n.name))
}

/// Whether a test covers something with the name: by an edge, or else by a call
/// site in a test file.
pub open spec fn is_tested(s: StoreModel, name: Seq<char>) -> bool {
    rows::any(
        s.edges,
        |e: EdgeModel| e.relation == EdgeRelation::Tests && is_named(s.nodes, e.dst, name),
    ) || rows::any(
        s.calls,
        |c: CallRowModel| c.call.callee_name == name && words::test_path(c.file_path),
    )
}

/// The symbols of a file.
pub open spec fn symbol_in(file: Seq<char>) -> spec_fn(NodeModel) -> bool {
    |n: NodeModel| n.file_path == file && is_type_like(n)
}

/// Whether a call edge leads from one node to another.
pub open spec fn calls_to(id: Seq<char>) -> spec_fn(EdgeModel) -> bool {
    |e: EdgeModel| e.relation == EdgeRelation::Calls && e.dst == id
}

/// The nodes from which a call edge leads to a node.
pub open spec fn caller_of_id(edges: Seq<EdgeModel>, id: Seq<char>) -> spec_fn(NodeModel) -> bool {
    |n: NodeModel|
        rows::any(
            edges,
            |e: EdgeModel| e.relation == EdgeRelation::Calls && e.dst == id && e.src == n.id,
        )
}

/// The nodes from which a call edge leads to something with a name.
pub open spec fn caller_of(s: StoreModel, name: Seq<char>) -> spec_fn(NodeModel) -> bool {
    |n: NodeModel|
        rows::any(
            s.edges,
            |e: EdgeModel|
                e.relation == EdgeRelation::Calls && e.src == n.id && is_named(
                    s.nodes,
                    e.dst,
                    name,
                ),
        )
}

/// The nodes that implement or inherit something with a name.
pub open spec fn implementer_of(s: StoreModel, name: Seq<char>) -> spec_fn(NodeModel) -> bool {
    |n: NodeModel|
        rows::any(
            s.edges,
            |e: EdgeModel|
                (e.relation == EdgeRelation::Implements || e.relation == EdgeRelation::Inherits)
                    && e.src == n.id && is_named(s.nodes, e.dst, name),
        )
}

/// The number of different callers of a node.
pub open spec fn caller_count(edges: Seq<EdgeModel>, id: Seq<char>) -> nat {
    rows::distinct(rows::kept(edges, calls_to(id)).map_values(|e: EdgeModel| e.src)).len()
}

impl Store {
    /// See [`external_bound`].
    pub fn is_external_bound(&self, c: &CallRow) -> (r: bool)
        ensures
            r == external_bound(self@, c@),
    {
        let test = |i: &ImportRow| -> (t: bool)
            ensures
                t == import_binds(c@)(i@),
        {
            text::same(i.file_path.as_str(), c.file_path.as_str()) && (text::same(
                i.name.as_str(),
                c.call.callee_name.as_str(),
            ) || receiver_is(&c.call.receiver, i.name.as_str())) && !local_module(
                i.module.as_str(),
                true,
            ) && script(i.file_path.as_str())
        };
        rows::exists_row(&self.imports, Ghost(import_binds(c@)), test)
    }

    /// Whether a function, a method or a class has a name.
    pub fn has_definition(&self, name: &str) -> (r: bool)
        ensures
            r == rows::any(self@.nodes, defines(name@)),
    {
        let test = |n: &Node| -> (t: bool)
            ensures
                t == defines(name@)(n@),
        {
            text::same(n.name.as_str(), name) && (n.label == NodeLabel::Function || n.label
                == NodeLabel::Method || n.label == NodeLabel::Class)
        };
        rows::exists_row(&self.nodes, Ghost(defines(name@)), test)
    }

    /// See [`is_named`].
    pub fn node_has_name(&self, id: &str, name: &str) -> (r: bool)
        ensures
            r == is_named(self@.nodes, id@, name@),
    {
        let ghost want = |n: NodeModel| n.id == id@ && n.name == name@;
        let test = |n: &Node| -> (t: bool)
            ensures
                t == (n@.id == id@ && n@.name == name@),
        { text::same(n.id.as_str(), id) && text::same(n.name.as_str(), name) };
        rows::exists_row(&self.nodes, Ghost(want), test)
    }

    /// See [`has_sure_call`].
    pub fn has_sure_call_edge(&self, caller: &str, name: &str) -> (r: bool)
        ensures
            r == has_sure_call(self@, caller@, name@),
    {
        let ghost want = |e: EdgeModel|
            e.src == caller@ && e.relation == EdgeRelation::Calls && e.confidence
                != Confidence::Ambiguous && is_named(self@.nodes, e.dst, name@);
        let test = |e: &Edge| -> (t: bool)
            ensures
                t == (e@.src == caller@ && e@.relation == EdgeRelation::Calls && e@.confidence
                    != Confidence::Ambiguous && is_named(self@.nodes, e@.dst, name@)),
        {
            text::same(e.src.as_str(), caller) && e.relation == EdgeRelation::Calls && e.confidence
                != Confidence::Ambiguous && self.node_has_name(e.dst.as_str(), name)
        };
        rows::exists_row(&self.edges, Ghost(want), test)
    }

    /// See [`has_call`].
    pub fn has_call_edge(&self, caller: &str, name: &str) -> (r: bool)
        ensures
            r == has_call(self@, caller@, name@),
    {
        let ghost want = |e: EdgeModel|
            e.src == caller@ && e.relation == EdgeRelation::Calls && is_named(
                self@.nodes,
                e.dst,
                name@,
            );
        let test = |e: &Edge| -> (t: bool)
            ensures
                t == (e@.src == caller@ && e@.relation == EdgeRelation::Calls && is_named(
                    self@.nodes,
                    e@.dst,
                    name@,
                )),
        {
            text::same(e.src.as_str(), caller) && e.relation == EdgeRelation::Calls
                && self.node_has_name(e.dst.as_str(), name)
        };
        rows::exists_row(&self.edges, Ghost(want), test)
    }

    /// How many call sites naming something were resolved, of those that a
    /// resolver could bind in the repository.
    pub fn coverage_for_callers(&self, name: &str) -> (r: Coverage)
        ensures
            r == coverage_of(
                rows::kept(self@.calls, resolved_caller_sites(self@, name@)).len(),
                rows::kept(self@.calls, caller_sites(self@, name@)).len(),
            ),
    {
        let test = |c: &CallRow| -> (t: bool)
            ensures
                t == caller_sites(self@, name@)(c@),
        { text::same(c.call.callee_name.as_str(), name) && !self.is_external_bound(c) };
        let total: usize = rows::count(&self.calls, Ghost(caller_sites(self@, name@)), test);
        let test = |c: &CallRow| -> (t: bool)
            ensures
                t == resolved_caller_sites(self@, name@)(c@),
        {
            text::same(c.call.callee_name.as_str(), name) && !self.is_external_bound(c)
                && self.has_sure_call_edge(c.call.caller_id.as_str(), name)
        };
        let resolved: usize = rows::count(
            &self.calls,
            Ghost(resolved_caller_sites(self@, name@)),
            test,
        );
        Coverage::of(resolved, total)
    }

    /// How many call sites of a caller were resolved, of those that a resolver
    /// could bind in the repository.
    pub fn coverage_for_callees(&self, caller_id: &str) -> (r: Coverage)
        ensures
            r == coverage_of(
                rows::kept(self@.calls, resolved_callee_sites(self@, caller_id@)).len(),
                rows::kept(self@.calls, callee_sites(self@, caller_id@)).len(),
            ),
    {
        let test = |c: &CallRow| -> (t: bool)
            ensures
                t == callee_sites(self@, caller_id@)(c@),
        {
            text::same(c.call.caller_id.as_str(), caller_id) && !self.is_external_bound(c)
                && self.has_definition(c.call.callee_name.as_str())
        };
        let total: usize = rows::count(&self.calls, Ghost(callee_sites(self@, caller_id@)), test);
        let test = |c: &CallRow| -> (t: bool)
            ensures
                t == resolved_callee_sites(self@, caller_id@)(c@),
        {
            text::same(c.call.caller_id.as_str(), caller_id) && !self.is_external_bound(c)
                && self.has_definition(c.call.callee_name.as_str()) && self.has_sure_call_edge(
                caller_id,
                c.call.callee_name.as_str(),
            )
        };
        let resolved: usize = rows::count(
            &self.calls,
            Ghost(resolved_callee_sites(self@, caller_id@)),
            test,
        );
        Coverage::of(resolved, total)
    }

    /// The number of call sites that no resolver could bind in the repository.
    pub fn external_bound_call_sites(&self) -> (r: usize)
        ensures
            r == rows::kept(self@.calls, unresolvable(self@)).len(),
    {
        let test = |c: &CallRow| -> (t: bool)
            ensures
                t == unresolvable(self@)(c@),
        { self.is_external_bound(c) || !self.has_definition(c.call.callee_name.as_str()) };
        rows::count(&self.calls, Ghost(unresolvable(self@)), test)
    }

    /// The number of call sites that name something.
    pub fn call_site_count(&self, name: &str) -> (r: usize)
        ensures
            r == rows::kept(self@.calls, calls_naming(name@)).len(),
    {
        let test = |c: &CallRow| -> (t: bool)
            ensures
                t == calls_naming(name@)(c@),
        { text::same(c.call.callee_name.as_str(), name) };
        rows::count(&self.calls, Ghost(calls_naming(name@)), test)
    }

    /// Whether any call site names something.
    pub(crate) fn is_called(&self, name: &str) -> (r: bool)
        ensures
            r == rows::any(self@.calls, calls_naming(name@)),
    {
        let test = |c: &CallRow| -> (t: bool)
            ensures
                t == calls_naming(name@)(c@),
        { text::same(c.call.callee_name.as_str(), name) };
        rows::exists_row(&self.calls, Ghost(calls_naming(name@)), test)
    }

    /// Whether something with the name handles a route.
    pub(crate) fn handles_route(&self, name: &str) -> (r: bool)
        ensures
            r == rows::any(self@.nodes, route_to(name@)),
    {
        let test = |n: &Node| -> (t: bool)
            ensures
                t == route_to(name@)(n@),
        {
            n.label == NodeLabel::Route && match n.metadata.text("handler") {
                Some(h) => text::same(h.as_str(), name),
                None => false,
            }
        };
        rows::exists_row(&self.nodes, Ghost(route_to(name@)), test)
    }

    /// The functions and methods that look dead, in the order of file and line;
    /// see [`looks_dead`].
    pub fn dead_code_candidates(&self, limit: usize) -> (r: Vec<Node>)
        ensures
            types::node_views(r@) == rows::limited(
                order::arranged(rows::kept(self@.nodes, looks_dead(self@)), place_order()),
                limit as nat,
            ),
            r@.len() <= limit,
            forall|n: NodeModel| #[trigger]
                types::node_views(r@).contains(n) ==> self@.nodes.contains(n) && (n.label
                    == NodeLabel::Function || n.label == NodeLabel::Method) && !words::test_path(
                    n.file_path,
                ) && forall|c: CallRowModel| #[trigger]
                    self@.calls.contains(c) ==> c.call.callee_name != n.name,
            r@.len() < limit ==> forall|n: NodeModel| #[trigger]
                self@.nodes.contains(n) && (n.label == NodeLabel::Function || n.label
                    == NodeLabel::Method) && !words::test_path(n.file_path) && n.name != "main"@
                    && n.name != "init"@ && n.name != "new"@ && n.name != "setup"@ && n.name
                    != "run"@ && n.name != "constructor"@ && (forall|c: CallRowModel| #[trigger]
                    self@.calls.contains(c) ==> c.call.callee_name != n.name) && (forall|
                    m: NodeModel,
                | #[trigger]
                    self@.nodes.contains(m) && m.label == NodeLabel::Route ==> types::meta_text(
                        m.metadata,
                        "handler"@,
                    ) != Some(n.name)) ==> types::node_views(r@).contains(n),
    {
        proof {
            law_dead_code_is_not_called(self@, limit as nat);
        }
        let test = |n: &Node| -> (t: bool)
            ensures
                t == looks_dead(self@)(n@),
        {
            (n.label == NodeLabel::Function || n.label == NodeLabel::Method) && !entry_name(
                n.name.as_str(),
            ) && !words::is_test_path(n.file_path.as_str()) && !self.is_called(n.name.as_str())
                && !self.handles_route(n.name.as_str())
        };
        let found = rows::select(&self.nodes, Ghost(looks_dead(self@)), test);
        rows::limit(arrange_by_place(found), limit)
    }

    /// See [`is_tested`].
    pub fn has_test_reference(&self, name: &str) -> (r: bool)
        ensures
            r == is_tested(self@, name@),
    {
        let ghost by_edge = |e: EdgeModel|
            e.relation == EdgeRelation::Tests && is_named(self@.nodes, e.dst, name@);
        let test = |e: &Edge| -> (t: bool)
            ensures
                t == (e@.relation == EdgeRelation::Tests && is_named(self@.nodes, e@.dst, name@)),
        { e.relation == EdgeRelation::Tests && self.node_has_name(e.dst.as_str(), name) };
        if rows::exists_row(&self.edges, Ghost(by_edge), test) {
            return true;
        }
        let ghost by_call = |c: CallRowModel|
            c.call.callee_name == name@ && words::test_path(c.file_path);
        let test = |c: &CallRow| -> (t: bool)
            ensures
                t == (c@.call.callee_name == name@ && words::test_path(c@.file_path)),
        {
            text::same(c.call.callee_name.as_str(), name) && words::is_test_path(
                c.file_path.as_str(),
            )
        };
        rows::exists_row(&self.calls, Ghost(by_call), test)
    }

    /// The symbols of a file in the order of lines.
    pub fn symbols_in_file(&self, file: &str) -> (r: Vec<Node>)
        ensures
            types::node_views(r@) == order::arranged(
                rows::kept(self@.nodes, symbol_in(file@)),
                line_order(),
            ),
    {
        let test = |n: &Node| -> (t: bool)
            ensures
                t == symbol_in(file@)(n@),
        { text::same(n.file_path.as_str(), file) && type_like(n) };
        arrange_by_line(rows::select(&self.nodes, Ghost(symbol_in(file@)), test))
    }

    /// The callers of one definition.
    pub fn callers_of_id(&self, id: &str) -> (r: Vec<Node>)
        ensures
            types::node_views(r@) == rows::kept(self@.nodes, caller_of_id(self@.edges, id@)),
            forall|n: NodeModel| #[trigger]
                types::node_views(r@).contains(n) <==> self@.nodes.contains(n) && exists|
                    e: EdgeModel,
                | #[trigger]
                    self@.edges.contains(e) && e.relation == EdgeRelation::Calls && e.src == n.id
                        && e.dst == id@,
    {
        proof {
            law_callers_of_an_id(self@, id@);
        }
        let ghost f = |e: EdgeModel|
            if e.relation == EdgeRelation::Calls && e.dst == id@ {
                Some(e.src)
            } else {
                None
            };
        let get = |e: &Edge| -> (r: Option<String>)
            ensures
                types::opt_text(r) == (if e@.relation == EdgeRelation::Calls && e@.dst == id@ {
                    Some(e@.src)
                } else {
                    None
                }),
        {
            if e.relation == EdgeRelation::Calls && text::same(e.dst.as_str(), id) {
                Some(e.src.clone())
            } else {
                None
            }
        };
        let sources = rows::text_set(&self.edges, Ghost(f), get);
        proof {
            assert forall|n: NodeModel| #[trigger]
                sources@.contains(n.id) == caller_of_id(self@.edges, id@)(n) by {
                rows::lemma_first_at(self@.edges, rows::gives(f, n.id));
                rows::lemma_first_at(
                    self@.edges,
                    |e: EdgeModel|
                        e.relation == EdgeRelation::Calls && e.dst == id@ && e.src == n.id,
                );
            }
        }
        let test = |n: &Node| -> (t: bool)
            ensures
                t == sources@.contains(n@.id),
        { sources.contains(n.id.as_str()) };
        let r = rows::select(&self.nodes, Ghost(caller_of_id(self@.edges, id@)), test);
        assert(types::node_views(r@) == rows::kept(
            self@.nodes,
            caller_of_id(self@.edges, id@),
        ));
        r
    }

    /// The callers of whatever has a name.
    pub fn callers_of(&self, name: &str) -> (r: Vec<Node>)
        ensures
            types::node_views(r@) == rows::kept(self@.nodes, caller_of(self@, name@)),
            forall|n: NodeModel| #[trigger]
                types::node_views(r@).contains(n) <==> self@.nodes.contains(n) && exists|
                    e: EdgeModel,
                    m: NodeModel,
                | #[trigger]
                    self@.edges.contains(e) && #[trigger] self@.nodes.contains(m) && e.relation
                        == EdgeRelation::Calls && e.src == n.id && e.dst == m.id && m.name
                        == name@,
    {
        proof {
            law_callers_of_a_name(self@, name@);
        }
        let ghost f = |e: EdgeModel|
            if e.relation == EdgeRelation::Calls && is_named(self@.nodes, e.dst, name@) {
                Some(e.src)
            } else {
                None
            };
        let get = |e: &Edge| -> (r: Option<String>)
            ensures
                types::opt_text(r) == (if e@.relation == EdgeRelation::Calls && is_named(
                    self@.nodes,
                    e@.dst,
                    name@,
                ) {
                    Some(e@.src)
                } else {
                    None
                }),
        {
            if e.relation == EdgeRelation::Calls && self.node_has_name(e.dst.as_str(), name) {
                Some(e.src.clone())
            } else {
                None
            }
        };
        let sources = rows::text_set(&self.edges, Ghost(f), get);
        proof {
            assert forall|n: NodeModel| #[trigger]
                sources@.contains(n.id) == caller_of(self@, name@)(n) by {
                rows::lemma_first_at(self@.edges, rows::gives(f, n.id));
                rows::lemma_first_at(
                    self@.edges,
                    |e: EdgeModel|
                        e.relation == EdgeRelation::Calls && e.src == n.id && is_named(
                            self@.nodes,
                            e.dst,
                            name@,
                        ),
                );
            }
        }
        let test = |n: &Node| -> (t: bool)
            ensures
                t == sources@.contains(n@.id),
        { sources.contains(n.id.as_str()) };
        rows::select(&self.nodes, Ghost(caller_of(self@, name@)), test)
    }

    /// What implements or inherits something with a name.
    pub fn implementers_of(&self, name: &str) -> (r: Vec<Node>)
        ensures
            types::node_views(r@) == rows::kept(self@.nodes, implementer_of(self@, name@)),
            forall|n: NodeModel| #[trigger]
                types::node_views(r@).contains(n) <==> self@.nodes.contains(n) && exists|
                    e: EdgeModel,
                    m: NodeModel,
                | #[trigger]
                    self@.edges.contains(e) && #[trigger] self@.nodes.contains(m) && (e.relation
                        == EdgeRelation::Implements || e.relation == EdgeRelation::Inherits)
                        && e.src == n.id && e.dst == m.id && m.name == name@,
    {
        proof {
            law_implementers_of_a_name(self@, name@);
        }
        let ghost f = |e: EdgeModel|
            if (e.relation == EdgeRelation::Implements || e.relation == EdgeRelation::Inherits)
                && is_named(self@.nodes, e.dst, name@) {
                Some(e.src)
            } else {
                None
            };
        let get = |e: &Edge| -> (r: Option<String>)
            ensures
                types::opt_text(r) == (if (e@.relation == EdgeRelation::Implements || e@.relation
                    == EdgeRelation::Inherits) && is_named(self@.nodes, e@.dst, name@) {
                    Some(e@.src)
                } else {
                    None
                }),
        {
            if (e.relation == EdgeRelation::Implements || e.relation == EdgeRelation::Inherits)
                && self.node_has_name(e.dst.as_str(), name) {
                Some(e.src.clone())
            } else {
                None
            }
        };
        let sources = rows::text_set(&self.edges, Ghost(f), get);
        proof {
            assert forall|n: NodeModel| #[trigger]
                sources@.contains(n.id) == implementer_of(self@, name@)(n) by {
                rows::lemma_first_at(self@.edges, rows::gives(f, n.id));
                rows::lemma_first_at(
                    self@.edges,
                    |e: EdgeModel|
                        (e.relation == EdgeRelation::Implements || e.relation
                            == EdgeRelation::Inherits) && e.src == n.id && is_named(
                            self@.nodes,
                            e.dst,
                            name@,
                        ),
                );
            }
        }
        let test = |n: &Node| -> (t: bool)
            ensures
                t == sources@.contains(n@.id),
        { sources.contains(n.id.as_str()) };
        rows::select(&self.nodes, Ghost(implementer_of(self@, name@)), test)
    }

    /// The number of different callers of a node; see [`caller_count`].
    pub fn count_callers(&self, id: &str) -> (r: usize)
        ensures
            r == caller_count(self@.edges, id@),
    {
        let test = |e: &Edge| -> (t: bool)
            ensures
                t == calls_to(id@)(e@),
        { e.relation == EdgeRelation::Calls && text::same(e.dst.as_str(), id) };
        let found = rows::select(&self.edges, Ghost(calls_to(id@)), test);
        let get = |e: &Edge| -> (r: String)
            ensures
                r@ == e@.src,
        { e.src.clone() };
        let ghost f = |e: EdgeModel| e.src;
        let names = rows::distinct_texts(&found, Ghost(f), get);
        assert(text::views(names@).len() == names@.len());
        names.len()
    }
}

/// The callers of a definition are the nodes from which a call leads to it.
pub proof fn law_callers_of_an_id(s: StoreModel, id: Seq<char>)
    ensures
        forall|n: NodeModel| #[trigger]
            rows::kept(s.nodes, caller_of_id(s.edges, id)).contains(n) <==> s.nodes.contains(n)
                && exists|e: EdgeModel| #[trigger]
                s.edges.contains(e) && e.relation == EdgeRelation::Calls && e.src == n.id && e.dst
                    == id,
{
    let all = rows::kept(s.nodes, caller_of_id(s.edges, id));
    rows::lemma_kept(s.nodes, caller_of_id(s.edges, id));
    assert forall|n: NodeModel| #[trigger] all.contains(n) <==> s.nodes.contains(n) && exists|
        e: EdgeModel,
    | #[trigger]
        s.edges.contains(e) && e.relation == EdgeRelation::Calls && e.src == n.id && e.dst
            == id by {
        rows::lemma_any(
            s.edges,
            |e: EdgeModel| e.relation == EdgeRelation::Calls && e.dst == id && e.src == n.id,
        );
        assert(caller_of_id(s.edges, id)(n) == rows::any(
            s.edges,
            |e: EdgeModel| e.relation == EdgeRelation::Calls && e.dst == id && e.src == n.id,
        ));
    }
}

proof fn lemma_named(nodes: Seq<NodeModel>, id: Seq<char>, name: Seq<char>)
    ensures
        is_named(nodes, id, name) == (exists|m: NodeModel| #[trigger]
            nodes.contains(m) && m.id == id && m.name == name),
{
    rows::lemma_any(nodes, |n: NodeModel| n.id == id && n.name == name);
}

/// The callers of a name are the nodes from which a call leads to a node that
/// has it.
pub proof fn law_callers_of_a_name(s: StoreModel, name: Seq<char>)
    ensures
        forall|n: NodeModel| #[trigger]
            rows::kept(s.nodes, caller_of(s, name)).contains(n) <==> s.nodes.contains(n) && exists|
                e: EdgeModel,
                m: NodeModel,
            | #[trigger]
                s.edges.contains(e) && #[trigger] s.nodes.contains(m) && e.relation
                    == EdgeRelation::Calls && e.src == n.id && e.dst == m.id && m.name == name,
{
    let all = rows::kept(s.nodes, caller_of(s, name));
    rows::lemma_kept(s.nodes, caller_of(s, name));
    assert forall|n: NodeModel| #[trigger] all.contains(n) <==> s.nodes.contains(n) && exists|
        e: EdgeModel,
        m: NodeModel,
    | #[trigger]
        s.edges.contains(e) && #[trigger] s.nodes.contains(m) && e.relation == EdgeRelation::Calls
            && e.src == n.id && e.dst == m.id && m.name == name by {
        let test = |e: EdgeModel|
            e.relation == EdgeRelation::Calls && e.src == n.id && is_named(s.nodes, e.dst, name);
        rows::lemma_any(s.edges, test);
        assert(caller_of(s, name)(n) == rows::any(s.edges, test));
        assert forall|e: EdgeModel| true implies is_named(s.nodes, #[trigger] e.dst, name) == (
        exists|m: NodeModel| #[trigger]
            s.nodes.contains(m) && m.id == e.dst && m.name == name) by {
            lemma_named(s.nodes, e.dst, name);
        }
    }
}

/// What implements a name are the nodes from which an edge of inheritance leads
/// to a node that has it.
pub proof fn law_implementers_of_a_name(s: StoreModel, name: Seq<char>)
    ensures
        forall|n: NodeModel| #[trigger]
            rows::kept(s.nodes, implementer_of(s, name)).contains(n) <==> s.nodes.contains(n)
                && exists|e: EdgeModel, m: NodeModel| #[trigger]
                s.edges.contains(e) && #[trigger] s.nodes.contains(m) && (e.relation
                    == EdgeRelation::Implements || e.relation == EdgeRelation::Inherits) && e.src
                    == n.id && e.dst == m.id && m.name == name,
{
    let all = rows::kept(s.nodes, implementer_of(s, name));
    rows::lemma_kept(s.nodes, implementer_of(s, name));
    assert forall|n: NodeModel| #[trigger] all.contains(n) <==> s.nodes.contains(n) && exists|
        e: EdgeModel,
        m: NodeModel,
    | #[trigger]
        s.edges.contains(e) && #[trigger] s.nodes.contains(m) && (e.relation
            == EdgeRelation::Implements || e.relation == EdgeRelation::Inherits) && e.src == n.id
            && e.dst == m.id && m.name == name by {
        let test = |e: EdgeModel|
            (e.relation == EdgeRelation::Implements || e.relation == EdgeRelation::Inherits)
                && e.src == n.id && is_named(s.nodes, e.dst, name);
        rows::lemma_any(s.edges, test);
        assert(implementer_of(s, name)(n) == rows::any(s.edges, test));
        assert forall|e: EdgeModel| true implies is_named(s.nodes, #[trigger] e.dst, name) == (
        exists|m: NodeModel| #[trigger]
            s.nodes.contains(m) && m.id == e.dst && m.name == name) by {
            lemma_named(s.nodes, e.dst, name);
        }
    }
}

/// Where one node alone has a name, asking for its callers by the name and by
/// its id is the same.
pub proof fn law_one_name_one_answer(s: StoreModel, n: NodeModel)
    requires
        s.nodes.contains(n),
        forall|m: NodeModel| #[trigger] s.nodes.contains(m) && m.name == n.name ==> m.id == n.id,
    ensures
        rows::kept(s.nodes, caller_of(s, n.name)) == rows::kept(
            s.nodes,
            caller_of_id(s.edges, n.id),
        ),
{
    assert forall|x: NodeModel| caller_of(s, n.name)(x) == #[trigger] caller_of_id(
        s.edges,
        n.id,
    )(x) by {
        let by_name = |e: EdgeModel|
            e.relation == EdgeRelation::Calls && e.src == x.id && is_named(s.nodes, e.dst, n.name);
        let by_id = |e: EdgeModel|
            e.relation == EdgeRelation::Calls && e.dst == n.id && e.src == x.id;
        rows::lemma_any(s.edges, by_name);
        rows::lemma_any(s.edges, by_id);
        assert forall|e: EdgeModel| #[trigger] by_name(e) == by_id(e) by {
            lemma_named(s.nodes, e.dst, n.name);
        }
        assert(caller_of(s, n.name)(x) == rows::any(s.edges, by_name));
        assert(caller_of_id(s.edges, n.id)(x) == rows::any(s.edges, by_id));
        if rows::any(s.edges, by_name) {
            let e = choose|e: EdgeModel| #[trigger] s.edges.contains(e) && by_name(e);
            assert(by_id(e));
        }
        if rows::any(s.edges, by_id) {
            let e = choose|e: EdgeModel| #[trigger] s.edges.contains(e) && by_id(e);
            assert(by_name(e));
        }
    }
    lemma_kept_alike(s.nodes, caller_of(s, n.name), caller_of_id(s.edges, n.id));
}

proof fn lemma_kept_alike<M>(s: Seq<M>, a: spec_fn(M) -> bool, b: spec_fn(M) -> bool)
    requires
        forall|x: M| a(x) == #[trigger] b(x),
    ensures
        rows::kept(s, a) == rows::kept(s, b),
    decreases s.len(),
{
    if s.len() > 0 {
        lemma_kept_alike(s.drop_last(), a, b);
        assert(a(s.last()) == b(s.last()));
    }
}

/// What is listed as dead code is a function or method outside the tests that no
/// call site names; and where the list is not full, every one is in it that no
/// call site names, no route handles and that is no entry point by its name.
pub proof fn law_dead_code_is_not_called(s: StoreModel, limit: nat)
    ensures
        ({
            let r = rows::limited(
                order::arranged(rows::kept(s.nodes, looks_dead(s)), place_order()),
                limit,
            );
            &&& r.len() <= limit
            &&& forall|n: NodeModel| #[trigger]
                r.contains(n) ==> s.nodes.contains(n) && (n.label == NodeLabel::Function || n.label
                    == NodeLabel::Method) && !words::test_path(n.file_path) && forall|
                    c: CallRowModel,
                | #[trigger] s.calls.contains(c) ==> c.call.callee_name != n.name
            &&& r.len() < limit ==> forall|n: NodeModel| #[trigger]
                s.nodes.contains(n) && (n.label == NodeLabel::Function || n.label
                    == NodeLabel::Method) && !words::test_path(n.file_path) && n.name != "main"@
                    && n.name != "init"@ && n.name != "new"@ && n.name != "setup"@ && n.name
                    != "run"@ && n.name != "constructor"@ && (forall|c: CallRowModel| #[trigger]
                    s.calls.contains(c) ==> c.call.callee_name != n.name) && (forall|m: NodeModel|
                 #[trigger]
                    s.nodes.contains(m) && m.label == NodeLabel::Route ==> types::meta_text(
                        m.metadata,
                        "handler"@,
                    ) != Some(n.name)) ==> r.contains(n)
        }),
{
    let dead = rows::kept(s.nodes, looks_dead(s));
    let sorted = order::arranged(dead, place_order());
    let r = rows::limited(sorted, limit);
    rows::lemma_kept(s.nodes, looks_dead(s));
    order::law_arranged(dead, place_order());
    order::lemma_same_items(dead, place_order());
    assert forall|n: NodeModel| #[trigger] r.contains(n) implies s.nodes.contains(n) && (n.label
        == NodeLabel::Function || n.label == NodeLabel::Method) && !words::test_path(n.file_path)
        && forall|c: CallRowModel| #[trigger]
        s.calls.contains(c) ==> c.call.callee_name != n.name by {
        let i = choose|i: int| 0 <= i < r.len() && r[i] == n;
        assert(sorted[i] == n);
        assert(sorted.contains(n));
        assert(dead.contains(n));
        rows::lemma_any(s.calls, calls_naming(n.name));
    }
    if r.len() < limit {
        assert(r == sorted);
        assert forall|n: NodeModel| #[trigger]
            s.nodes.contains(n) && (n.label == NodeLabel::Function || n.label == NodeLabel::Method)
                && !words::test_path(n.file_path) && n.name != "main"@ && n.name != "init"@
                && n.name != "new"@ && n.name != "setup"@ && n.name != "run"@ && n.name
                != "constructor"@ && (forall|c: CallRowModel| #[trigger]
                s.calls.contains(c) ==> c.call.callee_name != n.name) && (forall|m: NodeModel|
             #[trigger]
                s.nodes.contains(m) && m.label == NodeLabel::Route ==> types::meta_text(
                    m.metadata,
                    "handler"@,
                ) != Some(n.name)) implies r.contains(n) by {
            rows::lemma_any(s.calls, calls_naming(n.name));
            rows::lemma_any(s.nodes, route_to(n.name));
            assert(looks_dead(s)(n));
            assert(dead.contains(n));
            assert(sorted.contains(n));
        }
    }
}

/// The coverage of callers never counts more resolved sites than there are.
pub proof fn law_callers_coverage_is_bounded(s: StoreModel, name: Seq<char>)
    ensures
        rows::kept(s.calls, resolved_caller_sites(s, name)).len() <= rows::kept(
            s.calls,
            caller_sites(s, name),
        ).len(),
{
    lemma_kept_fewer(s.calls, resolved_caller_sites(s, name), caller_sites(s, name));
}

/// The coverage of callees never counts more resolved sites than there are.
pub proof fn law_callees_coverage_is_bounded(s: StoreModel, caller: Seq<char>)
    ensures
        rows::kept(s.calls, resolved_callee_sites(s, caller)).len() <= rows::kept(
            s.calls,
            callee_sites(s, caller),
        ).len(),
{
    lemma_kept_fewer(s.calls, resolved_callee_sites(s, caller), callee_sites(s, caller));
}

proof fn lemma_kept_fewer<M>(s: Seq<M>, a: spec_fn(M) -> bool, b: spec_fn(M) -> bool)
    requires
        forall|m: M| #[trigger] a(m) ==> b(m),
    ensures
        rows::kept(s, a).len() <= rows::kept(s, b).len(),
    decreases s.len(),
{
    if s.len() > 0 {
        lemma_kept_fewer(s.drop_last(), a, b);
    }
}

} // verus!
