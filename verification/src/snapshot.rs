//! A graph that is kept in memory, and what is asked of it.

use vstd::hash_map::*;
use vstd::prelude::*;
use vstd::string::*;

use crate::graph;
use crate::graph::LoadedGraph;
use crate::order;
use crate::query;
use crate::rebuild;
use crate::rows;
use crate::store::{Store, StoreModel};
use crate::store_edges;
use crate::store_lists;
use crate::store_queries;
use crate::store_queries::Coverage;
use crate::text;
use crate::tools;
use crate::tools::{Fallback, NameArgs, TwoNamesArgs};
use crate::types;
use crate::types::{EdgeModel, Node, NodeModel};

verus! {

/// The nodes of an index and the graph of its edges, with the places of the
/// nodes by id and by name.
pub struct GraphSnapshot {
    lg: LoadedGraph,
    nodes: Vec<Node>,
    by_id: StringHashMap<usize>,
    by_name: StringHashMap<usize>,
}

/// Whether an entry of a table gives the first node with a name.
spec fn name_entry(m: Map<Seq<char>, usize>, nodes: Seq<NodeModel>, name: Seq<char>) -> bool {
    if m.contains_key(name) {
        m[name] < nodes.len() && nodes[m[name] as int].name == name && forall|j: int|
            0 <= j < m[name] ==> (#[trigger] nodes[j]).name != name
    } else {
        forall|j: int| 0 <= j < nodes.len() ==> (#[trigger] nodes[j]).name != name
    }
}

/// Whether an entry of a table gives the node with an id.
spec fn place_entry(m: Map<Seq<char>, usize>, nodes: Seq<NodeModel>, id: Seq<char>) -> bool {
    match graph::node_with_id(nodes, id) {
        Some(n) => m.contains_key(id) && m[id] < nodes.len() && nodes[m[id] as int] == n,
        None => !m.contains_key(id),
    }
}

/// The edges as a graph reads them.
pub open spec fn snapshot_edges(s: StoreModel) -> Seq<EdgeModel> {
    order::arranged(s.edges.map_values(store_edges::light_edge()), store_edges::edge_order())
}

/// The nodes as a graph reads them.
pub open spec fn snapshot_nodes(s: StoreModel) -> Seq<NodeModel> {
    rebuild::resolver_nodes(s)
}

impl GraphSnapshot {
    /// The nodes of the snapshot.
    pub closed spec fn known(&self) -> Seq<NodeModel> {
        types::node_views(self.nodes@)
    }

    /// The graph of the snapshot.
    pub closed spec fn graph(&self) -> graph::GraphModel {
        self.lg.model()
    }

    /// Whether the tables give the places of the nodes.
    pub closed spec fn wf(&self) -> bool {
        &&& self.lg.wf()
        &&& forall|id: Seq<char>| #[trigger] place_entry(self.by_id@, self.known(), id)
        &&& forall|name: Seq<char>| #[trigger] name_entry(self.by_name@, self.known(), name)
    }

    /// The graph of an index as it is now.
    pub fn of(store: &Store) -> (r: GraphSnapshot)
        requires
            store@.nodes.len() < u32::MAX,
            store@.edges.len() < u32::MAX,
        ensures
            r.wf(),
            r.known() == snapshot_nodes(store@),
            r.graph() == graph::loaded(snapshot_nodes(store@), snapshot_edges(store@)),
    {
        let nodes = store.graph_nodes();
        let edges = store.graph_edges();
        let ghost all = types::node_views(nodes@);
        proof {
            order::law_arranged(
                store@.nodes.map_values(store_edges::light_node()),
                store_edges::id_order(),
            );
            order::law_arranged(
                store@.edges.map_values(store_edges::light_edge()),
                store_edges::edge_order(),
            );
            assert(all.len() == nodes@.len());
            assert(types::edge_views(edges@).len() == edges@.len());
        }
        let lg = LoadedGraph::load(nodes.as_slice(), edges.as_slice());
        let mut by_id: StringHashMap<usize> = StringHashMap::new();
        let mut by_name: StringHashMap<usize> = StringHashMap::new();
        let mut i: usize = 0;
        assert(all.take(0) =~= Seq::empty());
        while i < nodes.len()
            invariant
                i <= nodes.len(),
                all == types::node_views(nodes@),
                forall|id: Seq<char>| #[trigger] place_entry(by_id@, all.take(i as int), id),
                forall|name: Seq<char>| #[trigger]
                    name_entry(by_name@, all.take(i as int), name),
            decreases nodes.len() - i,
        {
            let n = &nodes[i];
            let ghost before = all.take(i as int);
            let ghost now = all.take(i + 1);
            let ghost (ids, names) = (by_id@, by_name@);
            assert(now.drop_last() =~= before);
            assert(now.last() == n@);
            by_id.insert(n.id.clone(), i);
            if !by_name.contains_key(n.name.as_str()) {
                by_name.insert(n.name.clone(), i);
            }
            proof {
                assert forall|id: Seq<char>| #[trigger] place_entry(by_id@, now, id) by {
                    assert(place_entry(ids, before, id));
                    if id != n.id@ && ids.contains_key(id) {
                        assert(now[ids[id] as int] == before[ids[id] as int]);
                    }
                }
                assert forall|name: Seq<char>| #[trigger] name_entry(by_name@, now, name) by {
                    assert(name_entry(names, before, name));
                    assert forall|j: int| 0 <= j < before.len() implies now[j] == #[trigger] before[j] by {}
                }
            }
            i += 1;
        }
        assert(all.take(nodes@.len() as int) =~= all);
        GraphSnapshot { lg, nodes, by_id, by_name }
    }

    /// The node with an id.
    pub fn node_by_id<'a>(&'a self, id: &str) -> (r: Option<&'a Node>)
        requires
            self.wf(),
        ensures
            match r {
                Some(n) => graph::node_with_id(self.known(), id@) == Some(n@),
                None => graph::node_with_id(self.known(), id@) is None,
            },
    {
        assert(place_entry(self.by_id@, self.known(), id@));
        assert(self.known().len() == self.nodes@.len());
        match self.by_id.get(id) {
            Some(k) => {
                assert(self.known()[*k as int] == self.nodes@[*k as int]@);
                Some(&self.nodes[*k])
            },
            None => None,
        }
    }

    /// The first node with a name.
    pub fn node_by_name<'a>(&'a self, name: &str) -> (r: Option<&'a Node>)
        requires
            self.wf(),
        ensures
            match r {
                Some(n) => rows::first(self.known(), query::named(name@)) == Some(n@),
                None => rows::first(self.known(), query::named(name@)) is None,
            },
    {
        assert(name_entry(self.by_name@, self.known(), name@));
        assert(self.known().len() == self.nodes@.len());
        match self.by_name.get(name) {
            Some(k) => {
                proof {
                    rows::lemma_first_is(self.known(), query::named(name@), *k as int);
                    assert(self.known()[*k as int] == self.nodes@[*k as int]@);
                }
                Some(&self.nodes[*k])
            },
            None => {
                proof {
                    rows::lemma_first_is(
                        self.known(),
                        query::named(name@),
                        self.known().len() as int,
                    );
                }
                None
            },
        }
    }

    /// How one symbol reaches another: the ids on a shortest path between the
    /// first nodes with the two names; none where there is no path.
    pub fn trace_path(&self, args: &TwoNamesArgs) -> (r: Vec<String>)
        requires
            self.wf(),
        ensures
            match (
                rows::first(self.known(), query::named(args.from@)),
                rows::first(self.known(), query::named(args.to@)),
            ) {
                (Some(a), Some(b)) => is_trace(self.graph(), a.id, b.id, text::views(r@)),
                _ => r@.len() == 0,
            },
    {
        let none: Vec<String> = Vec::new();
        assert(text::views(none@) =~= Seq::empty());
        match (
            self.node_by_name(args.from.as_str()),
            self.node_by_name(args.to.as_str()),
        ) {
            (Some(a), Some(b)) => match self.lg.shortest_path(a.id.as_str(), b.id.as_str()) {
                Some(p) => p,
                None => none,
            },
            _ => none,
        }
    }

    /// The ids of those that depend on a node, the nearest first, in at most
    /// five steps.
    fn dependents(&self, id: &str) -> (r: Vec<String>)
        requires
            self.wf(),
        ensures
            text::views(r@) == graph::radius_of(self.graph(), id@, 5),
    {
        self.lg.blast_radius(id, 5)
    }

    /// What depends on a symbol; see [`blast_of`].
    pub fn blast_radius(&self, store: &Store, args: &NameArgs) -> (r: BlastAnswer)
        requires
            self.wf(),
        ensures
            r@ == blast_of(store@, self.known(), self.graph(), args.name@),
    {
        let name = args.name.as_str();
        let (affected, coverage) = match self.node_by_name(name) {
            Some(n) => (
                self.dependents(n.id.as_str()),
                store.coverage_for_callers(n.name.as_str()),
            ),
            None => {
                let none: Vec<String> = Vec::new();
                assert(text::views(none@) =~= Seq::empty());
                (none, Coverage::of(0, 0))
            },
        };
        let ghost all = text::views(affected@);
        let total: usize = affected.len();
        assert(all.len() == total);
        let shown: usize = if total < 200 {
            total
        } else {
            200
        };
        let mut listed: Vec<Reached> = Vec::new();
        let mut i: usize = 0;
        while i < shown
            invariant
                i <= shown <= affected@.len(),
                self.wf(),
                all == text::views(affected@),
                rows::seen(listed@) == all.take(i as int).map_values(reached(self.known())),
            decreases shown - i,
        {
            let ghost was = rows::seen(listed@);
            assert(all[i as int] == affected@[i as int]@);
            let row = match self.node_by_id(affected[i].as_str()) {
                Some(n) => Reached::Symbol {
                    name: n.name.clone(),
                    file: n.file_path.clone(),
                    line: n.line_start,
                },
                None => Reached::Id(affected[i].clone()),
            };
            listed.push(row);
            assert(rows::seen(listed@) =~= was.push(row@));
            assert(all.take(i + 1).map_values(reached(self.known())) =~= was.push(row@));
            i += 1;
        }
        assert(all.take(shown as int) =~= rows::limited(all, 200));
        let fallback = tools::fallback_hint(&coverage, name);
        BlastAnswer { affected: listed, total_affected: total, coverage, fallback }
    }

    /// What a symbol calls; see [`callees_of`].
    pub fn callees(&self, store: &Store, args: &NameArgs) -> (r: CalleesAnswer)
        requires
            self.wf(),
        ensures
            r@ == callees_of(store@, self.known(), self.graph(), args.name@),
    {
        let name = args.name.as_str();
        match self.node_by_name(name) {
            Some(n) => {
                let ids = self.lg.callees(n.id.as_str());
                let ghost all = text::views(ids@);
                let mut found: Vec<Node> = Vec::new();
                let mut i: usize = 0;
                assert(types::node_views(found@) =~= nodes_at(self.known(), all.take(0)));
                while i < ids.len()
                    invariant
                        i <= ids.len(),
                        self.wf(),
                        all == text::views(ids@),
                        types::node_views(found@) == nodes_at(self.known(), all.take(i as int)),
                    decreases ids.len() - i,
                {
                    let ghost was = types::node_views(found@);
                    assert(all.take(i + 1).drop_last() =~= all.take(i as int));
                    assert(all.take(i + 1).last() == ids@[i as int]@);
                    if let Some(c) = self.node_by_id(ids[i].as_str()) {
                        found.push(c.clone());
                        assert(types::node_views(found@) =~= was.push(c@));
                    }
                    i += 1;
                }
                assert(all.take(ids@.len() as int) =~= all);
                let mut unresolved = store.unresolved_callee_names(n.id.as_str());
                let ghost names = text::views(unresolved@);
                unresolved.truncate(30);
                assert(text::views(unresolved@) =~= rows::limited(names, 30));
                let coverage = store.coverage_for_callees(n.id.as_str());
                let fallback = tools::fallback_hint(&coverage, name);
                CalleesAnswer { callees: found, coverage, unresolved, fallback }
            },
            None => {
                let callees: Vec<Node> = Vec::new();
                let unresolved: Vec<String> = Vec::new();
                assert(types::node_views(callees@) =~= Seq::empty());
                assert(text::views(unresolved@) =~= Seq::empty());
                let coverage = Coverage::of(0, 0);
                let fallback = tools::fallback_hint(&coverage, name);
                CalleesAnswer { callees, coverage, unresolved, fallback }
            },
        }
    }
}

/// Whether ids are those on a shortest path between two nodes; there are none
/// where there is no path.
pub open spec fn is_trace(
    g: graph::GraphModel,
    a: Seq<char>,
    b: Seq<char>,
    path: Seq<Seq<char>>,
) -> bool {
    if g.index.contains_key(a) && g.index.contains_key(b) && exists|w: Seq<nat>| #[trigger]
        graph::leads(g.edges, w, g.index[a], g.index[b]) {
        exists|w: Seq<nat>| #[trigger]
            graph::is_shortest(g.edges, w, g.index[a], g.index[b]) && path == graph::ids_at(g, w)
    } else {
        path.len() == 0
    }
}

/// Something that a change may reach.
#[derive(Debug, PartialEq, Eq)]
pub enum Reached {
    Symbol { name: String, file: String, line: u32 },
    Id(String),
}

/// The model of a [`Reached`].
pub enum ReachedModel {
    Symbol(Seq<char>, Seq<char>, u32),
    Id(Seq<char>),
}

impl View for Reached {
    type V = ReachedModel;

    open spec fn view(&self) -> ReachedModel {
        match *self {
            Reached::Symbol { name, file, line } => ReachedModel::Symbol(name@, file@, line),
            Reached::Id(id) => ReachedModel::Id(id@),
        }
    }
}

/// An id with what is known of its node.
pub open spec fn reached(nodes: Seq<NodeModel>) -> spec_fn(Seq<char>) -> ReachedModel {
    |id: Seq<char>|
        match graph::node_with_id(nodes, id) {
            Some(n) => ReachedModel::Symbol(n.name, n.file_path, n.line_start),
            None => ReachedModel::Id(id),
        }
}

/// The answer to what depends on a symbol.
#[derive(Debug, PartialEq, Eq)]
pub struct BlastAnswer {
    pub affected: Vec<Reached>,
    pub total_affected: usize,
    pub coverage: Coverage,
    pub fallback: Option<Fallback>,
}

/// The model of a [`BlastAnswer`].
pub struct BlastModel {
    pub affected: Seq<ReachedModel>,
    pub total_affected: nat,
    pub coverage: Coverage,
    pub fallback: Option<(Seq<char>, Seq<char>)>,
}

impl View for BlastAnswer {
    type V = BlastModel;

    open spec fn view(&self) -> BlastModel {
        BlastModel {
            affected: rows::seen(self.affected@),
            total_affected: self.total_affected as nat,
            coverage: self.coverage,
            fallback: tools::fallback_view(self.fallback),
        }
    }
}

/// What depends on the first node with a name: at most two hundred of them, and
/// how many there are.
pub open spec fn blast_of(
    s: StoreModel,
    nodes: Seq<NodeModel>,
    g: graph::GraphModel,
    name: Seq<char>,
) -> BlastModel {
    let (affected, coverage) = match rows::first(nodes, query::named(name)) {
        Some(n) => (graph::radius_of(g, n.id, 5), tools::callers_coverage(s, n.name)),
        None => (Seq::empty(), store_queries::coverage_of(0, 0)),
    };
    BlastModel {
        affected: rows::limited(affected, 200).map_values(reached(nodes)),
        total_affected: affected.len(),
        coverage,
        fallback: tools::fallback_for(coverage, name),
    }
}

/// The nodes with the given ids, as far as there are such nodes.
pub open spec fn nodes_at(nodes: Seq<NodeModel>, ids: Seq<Seq<char>>) -> Seq<NodeModel>
    decreases ids.len(),
{
    if ids.len() == 0 {
        Seq::empty()
    } else {
        let rest = nodes_at(nodes, ids.drop_last());
        match graph::node_with_id(nodes, ids.last()) {
            Some(n) => rest.push(n),
            None => rest,
        }
    }
}

/// The answer to what a symbol calls.
#[derive(Debug)]
pub struct CalleesAnswer {
    pub callees: Vec<Node>,
    pub coverage: Coverage,
    pub unresolved: Vec<String>,
    pub fallback: Option<Fallback>,
}

/// The model of a [`CalleesAnswer`].
pub struct CalleesModel {
    pub callees: Seq<NodeModel>,
    pub coverage: Coverage,
    pub unresolved: Seq<Seq<char>>,
    pub fallback: Option<(Seq<char>, Seq<char>)>,
}

impl View for CalleesAnswer {
    type V = CalleesModel;

    open spec fn view(&self) -> CalleesModel {
        CalleesModel {
            callees: types::node_views(self.callees@),
            coverage: self.coverage,
            unresolved: text::views(self.unresolved@),
            fallback: tools::fallback_view(self.fallback),
        }
    }
}

/// How many of the call sites of a caller led to an edge.
pub open spec fn callees_coverage(s: StoreModel, caller: Seq<char>) -> Coverage {
    store_queries::coverage_of(
        rows::kept(s.calls, store_queries::resolved_callee_sites(s, caller)).len(),
        rows::kept(s.calls, store_queries::callee_sites(s, caller)).len(),
    )
}

/// What the first node with a name calls, and at most thirty of the names that
/// led to no edge.
pub open spec fn callees_of(
    s: StoreModel,
    nodes: Seq<NodeModel>,
    g: graph::GraphModel,
    name: Seq<char>,
) -> CalleesModel {
    match rows::first(nodes, query::named(name)) {
        Some(n) => CalleesModel {
            callees: nodes_at(
                nodes,
                if g.index.contains_key(n.id) {
                    graph::ids_at(g, graph::outgoing(g.edges, g.index[n.id], "Calls"@))
                } else {
                    Seq::empty()
                },
            ),
            coverage: callees_coverage(s, n.id),
            unresolved: rows::limited(store_lists::unanswered_names(s, n.id), 30),
            fallback: tools::fallback_for(callees_coverage(s, n.id), name),
        },
        None => CalleesModel {
            callees: Seq::empty(),
            coverage: store_queries::coverage_of(0, 0),
            unresolved: Seq::empty(),
            fallback: tools::fallback_for(store_queries::coverage_of(0, 0), name),
        },
    }
}

} // verus!
