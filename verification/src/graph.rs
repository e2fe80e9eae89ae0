//! The resolved graph: which edges a set of nodes and calls has, and
//! traversals over it.

use petgraph::stable_graph::{NodeIndex, StableGraph};
use petgraph::visit::EdgeRef;
use vstd::hash_map::StringHashMap;
use vstd::prelude::*;
use vstd::string::*;

use crate::pairs::PairMap;
use crate::text;
use crate::types;
use crate::types::{
    CallModel, Confidence, Edge, EdgeKey, EdgeModel, EdgeRelation, MetaValue, Metadata, Node,
    NodeLabel, NodeModel, RawCall, ResolutionTier,
};

verus! {

/// `petgraph::stable_graph::StableGraph`, a graph whose node and edge indices
/// stay valid.
#[verifier::external_type_specification]
#[verifier::external_body]
#[verifier::reject_recursive_types(N)]
#[verifier::reject_recursive_types(E)]
#[verifier::reject_recursive_types(Ty)]
#[verifier::reject_recursive_types(Ix)]
pub struct ExStableGraph<N, E, Ty, Ix>(StableGraph<N, E, Ty, Ix>);

/// `petgraph::Directed`, the marker of graphs whose edges have a direction.
#[verifier::external_type_specification]
#[verifier::external_body]
pub struct ExDirected(petgraph::Directed);

/// Directed graph from node id to node id; an edge carries the name of its
/// relation.
pub type CodeGraph = StableGraph<String, String>;

/// The ids that a graph's nodes carry, by node index.
pub uninterp spec fn graph_nodes(g: CodeGraph) -> Seq<Seq<char>>;

/// A graph's edges in the order in which they were added: the indices of
/// source and target, and the relation.
pub uninterp spec fn graph_edges(g: CodeGraph) -> Seq<(nat, nat, Seq<char>)>;

/// `StableGraph::new`: a graph without nodes and edges.
#[verifier::external_body]
fn new_graph() -> (g: CodeGraph)
    ensures
        graph_nodes(g) == Seq::<Seq<char>>::empty(),
        graph_edges(g) == Seq::<(nat, nat, Seq<char>)>::empty(),
{
    StableGraph::new()
}

/// `StableGraph::add_node` on a graph from which nothing was removed: the new
/// node gets the next index. It panics where no index of 32 bits is left.
#[verifier::external_body]
fn add_node(g: &mut CodeGraph, id: String) -> (i: usize)
    requires
        graph_nodes(*old(g)).len() < u32::MAX,
    ensures
        i == graph_nodes(*old(g)).len(),
        graph_nodes(*final(g)) == graph_nodes(*old(g)).push(id@),
        graph_edges(*final(g)) == graph_edges(*old(g)),
{
    g.add_node(id).index()
}

/// `StableGraph::add_edge`: the edge is added, a second one between the same
/// nodes too. It panics where an end is no node and where no index of 32 bits
/// is left.
#[verifier::external_body]
fn add_edge(g: &mut CodeGraph, a: usize, b: usize, relation: String)
    requires
        a < graph_nodes(*old(g)).len(),
        b < graph_nodes(*old(g)).len(),
        graph_edges(*old(g)).len() < u32::MAX,
    ensures
        graph_nodes(*final(g)) == graph_nodes(*old(g)),
        graph_edges(*final(g)) == graph_edges(*old(g)).push((a as nat, b as nat, relation@)),
{
    g.add_edge(NodeIndex::new(a), NodeIndex::new(b), relation);
}

/// The sources of the edges into `n`, the edge added last first.
pub open spec fn incoming(edges: Seq<(nat, nat, Seq<char>)>, n: nat) -> Seq<nat>
    decreases edges.len(),
{
    if edges.len() == 0 {
        Seq::empty()
    } else {
        let rest = incoming(edges.drop_last(), n);
        if edges.last().1 == n {
            seq![edges.last().0] + rest
        } else {
            rest
        }
    }
}

/// The targets of the edges out of `n` that carry `relation`, the edge added
/// last first.
pub open spec fn outgoing(
    edges: Seq<(nat, nat, Seq<char>)>,
    n: nat,
    relation: Seq<char>,
) -> Seq<nat>
    decreases edges.len(),
{
    if edges.len() == 0 {
        Seq::empty()
    } else {
        let rest = outgoing(edges.drop_last(), n, relation);
        if edges.last().0 == n && edges.last().2 == relation {
            seq![edges.last().1] + rest
        } else {
            rest
        }
    }
}

/// Whether an edge leads from `a` to `b`.
pub open spec fn linked(edges: Seq<(nat, nat, Seq<char>)>, a: nat, b: nat) -> bool {
    exists|i: int| 0 <= i < edges.len() && (#[trigger] edges[i]).0 == a && edges[i].1 == b
}

/// Whether each node of `w` is linked to the next.
pub open spec fn is_walk(edges: Seq<(nat, nat, Seq<char>)>, w: Seq<nat>) -> bool {
    w.len() > 0 && forall|i: int|
        0 <= i < w.len() - 1 ==> linked(edges, #[trigger] w[i], w[i + 1])
}

/// Whether `w` leads from `a` to `b`.
pub open spec fn leads(edges: Seq<(nat, nat, Seq<char>)>, w: Seq<nat>, a: nat, b: nat) -> bool {
    is_walk(edges, w) && w[0] == a && w.last() == b
}

/// Indices as mathematical numbers.
pub open spec fn nats(v: Seq<usize>) -> Seq<nat> {
    v.map_values(|i: usize| i as nat)
}

/// `StableGraph::neighbors_directed` with `Incoming`: the sources of the edges
/// into a node, the edge added last first.
#[verifier::external_body]
fn predecessors(g: &CodeGraph, n: usize) -> (r: Vec<usize>)
    requires
        n < graph_nodes(*g).len(),
    ensures
        nats(r@) == incoming(graph_edges(*g), n as nat),
{
    g.neighbors_directed(NodeIndex::new(n), petgraph::Direction::Incoming).map(
        |i| i.index(),
    ).collect()
}

/// `StableGraph::edges`: the edges out of a node, each with its target and its
/// relation, the edge added last first.
#[verifier::external_body]
fn edges_from(g: &CodeGraph, n: usize) -> (r: Vec<(usize, String)>)
    requires
        n < graph_nodes(*g).len(),
    ensures
        r@.map_values(|e: (usize, String)| (e.0 as nat, e.1@)) == all_outgoing(
            graph_edges(*g),
            n as nat,
        ),
{
    g.edges(NodeIndex::new(n)).map(|e| (e.target().index(), e.weight().clone())).collect()
}

/// The targets and relations of the edges out of `n`, the edge added last
/// first.
pub open spec fn all_outgoing(edges: Seq<(nat, nat, Seq<char>)>, n: nat) -> Seq<(nat, Seq<char>)>
    decreases edges.len(),
{
    if edges.len() == 0 {
        Seq::empty()
    } else {
        let rest = all_outgoing(edges.drop_last(), n);
        if edges.last().0 == n {
            seq![(edges.last().1, edges.last().2)] + rest
        } else {
            rest
        }
    }
}

/// `petgraph::algo::astar` with every edge at cost one and no estimate: one of
/// the shortest walks from `s` to `t`, or nothing where there is no walk.
/// Which of several shortest walks comes out is left open.
#[verifier::external_body]
fn shortest_walk(g: &CodeGraph, s: usize, t: usize) -> (r: Option<Vec<usize>>)
    requires
        s < graph_nodes(*g).len(),
        t < graph_nodes(*g).len(),
    ensures
        match r {
            Some(p) => leads(graph_edges(*g), nats(p@), s as nat, t as nat) && forall|w: Seq<nat>|
                leads(graph_edges(*g), w, s as nat, t as nat) ==> p@.len() <= #[trigger] w.len(),
            None => forall|w: Seq<nat>| !#[trigger] leads(graph_edges(*g), w, s as nat, t as nat),
        },
{
    let goal = NodeIndex::new(t);
    let found = petgraph::algo::astar(g, NodeIndex::new(s), |n| n == goal, |_| 1u64, |_| 0u64);
    found.map(|(_, path)| path.into_iter().map(|n| n.index()).collect())
}

/// Whether an edge with the key stands among the edges.
pub open spec fn has_key(edges: Seq<EdgeModel>, key: EdgeKey) -> bool {
    exists|i: int| 0 <= i < edges.len() && (#[trigger] edges[i]).key() == key
}

/// The edges with `e` added, unless one with its key is there already.
pub open spec fn add_once(edges: Seq<EdgeModel>, e: EdgeModel) -> Seq<EdgeModel> {
    if has_key(edges, e.key()) {
        edges
    } else {
        edges.push(e)
    }
}

/// The last node with the given id.
pub open spec fn node_with_id(nodes: Seq<NodeModel>, id: Seq<char>) -> Option<NodeModel>
    decreases nodes.len(),
{
    if nodes.len() == 0 {
        None
    } else if nodes.last().id == id {
        Some(nodes.last())
    } else {
        node_with_id(nodes.drop_last(), id)
    }
}

/// The id of the last `File` node with the given path.
pub open spec fn file_id(nodes: Seq<NodeModel>, path: Seq<char>) -> Option<Seq<char>>
    decreases nodes.len(),
{
    if nodes.len() == 0 {
        None
    } else if nodes.last().label == NodeLabel::File && nodes.last().file_path == path {
        Some(nodes.last().id)
    } else {
        file_id(nodes.drop_last(), path)
    }
}

/// Whether a node is a function of that name in that file.
pub open spec fn is_function(n: NodeModel, file: Seq<char>, name: Seq<char>) -> bool {
    n.label == NodeLabel::Function && n.file_path == file && n.name == name
}

/// Whether `id` is the one id that functions of that name in that file have.
pub open spec fn only_function(
    nodes: Seq<NodeModel>,
    file: Seq<char>,
    name: Seq<char>,
    id: Seq<char>,
) -> bool {
    &&& exists|i: int|
        0 <= i < nodes.len() && is_function(#[trigger] nodes[i], file, name) && nodes[i].id == id
    &&& forall|i: int|
        0 <= i < nodes.len() && is_function(#[trigger] nodes[i], file, name) ==> nodes[i].id == id
}

/// What a called name stands for in a file: the one function of that name
/// there. Where there is none, or more than one, it stands for nothing.
pub open spec fn resolve(nodes: Seq<NodeModel>, file: Seq<char>, name: Seq<char>) -> Option<
    Seq<char>,
> {
    if exists|id: Seq<char>| only_function(nodes, file, name, id) {
        Some(choose|id: Seq<char>| only_function(nodes, file, name, id))
    } else {
        None
    }
}

/// The edge by which a file defines `n`.
pub open spec fn defines_edge(file: Seq<char>, n: NodeModel) -> EdgeModel {
    EdgeModel {
        src: file,
        dst: n.id,
        relation: EdgeRelation::Defines,
        tier: ResolutionTier::TreeSitter,
        confidence: Confidence::Extracted,
        src_file: n.file_path,
        src_line: n.line_start,
        metadata: Seq::empty(),
    }
}

/// The edges by which files define the first `k` nodes.
pub open spec fn define_edges(nodes: Seq<NodeModel>, k: nat) -> Seq<EdgeModel>
    decreases k,
{
    if k == 0 {
        Seq::empty()
    } else {
        let done = define_edges(nodes, (k - 1) as nat);
        let n = nodes[k - 1];
        if n.label == NodeLabel::File {
            done
        } else {
            match file_id(nodes, n.file_path) {
                Some(f) => add_once(done, defines_edge(f, n)),
                None => done,
            }
        }
    }
}

/// The metadata of a call resolved to the one function of its name in its
/// file.
pub open spec fn same_file_tag() -> types::MetaEntries {
    seq![("justification"@, types::MetaModel::Text("SameFileUnique"@))]
}

/// The edge of a call, where its caller is a node and the called name stands
/// for something in the caller's file.
pub open spec fn call_edge(nodes: Seq<NodeModel>, c: CallModel) -> Option<EdgeModel> {
    match node_with_id(nodes, c.caller_id) {
        None => None,
        Some(caller) => match resolve(nodes, caller.file_path, c.callee_name) {
            None => None,
            Some(callee) => Some(
                EdgeModel {
                    src: c.caller_id,
                    dst: callee,
                    relation: EdgeRelation::Calls,
                    tier: ResolutionTier::TreeSitter,
                    confidence: Confidence::Inferred,
                    src_file: caller.file_path,
                    src_line: c.line,
                    metadata: same_file_tag(),
                },
            ),
        },
    }
}

/// The edges after the first `k` calls, beginning with `edges`.
pub open spec fn call_edges(
    nodes: Seq<NodeModel>,
    calls: Seq<CallModel>,
    edges: Seq<EdgeModel>,
    k: nat,
) -> Seq<EdgeModel>
    decreases k,
{
    if k == 0 {
        edges
    } else {
        let done = call_edges(nodes, calls, edges, (k - 1) as nat);
        match call_edge(nodes, calls[k - 1]) {
            Some(e) => add_once(done, e),
            None => done,
        }
    }
}

/// Every edge of a set of nodes and calls.
pub open spec fn built_edges(nodes: Seq<NodeModel>, calls: Seq<CallModel>) -> Seq<EdgeModel> {
    call_edges(nodes, calls, define_edges(nodes, nodes.len()), calls.len())
}


/// A name stands for at most one function.
proof fn lemma_resolve(nodes: Seq<NodeModel>, file: Seq<char>, name: Seq<char>, id: Seq<char>)
    requires
        only_function(nodes, file, name, id),
    ensures
        resolve(nodes, file, name) == Some(id),
{
    let r = choose|id: Seq<char>| only_function(nodes, file, name, id);
    assert(only_function(nodes, file, name, r));
}

proof fn lemma_node_with_id(nodes: Seq<NodeModel>, id: Seq<char>, k: int)
    requires
        0 <= k < nodes.len(),
        nodes[k].id == id,
        forall|i: int| k < i < nodes.len() ==> (#[trigger] nodes[i]).id != id,
    ensures
        node_with_id(nodes, id) == Some(nodes[k]),
    decreases nodes.len(),
{
    if k < nodes.len() - 1 {
        assert(nodes[nodes.len() - 1].id != id);
        let t = nodes.drop_last();
        assert forall|i: int| k < i < t.len() implies (#[trigger] t[i]).id != id by {
            assert(t[i] == nodes[i]);
        }
        lemma_node_with_id(t, id, k);
    }
}

proof fn lemma_no_node_with_id(nodes: Seq<NodeModel>, id: Seq<char>)
    requires
        forall|i: int| 0 <= i < nodes.len() ==> (#[trigger] nodes[i]).id != id,
    ensures
        node_with_id(nodes, id) is None,
    decreases nodes.len(),
{
    if nodes.len() > 0 {
        assert(nodes[nodes.len() - 1].id != id);
        let t = nodes.drop_last();
        assert forall|i: int| 0 <= i < t.len() implies (#[trigger] t[i]).id != id by {
            assert(t[i] == nodes[i]);
        }
        lemma_no_node_with_id(t, id);
    }
}

/// Whether a node stands for a file.
pub open spec fn is_file(n: NodeModel, path: Seq<char>) -> bool {
    n.label == NodeLabel::File && n.file_path == path
}

proof fn lemma_file_id(nodes: Seq<NodeModel>, path: Seq<char>, k: int)
    requires
        0 <= k < nodes.len(),
        is_file(nodes[k], path),
        forall|i: int| k < i < nodes.len() ==> !is_file(#[trigger] nodes[i], path),
    ensures
        file_id(nodes, path) == Some(nodes[k].id),
    decreases nodes.len(),
{
    if k < nodes.len() - 1 {
        assert(!is_file(nodes[nodes.len() - 1], path));
        let t = nodes.drop_last();
        assert forall|i: int| k < i < t.len() implies !is_file(#[trigger] t[i], path) by {
            assert(t[i] == nodes[i]);
        }
        lemma_file_id(t, path, k);
    }
}

proof fn lemma_no_file_id(nodes: Seq<NodeModel>, path: Seq<char>)
    requires
        forall|i: int| 0 <= i < nodes.len() ==> !is_file(#[trigger] nodes[i], path),
    ensures
        file_id(nodes, path) is None,
    decreases nodes.len(),
{
    if nodes.len() > 0 {
        assert(!is_file(nodes[nodes.len() - 1], path));
        let t = nodes.drop_last();
        assert forall|i: int| 0 <= i < t.len() implies !is_file(#[trigger] t[i], path) by {
            assert(t[i] == nodes[i]);
        }
        lemma_no_file_id(t, path);
    }
}

/// Whether `m` gives the place of the last node with the id.
pub open spec fn id_entry(m: Map<Seq<char>, usize>, nodes: Seq<NodeModel>, id: Seq<char>) -> bool {
    if m.contains_key(id) {
        &&& m[id] < nodes.len()
        &&& nodes[m[id] as int].id == id
        &&& forall|i: int| m[id] < i < nodes.len() ==> (#[trigger] nodes[i]).id != id
    } else {
        forall|i: int| 0 <= i < nodes.len() ==> (#[trigger] nodes[i]).id != id
    }
}

/// Whether `m` gives for each id the place of the last node with it.
pub open spec fn is_id_index(m: Map<Seq<char>, usize>, nodes: Seq<NodeModel>) -> bool {
    forall|id: Seq<char>| #[trigger] id_entry(m, nodes, id)
}

/// For each id the place of the last node with it.
pub fn index_by_id(nodes: &[Node]) -> (m: StringHashMap<usize>)
    ensures
        is_id_index(m@, types::node_views(nodes@)),
{
    let ghost all = types::node_views(nodes@);
    let mut m: StringHashMap<usize> = StringHashMap::new();
    let mut i: usize = 0;
    while i < nodes.len()
        invariant
            i <= nodes.len(),
            all == types::node_views(nodes@),
            is_id_index(m@, all.take(i as int)),
        decreases nodes.len() - i,
    {
        let ghost before = m@;
        m.insert(nodes[i].id.clone(), i);
        proof {
            let now = all.take(i + 1);
            let was = all.take(i as int);
            assert forall|id: Seq<char>| #[trigger] id_entry(m@, now, id) by {
                assert(id_entry(before, was, id));
                assert(now[i as int] == nodes@[i as int]@);
                if id != nodes@[i as int].id@ {
                    assert(m@.contains_key(id) == before.contains_key(id));
                    assert forall|j: int| 0 <= j < i implies #[trigger] now[j] == was[j] by {}
                }
            }
        }
        i += 1;
    }
    assert(all.take(all.len() as int) =~= all);
    m
}

/// Whether `m` gives the place of the last file node with the path.
spec fn file_entry(m: Map<Seq<char>, usize>, nodes: Seq<NodeModel>, path: Seq<char>) -> bool {
    if m.contains_key(path) {
        &&& m[path] < nodes.len()
        &&& is_file(nodes[m[path] as int], path)
        &&& forall|i: int| m[path] < i < nodes.len() ==> !is_file(#[trigger] nodes[i], path)
    } else {
        forall|i: int| 0 <= i < nodes.len() ==> !is_file(#[trigger] nodes[i], path)
    }
}

/// Whether `m` gives for each path the place of the last file node with it.
spec fn is_file_index(m: Map<Seq<char>, usize>, nodes: Seq<NodeModel>) -> bool {
    forall|path: Seq<char>| #[trigger] file_entry(m, nodes, path)
}

/// For each path the place of the last file node with it.
fn index_files(nodes: &[Node]) -> (m: StringHashMap<usize>)
    ensures
        is_file_index(m@, types::node_views(nodes@)),
{
    let ghost all = types::node_views(nodes@);
    let mut m: StringHashMap<usize> = StringHashMap::new();
    let mut i: usize = 0;
    while i < nodes.len()
        invariant
            i <= nodes.len(),
            all == types::node_views(nodes@),
            is_file_index(m@, all.take(i as int)),
        decreases nodes.len() - i,
    {
        let ghost before = m@;
        if nodes[i].label == NodeLabel::File {
            m.insert(nodes[i].file_path.clone(), i);
        }
        proof {
            let now = all.take(i + 1);
            let was = all.take(i as int);
            assert forall|path: Seq<char>| #[trigger] file_entry(m@, now, path) by {
                assert(file_entry(before, was, path));
                assert(now[i as int] == nodes@[i as int]@);
                assert forall|j: int| 0 <= j < i implies #[trigger] now[j] == was[j] by {}
            }
        }
        i += 1;
    }
    assert(all.take(all.len() as int) =~= all);
    m
}

/// Whether `first` gives the place of a function of the file and the name of
/// `p`, and `twice` has an entry where there are two with different ids.
spec fn function_entry(
    first: Map<(Seq<char>, Seq<char>), usize>,
    twice: Map<(Seq<char>, Seq<char>), usize>,
    nodes: Seq<NodeModel>,
    p: (Seq<char>, Seq<char>),
) -> bool {
    &&& first.contains_key(p) ==> first[p] < nodes.len() && is_function(
        nodes[first[p] as int],
        p.0,
        p.1,
    )
    &&& !first.contains_key(p) ==> forall|i: int|
        0 <= i < nodes.len() ==> !is_function(#[trigger] nodes[i], p.0, p.1)
    &&& twice.contains_key(p) ==> first.contains_key(p) && exists|i: int|
        0 <= i < nodes.len() && is_function(#[trigger] nodes[i], p.0, p.1) && nodes[i].id
            != nodes[first[p] as int].id
    &&& first.contains_key(p) && !twice.contains_key(p) ==> forall|i: int|
        0 <= i < nodes.len() && is_function(#[trigger] nodes[i], p.0, p.1) ==> nodes[i].id
            == nodes[first[p] as int].id
}

/// Whether [`function_entry`] holds of every file and name.
spec fn is_function_index(
    first: Map<(Seq<char>, Seq<char>), usize>,
    twice: Map<(Seq<char>, Seq<char>), usize>,
    nodes: Seq<NodeModel>,
) -> bool {
    forall|p: (Seq<char>, Seq<char>)| #[trigger] function_entry(first, twice, nodes, p)
}

/// See [`is_function_index`].
fn index_functions(nodes: &[Node]) -> (r: (PairMap, PairMap))
    ensures
        r.0.wf(),
        r.1.wf(),
        is_function_index(r.0@, r.1@, types::node_views(nodes@)),
{
    let ghost all = types::node_views(nodes@);
    let mut first = PairMap::new();
    let mut twice = PairMap::new();
    let mut i: usize = 0;
    while i < nodes.len()
        invariant
            i <= nodes.len(),
            all == types::node_views(nodes@),
            first.wf(),
            twice.wf(),
            is_function_index(first@, twice@, all.take(i as int)),
        decreases nodes.len() - i,
    {
        let n = &nodes[i];
        let ghost f0 = first@;
        let ghost t0 = twice@;
        let ghost here = (n.file_path@, n.name@);
        assert(function_entry(first@, twice@, all.take(i as int), here));
        if n.label == NodeLabel::Function {
            match first.get(n.file_path.as_str(), n.name.as_str()) {
                None => {
                    first.insert(n.file_path.as_str(), n.name.as_str(), i);
                },
                Some(k) => {
                    if !text::same(nodes[k].id.as_str(), n.id.as_str()) {
                        twice.insert(n.file_path.as_str(), n.name.as_str(), i);
                    }
                },
            }
        }
        proof {
            let now = all.take(i + 1);
            let was = all.take(i as int);
            assert(now[i as int] == n@);
            assert forall|j: int| 0 <= j < i implies #[trigger] now[j] == was[j] by {}
            assert forall|p: (Seq<char>, Seq<char>)| #[trigger]
                function_entry(first@, twice@, now, p) by {
                assert(function_entry(f0, t0, was, p));
                if t0.contains_key(p) {
                    let j = choose|j: int|
                        0 <= j < was.len() && is_function(#[trigger] was[j], p.0, p.1) && was[j].id
                            != was[f0[p] as int].id;
                    assert(now[j] == was[j]);
                }
                assert(is_function(now[i as int], p.0, p.1) ==> p == here);
                if p != here {
                    assert(first@.contains_key(p) == f0.contains_key(p));
                    assert(twice@.contains_key(p) == t0.contains_key(p));
                }
            }
        }
        i += 1;
    }
    assert(all.take(all.len() as int) =~= all);
    (first, twice)
}


/// Whether `seen` holds the ends of the edges with the given relation.
spec fn knows_ends(
    seen: Map<(Seq<char>, Seq<char>), usize>,
    edges: Seq<EdgeModel>,
    relation: EdgeRelation,
) -> bool {
    forall|p: (Seq<char>, Seq<char>)| #[trigger]
        seen.contains_key(p) == has_key(edges, (p.0, p.1, relation))
}

/// Adds an edge, unless one with its key is there already.
fn push_edge(edges: &mut Vec<Edge>, seen: &mut PairMap, e: Edge)
    requires
        old(seen).wf(),
        knows_ends(old(seen)@, types::edge_views(old(edges)@), e.relation),
    ensures
        final(seen).wf(),
        knows_ends(final(seen)@, types::edge_views(final(edges)@), e.relation),
        types::edge_views(final(edges)@) == add_once(types::edge_views(old(edges)@), e@),
{
    let ghost before = types::edge_views(edges@);
    if seen.get(e.src.as_str(), e.dst.as_str()).is_none() {
        assert(!has_key(before, e@.key()));
        let ghost s0 = seen@;
        seen.insert(e.src.as_str(), e.dst.as_str(), 0);
        edges.push(e);
        proof {
            let now = types::edge_views(edges@);
            assert(now =~= before.push(e@));
            assert forall|p: (Seq<char>, Seq<char>)| #[trigger]
                seen@.contains_key(p) == has_key(now, (p.0, p.1, e.relation)) by {
                assert(s0.contains_key(p) == has_key(before, (p.0, p.1, e.relation)));
                if has_key(before, (p.0, p.1, e.relation)) {
                    let i = choose|i: int|
                        0 <= i < before.len() && (#[trigger] before[i]).key() == (
                            p.0,
                            p.1,
                            e.relation,
                        );
                    assert(now[i] == before[i]);
                }
                if has_key(now, (p.0, p.1, e.relation)) {
                    let i = choose|i: int|
                        0 <= i < now.len() && (#[trigger] now[i]).key() == (p.0, p.1, e.relation);
                    if i < before.len() {
                        assert(now[i] == before[i]);
                    } else {
                        assert(now[i] == e@);
                    }
                }
                assert(now[before.len() as int].key() == e@.key());
            }
        }
    } else {
        assert(has_key(before, (e.src@, e.dst@, e.relation)));
    }
}

/// The edges of a set of nodes, and the graph that they make.
pub struct Built {
    pub graph: CodeGraph,
    pub edges: Vec<Edge>,
}

/// The edges by which files define the nodes.
fn structural_edges(nodes: &[Node]) -> (r: Vec<Edge>)
    ensures
        types::edge_views(r@) == define_edges(types::node_views(nodes@), nodes@.len()),
{
    let ghost all = types::node_views(nodes@);
    let files = index_files(nodes);
    let mut edges: Vec<Edge> = Vec::new();
    let mut seen = PairMap::new();
    assert(types::edge_views(edges@) =~= Seq::empty());
    let mut i: usize = 0;
    while i < nodes.len()
        invariant
            i <= nodes.len(),
            all == types::node_views(nodes@),
            is_file_index(files@, all),
            seen.wf(),
            types::edge_views(edges@) == define_edges(all, i as nat),
            knows_ends(seen@, types::edge_views(edges@), EdgeRelation::Defines),
        decreases nodes.len() - i,
    {
        let n = &nodes[i];
        assert(all[i as int] == n@);
        if n.label != NodeLabel::File {
            assert(file_entry(files@, all, n.file_path@));
            match files.get(n.file_path.as_str()) {
                Some(k) => {
                    proof {
                        lemma_file_id(all, n.file_path@, *k as int);
                        assert(all[*k as int] == nodes@[*k as int]@);
                    }
                    let e = Edge {
                        src: nodes[*k].id.clone(),
                        dst: n.id.clone(),
                        relation: EdgeRelation::Defines,
                        tier: ResolutionTier::TreeSitter,
                        confidence: Confidence::Extracted,
                        src_file: n.file_path.clone(),
                        src_line: n.line_start,
                        metadata: Metadata::new(),
                    };
                    push_edge(&mut edges, &mut seen, e);
                },
                None => {
                    proof {
                        lemma_no_file_id(all, n.file_path@);
                    }
                },
            }
        }
        i += 1;
    }
    edges
}

/// The metadata of [`same_file_tag`].
fn same_file_metadata() -> (r: Metadata)
    ensures
        r@ == same_file_tag(),
{
    let mut m = Metadata::new();
    m.insert("justification".to_owned(), MetaValue::Text("SameFileUnique".to_owned()));
    assert(m@ =~= same_file_tag());
    m
}

/// An edge of another relation does not get in the way of a call.
proof fn lemma_no_calls(nodes: Seq<NodeModel>, k: nat)
    requires
        k <= nodes.len(),
    ensures
        forall|i: int|
            0 <= i < define_edges(nodes, k).len() ==> (#[trigger] define_edges(
                nodes,
                k,
            )[i]).relation == EdgeRelation::Defines,
    decreases k,
{
    if k > 0 {
        lemma_no_calls(nodes, (k - 1) as nat);
    }
}

/// Finds the edges of a set of nodes and unresolved calls: each file defines
/// what it holds, and each call whose name stands for exactly one function in
/// the caller's file leads there. See [`built_edges`].
pub fn resolve_edges(nodes: &[Node], calls: &[RawCall]) -> (edges: Vec<Edge>)
    ensures
        types::edge_views(edges@) == built_edges(
            types::node_views(nodes@),
            types::call_views(calls@),
        ),
{
    let ghost all = types::node_views(nodes@);
    let ghost cs = types::call_views(calls@);
    let by_id = index_by_id(nodes);
    let (first, twice) = index_functions(nodes);
    let mut edges = structural_edges(nodes);
    let ghost base = types::edge_views(edges@);
    let mut seen = PairMap::new();
    proof {
        lemma_no_calls(all, all.len());
        assert forall|p: (Seq<char>, Seq<char>)| #[trigger]
            seen@.contains_key(p) == has_key(base, (p.0, p.1, EdgeRelation::Calls)) by {}
    }
    let mut i: usize = 0;
    while i < calls.len()
        invariant
            i <= calls.len(),
            all == types::node_views(nodes@),
            cs == types::call_views(calls@),
            is_id_index(by_id@, all),
            first.wf(),
            twice.wf(),
            is_function_index(first@, twice@, all),
            seen.wf(),
            types::edge_views(edges@) == call_edges(all, cs, base, i as nat),
            knows_ends(seen@, types::edge_views(edges@), EdgeRelation::Calls),
        decreases calls.len() - i,
    {
        let c = &calls[i];
        assert(cs[i as int] == c@);
        assert(id_entry(by_id@, all, c.caller_id@));
        match by_id.get(c.caller_id.as_str()) {
            None => {
                proof {
                    lemma_no_node_with_id(all, c.caller_id@);
                }
            },
            Some(k) => {
                let caller = &nodes[*k];
                proof {
                    lemma_node_with_id(all, c.caller_id@, *k as int);
                    assert(all[*k as int] == caller@);
                }
                let ghost p = (caller.file_path@, c.callee_name@);
                assert(function_entry(first@, twice@, all, p));
                let target = first.get(caller.file_path.as_str(), c.callee_name.as_str());
                let clash = twice.get(caller.file_path.as_str(), c.callee_name.as_str());
                match target {
                    Some(t) if clash.is_none() => {
                        proof {
                            assert(all[t as int] == nodes@[t as int]@);
                            assert(only_function(all, p.0, p.1, nodes@[t as int].id@));
                            lemma_resolve(all, p.0, p.1, nodes@[t as int].id@);
                        }
                        let e = Edge {
                            src: c.caller_id.clone(),
                            dst: nodes[t].id.clone(),
                            relation: EdgeRelation::Calls,
                            tier: ResolutionTier::TreeSitter,
                            confidence: Confidence::Inferred,
                            src_file: caller.file_path.clone(),
                            src_line: c.line,
                            metadata: same_file_metadata(),
                        };
                        push_edge(&mut edges, &mut seen, e);
                    },
                    _ => {
                        proof {
                            assert forall|id: Seq<char>| !only_function(all, p.0, p.1, id) by {
                                if only_function(all, p.0, p.1, id) {
                                    let j = choose|j: int|
                                        0 <= j < all.len() && is_function(
                                            #[trigger] all[j],
                                            p.0,
                                            p.1,
                                        ) && all[j].id == id;
                                    assert(is_function(all[j], p.0, p.1));
                                    assert(first@.contains_key(p));
                                    assert(twice@.contains_key(p));
                                }
                            }
                        }
                    },
                }
            },
        }
        i += 1;
    }
    edges
}


/// The place of the last node with the given id.
pub open spec fn index_of(nodes: Seq<NodeModel>, id: Seq<char>) -> Option<nat>
    decreases nodes.len(),
{
    if nodes.len() == 0 {
        None
    } else if nodes.last().id == id {
        Some((nodes.len() - 1) as nat)
    } else {
        index_of(nodes.drop_last(), id)
    }
}

proof fn lemma_index_of(m: Map<Seq<char>, usize>, nodes: Seq<NodeModel>, id: Seq<char>)
    requires
        id_entry(m, nodes, id),
    ensures
        index_of(nodes, id) == (if m.contains_key(id) {
            Some(m[id] as nat)
        } else {
            None
        }),
    decreases nodes.len(),
{
    if nodes.len() > 0 {
        if nodes.last().id == id {
            assert(nodes[nodes.len() - 1].id == id);
        } else {
            let t = nodes.drop_last();
            assert forall|i: int| 0 <= i < t.len() implies #[trigger] t[i] == nodes[i] by {}
            lemma_index_of(m, t, id);
        }
    }
}

/// The edges of which both ends are nodes, by the places of their ends.
pub open spec fn loaded_edges(nodes: Seq<NodeModel>, edges: Seq<EdgeModel>) -> Seq<
    (nat, nat, Seq<char>),
>
    decreases edges.len(),
{
    if edges.len() == 0 {
        Seq::empty()
    } else {
        let rest = loaded_edges(nodes, edges.drop_last());
        let e = edges.last();
        match (index_of(nodes, e.src), index_of(nodes, e.dst)) {
            (Some(a), Some(b)) => rest.push((a, b, e.relation.text())),
            _ => rest,
        }
    }
}

/// The ids of the nodes in order.
pub open spec fn node_ids(nodes: Seq<NodeModel>) -> Seq<Seq<char>> {
    nodes.map_values(|n: NodeModel| n.id)
}

proof fn lemma_loaded_edges(nodes: Seq<NodeModel>, edges: Seq<EdgeModel>)
    ensures
        loaded_edges(nodes, edges).len() <= edges.len(),
        forall|i: int|
            0 <= i < loaded_edges(nodes, edges).len() ==> (#[trigger] loaded_edges(
                nodes,
                edges,
            )[i]).0 < nodes.len() && loaded_edges(nodes, edges)[i].1 < nodes.len(),
    decreases edges.len(),
{
    if edges.len() > 0 {
        lemma_loaded_edges(nodes, edges.drop_last());
        lemma_index_bound(nodes, edges.last().src);
        lemma_index_bound(nodes, edges.last().dst);
    }
}

proof fn lemma_index_bound(nodes: Seq<NodeModel>, id: Seq<char>)
    ensures
        index_of(nodes, id) matches Some(i) ==> i < nodes.len() && nodes[i as int].id == id,
    decreases nodes.len(),
{
    if nodes.len() > 0 && nodes.last().id != id {
        lemma_index_bound(nodes.drop_last(), id);
    }
}

/// The graph of a set of nodes and edges, and for each id its node's place.
fn assemble(nodes: &[Node], edges: &[Edge]) -> (r: (CodeGraph, StringHashMap<usize>))
    requires
        nodes@.len() < u32::MAX,
        edges@.len() < u32::MAX,
    ensures
        graph_nodes(r.0) == node_ids(types::node_views(nodes@)),
        graph_edges(r.0) == loaded_edges(types::node_views(nodes@), types::edge_views(edges@)),
        is_id_index(r.1@, types::node_views(nodes@)),
{
    let ghost all = types::node_views(nodes@);
    let ghost es = types::edge_views(edges@);
    let mut g = new_graph();
    let mut i: usize = 0;
    while i < nodes.len()
        invariant
            i <= nodes.len() < u32::MAX,
            all == types::node_views(nodes@),
            graph_nodes(g) == node_ids(all).take(i as int),
            graph_edges(g) == Seq::<(nat, nat, Seq<char>)>::empty(),
        decreases nodes.len() - i,
    {
        add_node(&mut g, nodes[i].id.clone());
        assert(node_ids(all).take(i + 1) =~= node_ids(all).take(i as int).push(nodes@[i as int].id@));
        i += 1;
    }
    assert(node_ids(all).take(all.len() as int) =~= node_ids(all));
    let idx = index_by_id(nodes);
    let mut j: usize = 0;
    assert(es.take(0) =~= Seq::empty());
    while j < edges.len()
        invariant
            j <= edges.len() < u32::MAX,
            all == types::node_views(nodes@),
            es == types::edge_views(edges@),
            is_id_index(idx@, all),
            graph_nodes(g) == node_ids(all),
            graph_edges(g) == loaded_edges(all, es.take(j as int)),
        decreases edges.len() - j,
    {
        let e = &edges[j];
        proof {
            assert(es.take(j + 1).drop_last() =~= es.take(j as int));
            assert(es.take(j + 1).last() == e@);
            assert(id_entry(idx@, all, e.src@));
            assert(id_entry(idx@, all, e.dst@));
            lemma_index_of(idx@, all, e.src@);
            lemma_index_of(idx@, all, e.dst@);
            lemma_loaded_edges(all, es.take(j as int));
        }
        if let Some(a) = idx.get(e.src.as_str()) {
            if let Some(b) = idx.get(e.dst.as_str()) {
                add_edge(&mut g, *a, *b, e.relation.as_str().to_owned());
            }
        }
        j += 1;
    }
    assert(es.take(es.len() as int) =~= es);
    (g, idx)
}

/// Builds the edges and the graph of a set of nodes and unresolved calls.
pub fn build(nodes: &[Node], calls: &[RawCall]) -> (r: Built)
    requires
        nodes@.len() + calls@.len() < u32::MAX,
    ensures
        types::edge_views(r.edges@) == built_edges(
            types::node_views(nodes@),
            types::call_views(calls@),
        ),
        graph_nodes(r.graph) == node_ids(types::node_views(nodes@)),
        graph_edges(r.graph) == loaded_edges(
            types::node_views(nodes@),
            types::edge_views(r.edges@),
        ),
{
    let edges = resolve_edges(nodes, calls);
    proof {
        lemma_built_len(types::node_views(nodes@), types::call_views(calls@));
        assert(types::edge_views(edges@).len() == edges@.len());
    }
    let (graph, _) = assemble(nodes, &edges);
    Built { graph, edges }
}

proof fn lemma_built_len(nodes: Seq<NodeModel>, calls: Seq<CallModel>)
    ensures
        built_edges(nodes, calls).len() <= nodes.len() + calls.len(),
{
    lemma_define_len(nodes, nodes.len());
    lemma_call_len(nodes, calls, define_edges(nodes, nodes.len()), calls.len());
}

proof fn lemma_define_len(nodes: Seq<NodeModel>, k: nat)
    ensures
        define_edges(nodes, k).len() <= k,
    decreases k,
{
    if k > 0 {
        lemma_define_len(nodes, (k - 1) as nat);
    }
}

proof fn lemma_call_len(
    nodes: Seq<NodeModel>,
    calls: Seq<CallModel>,
    edges: Seq<EdgeModel>,
    k: nat,
)
    ensures
        call_edges(nodes, calls, edges, k).len() <= edges.len() + k,
    decreases k,
{
    if k > 0 {
        lemma_call_len(nodes, calls, edges, (k - 1) as nat);
    }
}

/// An in-memory graph for traversals, with the places of the ids.
pub struct LoadedGraph {
    graph: CodeGraph,
    idx: StringHashMap<usize>,
    ids: Vec<String>,
}

/// The model of a [`LoadedGraph`]: the place of each id, the id at each place
/// (empty where a later node has the same one), and the edges by places.
#[verifier::ext_equal]
pub struct GraphModel {
    pub index: Map<Seq<char>, nat>,
    pub ids: Seq<Seq<char>>,
    pub edges: Seq<(nat, nat, Seq<char>)>,
}

/// The model of the graph of a set of nodes and edges.
pub open spec fn loaded(nodes: Seq<NodeModel>, edges: Seq<EdgeModel>) -> GraphModel {
    GraphModel {
        index: Map::new(
            |id: Seq<char>| index_of(nodes, id) is Some,
            |id: Seq<char>| index_of(nodes, id)->0,
        ),
        ids: Seq::new(
            nodes.len(),
            |i: int|
                if index_of(nodes, nodes[i].id) == Some(i as nat) {
                    nodes[i].id
                } else {
                    Seq::empty()
                },
        ),
        edges: loaded_edges(nodes, edges),
    }
}

/// The ids at the given places.
pub open spec fn ids_at(m: GraphModel, w: Seq<nat>) -> Seq<Seq<char>> {
    w.map_values(|i: nat| m.ids[i as int])
}

/// Whether `w` is one of the shortest walks from `a` to `b`.
pub open spec fn is_shortest(
    edges: Seq<(nat, nat, Seq<char>)>,
    w: Seq<nat>,
    a: nat,
    b: nat,
) -> bool {
    leads(edges, w, a, b) && forall|v: Seq<nat>|
        leads(edges, v, a, b) ==> w.len() <= #[trigger] v.len()
}

/// `seen` with those of `found` added that it lacks, in order.
pub open spec fn take_new(found: Seq<nat>, seen: Seq<nat>) -> Seq<nat>
    decreases found.len(),
{
    if found.len() == 0 {
        seen
    } else {
        let rest = take_new(found.drop_last(), seen);
        if rest.contains(found.last()) {
            rest
        } else {
            rest.push(found.last())
        }
    }
}

/// `seen` with the sources of the edges into the first `k` nodes of
/// `frontier` added.
pub open spec fn expand(
    edges: Seq<(nat, nat, Seq<char>)>,
    frontier: Seq<nat>,
    seen: Seq<nat>,
    k: nat,
) -> Seq<nat>
    decreases k,
{
    if k == 0 {
        seen
    } else {
        take_new(
            incoming(edges, frontier[k - 1]),
            expand(edges, frontier, seen, (k - 1) as nat),
        )
    }
}

/// What is reached against the edges in at most `depth` further steps, after
/// `seen`, whose last step added what stands from `from` on.
pub open spec fn spread(
    edges: Seq<(nat, nat, Seq<char>)>,
    seen: Seq<nat>,
    from: nat,
    depth: nat,
) -> Seq<nat>
    decreases depth,
{
    if depth == 0 || from >= seen.len() {
        seen
    } else {
        let frontier = seen.skip(from as int);
        spread(
            edges,
            expand(edges, frontier, seen, frontier.len()),
            seen.len(),
            (depth - 1) as nat,
        )
    }
}

/// The ids of what reaches a node over at most `depth` edges; none where the
/// node is not there.
pub open spec fn radius_of(m: GraphModel, target: Seq<char>, depth: nat) -> Seq<Seq<char>> {
    if m.index.contains_key(target) {
        ids_at(m, spread(m.edges, seq![m.index[target]], 0, depth).skip(1))
    } else {
        Seq::empty()
    }
}

proof fn lemma_incoming_bound(edges: Seq<(nat, nat, Seq<char>)>, n: nat, bound: nat)
    requires
        forall|i: int| 0 <= i < edges.len() ==> (#[trigger] edges[i]).0 < bound,
    ensures
        forall|i: int|
            0 <= i < incoming(edges, n).len() ==> #[trigger] incoming(edges, n)[i] < bound,
    decreases edges.len(),
{
    if edges.len() > 0 {
        let t = edges.drop_last();
        assert forall|i: int| 0 <= i < t.len() implies (#[trigger] t[i]).0 < bound by {
            assert(t[i] == edges[i]);
        }
        lemma_incoming_bound(t, n, bound);
        assert(edges[edges.len() - 1].0 < bound);
        let r = incoming(t, n);
        assert forall|i: int| 0 <= i < incoming(edges, n).len() implies #[trigger] incoming(
            edges,
            n,
        )[i] < bound by {
            if edges.last().1 == n && i > 0 {
                assert(incoming(edges, n)[i] == r[i - 1]);
            } else if edges.last().1 != n {
                assert(incoming(edges, n)[i] == r[i]);
            }
        }
    }
}

impl LoadedGraph {
    /// The model of the graph.
    pub closed spec fn model(&self) -> GraphModel {
        GraphModel {
            index: Map::new(
                |id: Seq<char>| self.idx@.contains_key(id),
                |id: Seq<char>| self.idx@[id] as nat,
            ),
            ids: text::views(self.ids@),
            edges: graph_edges(self.graph),
        }
    }

    /// Every place that an id or an edge names is that of a node.
    pub closed spec fn wf(&self) -> bool {
        &&& graph_nodes(self.graph).len() == self.ids@.len()
        &&& forall|id: Seq<char>| #[trigger]
            self.idx@.contains_key(id) ==> self.idx@[id] < self.ids@.len()
        &&& forall|i: int|
            0 <= i < graph_edges(self.graph).len() ==> (#[trigger] graph_edges(self.graph)[i]).0
                < self.ids@.len() && graph_edges(self.graph)[i].1 < self.ids@.len()
    }

    /// The graph of a set of nodes and edges; see [`loaded`].
    pub fn load(nodes: &[Node], edges: &[Edge]) -> (r: LoadedGraph)
        requires
            nodes@.len() < u32::MAX,
            edges@.len() < u32::MAX,
        ensures
            r.wf(),
            r.model() == loaded(types::node_views(nodes@), types::edge_views(edges@)),
    {
        let ghost all = types::node_views(nodes@);
        let (graph, idx) = assemble(nodes, edges);
        let ghost want = loaded(all, types::edge_views(edges@));
        let mut ids: Vec<String> = Vec::new();
        let mut i: usize = 0;
        while i < nodes.len()
            invariant
                i <= nodes.len(),
                all == types::node_views(nodes@),
                is_id_index(idx@, all),
                want.ids == loaded(all, types::edge_views(edges@)).ids,
                text::views(ids@) == want.ids.take(i as int),
            decreases nodes.len() - i,
        {
            proof {
                assert(all[i as int] == nodes@[i as int]@);
                assert(id_entry(idx@, all, nodes@[i as int].id@));
                lemma_index_of(idx@, all, nodes@[i as int].id@);
            }
            let ghost before = text::views(ids@);
            let here = match idx.get(nodes[i].id.as_str()) {
                Some(k) => *k == i,
                None => false,
            };
            let id = if here {
                nodes[i].id.clone()
            } else {
                String::new()
            };
            ids.push(id);
            proof {
                assert(text::views(ids@) =~= before.push(id@));
                assert(want.ids.take(i + 1) =~= want.ids.take(i as int).push(id@));
            }
            i += 1;
        }
        let r = LoadedGraph { graph, idx, ids };
        proof {
            assert(want.ids.take(all.len() as int) =~= want.ids);
            assert forall|id: Seq<char>| #[trigger] r.idx@.contains_key(id) implies r.idx@[id]
                < r.ids@.len() by {
                assert(id_entry(r.idx@, all, id));
            }
            assert(r.ids@.len() == text::views(r.ids@).len());
            lemma_loaded_edges(all, types::edge_views(edges@));
            assert forall|id: Seq<char>|
                #![trigger r.model().index.contains_key(id)]
                r.model().index.contains_key(id) == want.index.contains_key(id) && (
                r.model().index.contains_key(id) ==> r.model().index[id] == want.index[id]) by {
                assert(id_entry(r.idx@, all, id));
                lemma_index_of(r.idx@, all, id);
            }
            assert(r.model().index =~= want.index);
            assert(r.model() =~= want);
        }
        r
    }

    /// The ids at the given places.
    fn ids_of(&self, places: &Vec<usize>) -> (r: Vec<String>)
        requires
            forall|i: int| 0 <= i < places@.len() ==> #[trigger] places@[i] < self.ids@.len(),
        ensures
            text::views(r@) == ids_at(self.model(), nats(places@)),
    {
        let mut r: Vec<String> = Vec::new();
        let mut i: usize = 0;
        while i < places.len()
            invariant
                i <= places.len(),
                forall|i: int| 0 <= i < places@.len() ==> #[trigger] places@[i] < self.ids@.len(),
                text::views(r@) == ids_at(self.model(), nats(places@)).take(i as int),
            decreases places.len() - i,
        {
            let ghost before = text::views(r@);
            let p: usize = places[i];
            r.push(self.ids[p].clone());
            proof {
                assert(text::views(r@) =~= before.push(self.ids@[p as int]@));
                assert(ids_at(self.model(), nats(places@)).take(i + 1) =~= before.push(
                    self.ids@[p as int]@,
                ));
            }
            i += 1;
        }
        assert(ids_at(self.model(), nats(places@)).take(places@.len() as int) =~= ids_at(
            self.model(),
            nats(places@),
        ));
        r
    }

    /// A shortest path over edges of any relation between two nodes, as the
    /// list of the ids on it.
    pub fn shortest_path(&self, from: &str, to: &str) -> (r: Option<Vec<String>>)
        requires
            self.wf(),
        ensures
            match r {
                Some(p) => self.model().index.contains_key(from@)
                    && self.model().index.contains_key(to@) && exists|w: Seq<nat>| #[trigger]
                    is_shortest(
                        self.model().edges,
                        w,
                        self.model().index[from@],
                        self.model().index[to@],
                    ) && text::views(p@) == ids_at(self.model(), w),
                None => self.model().index.contains_key(from@) && self.model().index.contains_key(
                    to@,
                ) ==> forall|w: Seq<nat>|
                    !#[trigger] leads(
                        self.model().edges,
                        w,
                        self.model().index[from@],
                        self.model().index[to@],
                    ),
            },
    {
        let s: usize = match self.idx.get(from) {
            Some(s) => *s,
            None => return None,
        };
        let t: usize = match self.idx.get(to) {
            Some(t) => *t,
            None => return None,
        };
        match shortest_walk(&self.graph, s, t) {
            None => None,
            Some(p) => {
                let ghost w = nats(p@);
                proof {
                    assert(w.len() == p@.len());
                    assert(self.model().index[from@] == s as nat);
                    assert(self.model().index[to@] == t as nat);
                    assert(is_shortest(
                        self.model().edges,
                        w,
                        self.model().index[from@],
                        self.model().index[to@],
                    ));
                    assert forall|i: int| 0 <= i < p@.len() implies #[trigger] p@[i]
                        < self.ids@.len() by {
                        assert(w[i] == p@[i] as nat);
                        if i < w.len() - 1 {
                            assert(linked(graph_edges(self.graph), w[i], w[i + 1]));
                        }
                    }
                }
                Some(self.ids_of(&p))
            },
        }
    }

    /// Who depends on `target`, directly or through others, in at most
    /// `max_depth` steps: the nearest first. See [`radius_of`].
    pub fn blast_radius(&self, target: &str, max_depth: usize) -> (r: Vec<String>)
        requires
            self.wf(),
        ensures
            text::views(r@) == radius_of(self.model(), target@, max_depth as nat),
    {
        let start: usize = match self.idx.get(target) {
            Some(s) => *s,
            None => {
                let r: Vec<String> = Vec::new();
                assert(text::views(r@) =~= Seq::empty());
                return r;
            },
        };
        let ghost edges = graph_edges(self.graph);
        let mut visited: Vec<bool> = vec![false; self.ids.len()];
        visited.set(start, true);
        let mut seen: Vec<usize> = Vec::new();
        seen.push(start);
        proof {
            let only = nats(seen@);
            assert(only =~= seq![start as nat]);
            assert(only[0] == start as nat);
            assert forall|i: int| 0 <= i < visited@.len() implies #[trigger] visited@[i]
                == only.contains(i as nat) by {
                assert(only.contains(i as nat) == (i as nat == start as nat));
            }
        }
        let mut from: usize = 0;
        let mut depth: usize = max_depth;
        while depth > 0 && from < seen.len()
            invariant
                self.wf(),
                edges == graph_edges(self.graph),
                from <= seen.len(),
                visited@.len() == self.ids@.len(),
                marks(visited@, nats(seen@)),
                seen@.len() >= 1,
                spread(edges, seq![start as nat], 0, max_depth as nat) == spread(
                    edges,
                    nats(seen@),
                    from as nat,
                    depth as nat,
                ),
            decreases depth,
        {
            let len: usize = seen.len();
            let ghost base = nats(seen@);
            let ghost frontier = base.skip(from as int);
            let mut k: usize = from;
            while k < len
                invariant
                    self.wf(),
                    edges == graph_edges(self.graph),
                    from <= k <= len <= seen.len(),
                    base.len() == len,
                    base == nats(seen@).take(len as int),
                    frontier == base.skip(from as int),
                    visited@.len() == self.ids@.len(),
                    marks(visited@, nats(seen@)),
                    nats(seen@) == expand(edges, frontier, base, (k - from) as nat),
                decreases len - k,
            {
                let n: usize = seen[k];
                assert(nats(seen@)[k as int] == n as nat);
                assert(frontier[k - from] == n as nat);
                let found = predecessors(&self.graph, n);
                let ghost f = nats(found@);
                proof {
                    lemma_incoming_bound(edges, n as nat, self.ids@.len());
                }
                let ghost s0 = nats(seen@);
                let mut j: usize = 0;
                assert(f.take(0) =~= Seq::empty());
                while j < found.len()
                    invariant
                        j <= found.len(),
                        len <= seen.len(),
                        f == nats(found@),
                        forall|i: int| 0 <= i < f.len() ==> #[trigger] f[i] < self.ids@.len(),
                        base == nats(seen@).take(len as int),
                        visited@.len() == self.ids@.len(),
                        marks(visited@, nats(seen@)),
                        nats(seen@) == take_new(f.take(j as int), s0),
                    decreases found.len() - j,
                {
                    let p: usize = found[j];
                    proof {
                        assert(f[j as int] == p as nat);
                        assert(f.take(j + 1).drop_last() =~= f.take(j as int));
                        assert(f.take(j + 1).last() == p as nat);
                        assert(visited@[p as int] == nats(seen@).contains(p as nat));
                    }
                    if !visited[p] {
                        let ghost was = nats(seen@);
                        visited.set(p, true);
                        seen.push(p);
                        proof {
                            let now = nats(seen@);
                            assert(now =~= was.push(p as nat));
                            assert forall|i: int| 0 <= i < visited@.len() implies #[trigger]
                                visited@[i] == now.contains(i as nat) by {
                                if was.contains(i as nat) {
                                    let q = choose|q: int|
                                        0 <= q < was.len() && was[q] == i as nat;
                                    assert(now[q] == i as nat);
                                }
                                if now.contains(i as nat) {
                                    let q = choose|q: int|
                                        0 <= q < now.len() && now[q] == i as nat;
                                    if q < was.len() {
                                        assert(was[q] == i as nat);
                                    }
                                }
                                assert(now[was.len() as int] == p as nat);
                            }
                            assert(nats(seen@).take(len as int) =~= base);
                        }
                    }
                    j += 1;
                }
                assert(f.take(f.len() as int) =~= f);
                k += 1;
            }
            from = len;
            depth -= 1;
        }
        let ghost all = spread(edges, seq![start as nat], 0, max_depth as nat);
        assert(nats(seen@) == all);
        let rest = seen.split_off(1);
        proof {
            assert(nats(rest@) =~= all.skip(1));
            assert forall|i: int| 0 <= i < rest@.len() implies #[trigger] rest@[i]
                < self.ids@.len() by {
                assert(all[i + 1] == rest@[i] as nat);
            }
        }
        self.ids_of(&rest)
    }

    /// What a node calls directly, the edge added last first.
    pub fn callees(&self, of: &str) -> (r: Vec<String>)
        requires
            self.wf(),
        ensures
            text::views(r@) == (if self.model().index.contains_key(of@) {
                ids_at(
                    self.model(),
                    outgoing(self.model().edges, self.model().index[of@], "Calls"@),
                )
            } else {
                Seq::empty()
            }),
    {
        let n: usize = match self.idx.get(of) {
            Some(n) => *n,
            None => {
                let r: Vec<String> = Vec::new();
                assert(text::views(r@) =~= Seq::empty());
                return r;
            },
        };
        let out = edges_from(&self.graph, n);
        let ghost edges = graph_edges(self.graph);
        let ghost o = all_outgoing(edges, n as nat);
        let mut places: Vec<usize> = Vec::new();
        let mut i: usize = 0;
        assert(o.take(0) =~= Seq::empty());
        assert(nats(places@) =~= calls_among(o.take(0)));
        while i < out.len()
            invariant
                i <= out.len(),
                o == out@.map_values(|e: (usize, String)| (e.0 as nat, e.1@)),
                nats(places@) == calls_among(o.take(i as int)),
            decreases out.len() - i,
        {
            proof {
                assert(o[i as int] == (out@[i as int].0 as nat, out@[i as int].1@));
                assert(o.take(i + 1).drop_last() =~= o.take(i as int));
            }
            if text::same(out[i].1.as_str(), "Calls") {
                let ghost before = nats(places@);
                let p: usize = out[i].0;
                places.push(p);
                assert(nats(places@) =~= before.push(p as nat));
            }
            i += 1;
        }
        proof {
            assert(o.take(o.len() as int) =~= o);
            lemma_calls_among(edges, n as nat);
            lemma_outgoing_bound(edges, n as nat, "Calls"@, self.ids@.len());
            assert forall|i: int| 0 <= i < places@.len() implies #[trigger] places@[i]
                < self.ids@.len() by {
                assert(nats(places@)[i] == places@[i] as nat);
            }
        }
        self.ids_of(&places)
    }
}

/// Whether the marks are those of the members of `seen`, all of them in range.
spec fn marks(visited: Seq<bool>, seen: Seq<nat>) -> bool {
    &&& forall|i: int|
        0 <= i < visited.len() ==> #[trigger] visited[i] == seen.contains(i as nat)
    &&& forall|i: int| 0 <= i < seen.len() ==> #[trigger] seen[i] < visited.len()
}

/// The targets of the calls among outgoing edges.
spec fn calls_among(out: Seq<(nat, Seq<char>)>) -> Seq<nat>
    decreases out.len(),
{
    if out.len() == 0 {
        Seq::empty()
    } else {
        let rest = calls_among(out.drop_last());
        if out.last().1 == "Calls"@ {
            rest.push(out.last().0)
        } else {
            rest
        }
    }
}

proof fn lemma_calls_front(x: (nat, Seq<char>), out: Seq<(nat, Seq<char>)>)
    ensures
        calls_among(seq![x] + out) == (if x.1 == "Calls"@ {
            seq![x.0] + calls_among(out)
        } else {
            calls_among(out)
        }),
    decreases out.len(),
{
    let all = seq![x] + out;
    if out.len() == 0 {
        assert(all.drop_last() =~= Seq::empty());
        assert(all.last() == x);
        assert(calls_among(all.drop_last()) =~= Seq::empty());
        assert(seq![x.0] + calls_among(out) =~= seq![x.0]);
        assert(Seq::<nat>::empty().push(x.0) =~= seq![x.0]);
    } else {
        assert(all.drop_last() =~= seq![x] + out.drop_last());
        assert(all.last() == out.last());
        lemma_calls_front(x, out.drop_last());
        if x.1 == "Calls"@ {
            assert((seq![x.0] + calls_among(out.drop_last())).push(out.last().0) =~= seq![x.0]
                + calls_among(out.drop_last()).push(out.last().0));
        }
    }
}

proof fn lemma_calls_among(edges: Seq<(nat, nat, Seq<char>)>, n: nat)
    ensures
        calls_among(all_outgoing(edges, n)) == outgoing(edges, n, "Calls"@),
    decreases edges.len(),
{
    if edges.len() > 0 {
        lemma_calls_among(edges.drop_last(), n);
        if edges.last().0 == n {
            lemma_calls_front(
                (edges.last().1, edges.last().2),
                all_outgoing(edges.drop_last(), n),
            );
        }
    }
}

proof fn lemma_outgoing_bound(
    edges: Seq<(nat, nat, Seq<char>)>,
    n: nat,
    relation: Seq<char>,
    bound: nat,
)
    requires
        forall|i: int| 0 <= i < edges.len() ==> (#[trigger] edges[i]).1 < bound,
    ensures
        forall|i: int|
            0 <= i < outgoing(edges, n, relation).len() ==> #[trigger] outgoing(
                edges,
                n,
                relation,
            )[i] < bound,
    decreases edges.len(),
{
    if edges.len() > 0 {
        let t = edges.drop_last();
        assert forall|i: int| 0 <= i < t.len() implies (#[trigger] t[i]).1 < bound by {
            assert(t[i] == edges[i]);
        }
        lemma_outgoing_bound(t, n, relation, bound);
        assert(edges[edges.len() - 1].1 < bound);
        let r = outgoing(t, n, relation);
        let all = outgoing(edges, n, relation);
        assert forall|i: int| 0 <= i < all.len() implies #[trigger] all[i] < bound by {
            if edges.last().0 == n && edges.last().2 == relation {
                if i > 0 {
                    assert(all[i] == r[i - 1]);
                }
            } else {
                assert(all[i] == r[i]);
            }
        }
    }
}

} // verus!
