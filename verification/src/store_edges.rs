//! The store's nodes and edges as a graph: updates in bulk, repairs, and the
//! checks that every index has to pass.

use vstd::hash_set::StringHashSet;
use vstd::prelude::*;
use vstd::string::*;

use crate::order;
use crate::rows;
use crate::rows::Row;
use crate::store;
use crate::store::{Store, StoreModel};
use crate::text;
use crate::types;
use crate::types::{
    Edge, EdgeModel, EdgeRelation, MetaModel, MetaValue, Metadata, Node, NodeLabel, NodeModel,
    ResolutionTier,
};

verus! {

/// The edges that do not originate in a file.
pub open spec fn edge_outside(file: Seq<char>) -> spec_fn(EdgeModel) -> bool {
    |e: EdgeModel| e.src_file != file
}

/// The edges other than those that syntax alone gave for a file.
pub open spec fn not_syntactic(file: Seq<char>) -> spec_fn(EdgeModel) -> bool {
    |e: EdgeModel| !(e.src_file == file && e.tier == ResolutionTier::TreeSitter)
}

/// Whether a node with the id is there.
pub open spec fn has_node(nodes: Seq<NodeModel>, id: Seq<char>) -> bool {
    rows::any(nodes, store::node_is(id))
}

/// The edges with both ends among the nodes.
pub open spec fn grounded(nodes: Seq<NodeModel>) -> spec_fn(EdgeModel) -> bool {
    |e: EdgeModel| has_node(nodes, e.src) && has_node(nodes, e.dst)
}

/// The ids of nodes.
pub fn node_ids(nodes: &Vec<Node>) -> (r: StringHashSet)
    ensures
        forall|x: Seq<char>| #[trigger]
            r@.contains(x) == has_node(types::node_views(nodes@), x),
{
    let ghost f = |n: NodeModel| Some(n.id);
    let get = |n: &Node| -> (r: Option<String>)
        ensures
            types::opt_text(r) == Some(n@.id),
    { Some(n.id.clone()) };
    let r = rows::text_set(nodes, Ghost(f), get);
    proof {
        let m = types::node_views(nodes@);
        assert forall|x: Seq<char>| #[trigger] r@.contains(x) == has_node(m, x) by {
            rows::lemma_first_at(m, rows::gives(f, x));
            rows::lemma_first_at(m, store::node_is(x));
        }
    }
    r
}

/// Keeps the edges with both ends among the nodes.
pub fn retain_grounded(edges: &mut Vec<Edge>, nodes: &Vec<Node>)
    ensures
        rows::seen(final(edges)@) == rows::kept(
            rows::seen(old(edges)@),
            grounded(types::node_views(nodes@)),
        ),
{
    let ids = node_ids(nodes);
    let ghost m = types::node_views(nodes@);
    let test = |e: &Edge| -> (t: bool)
        ensures
            t == grounded(types::node_views(nodes@))(e@),
    { ids.contains(e.src.as_str()) && ids.contains(e.dst.as_str()) };
    rows::retain(edges, Ghost(grounded(m)), test);
}

/// What the analytics say of a node: its community, the bits of its PageRank
/// and of its betweenness, and how many calls come in and go out.
pub struct Analytics {
    pub id: String,
    pub community: u32,
    pub pagerank: u64,
    pub betweenness: u64,
    pub fan_in: u32,
    pub fan_out: u32,
}

/// A node with what the analytics say of it.
pub open spec fn analysed(n: NodeModel, a: Analytics) -> NodeModel {
    if n.id == a.id@ {
        NodeModel {
            community: Some(a.community),
            pagerank: a.pagerank,
            betweenness: a.betweenness,
            metadata: types::meta_set(
                types::meta_set(n.metadata, "fan_in"@, MetaModel::Count(a.fan_in as u64)),
                "fan_out"@,
                MetaModel::Count(a.fan_out as u64),
            ),
            ..n
        }
    } else {
        n
    }
}

/// The nodes with what the analytics say of each in turn.
pub open spec fn all_analysed(nodes: Seq<NodeModel>, items: Seq<Analytics>) -> Seq<NodeModel>
    decreases items.len(),
{
    if items.len() == 0 {
        nodes
    } else {
        all_analysed(nodes, items.drop_last()).map_values(
            |n: NodeModel| analysed(n, items.last()),
        )
    }
}

proof fn lemma_analysed_ids(nodes: Seq<NodeModel>, items: Seq<Analytics>)
    ensures
        all_analysed(nodes, items).len() == nodes.len(),
        forall|i: int|
            0 <= i < nodes.len() ==> (#[trigger] all_analysed(nodes, items)[i]).id == nodes[i].id,
    decreases items.len(),
{
    if items.len() > 0 {
        lemma_analysed_ids(nodes, items.drop_last());
    }
}

/// Whether an id consists of small letters, digits, dots and underscores.
pub open spec fn is_normal_id(id: Seq<char>) -> bool {
    forall|i: int| 0 <= i < id.len() ==> is_id_char(#[trigger] id[i])
}

/// The characters of a normalised id.
pub open spec fn is_id_char(c: char) -> bool {
    text::is_lower(c) || text::is_digit(c) || c == '.' || c == '_'
}

/// Whether the label is one of code.
pub open spec fn is_code_label(label: NodeLabel) -> bool {
    label == NodeLabel::Function || label == NodeLabel::Method || label == NodeLabel::Class
        || label == NodeLabel::Interface || label == NodeLabel::Enum || label == NodeLabel::Type
        || label == NodeLabel::Module || label == NodeLabel::File
}

/// The edges with an end that is no node.
pub open spec fn dangling(nodes: Seq<NodeModel>) -> spec_fn(EdgeModel) -> bool {
    |e: EdgeModel| !(has_node(nodes, e.src) && has_node(nodes, e.dst))
}

/// The nodes of code whose id is not normalised.
pub open spec fn odd_id() -> spec_fn(NodeModel) -> bool {
    |n: NodeModel| is_code_label(n.label) && !is_normal_id(n.id)
}

/// Whether the metadata give no justification: none is there, or it is null.
pub open spec fn lacks_reason(metadata: types::MetaEntries) -> bool {
    match types::meta_get(metadata, "justification"@) {
        Some(types::MetaModel::Json(j)) => j == "null"@,
        Some(_) => false,
        None => true,
    }
}

/// The calls that syntax alone gave and that carry no justification.
pub open spec fn unjustified() -> spec_fn(EdgeModel) -> bool {
    |e: EdgeModel|
        e.relation == EdgeRelation::Calls && e.tier == ResolutionTier::TreeSitter
            && lacks_reason(e.metadata)
}

/// The words for a dangling edge.
pub open spec fn dangling_text() -> spec_fn(EdgeModel) -> Seq<char> {
    |e: EdgeModel| "dangling edge: "@ + e.src + " -"@ + e.relation.text() + "-> "@ + e.dst
}

/// The words for an id that is not normalised.
pub open spec fn odd_id_text() -> spec_fn(NodeModel) -> Seq<char> {
    |n: NodeModel| "non-normalized FQN: "@ + n.id
}

/// The words for a call without a justification.
pub open spec fn unjustified_text() -> spec_fn(EdgeModel) -> Seq<char> {
    |e: EdgeModel| "CALLS edge without justification: "@ + e.src + " -> "@ + e.dst
}

/// The faults of a graph in words, at most twenty of each kind.
pub open spec fn faults(s: StoreModel) -> Seq<Seq<char>> {
    rows::limited(rows::kept(s.edges, dangling(s.nodes)), 20).map_values(dangling_text())
        + rows::limited(rows::kept(s.nodes, odd_id()), 20).map_values(odd_id_text())
        + rows::limited(rows::kept(s.edges, unjustified()), 20).map_values(unjustified_text())
}

/// See [`is_normal_id`].
fn normal_id(id: &str) -> (r: bool)
    ensures
        r == is_normal_id(id@),
{
    let v = text::chars_of(id);
    let mut i: usize = 0;
    while i < v.len()
        invariant
            i <= v.len(),
            v@ == id@,
            forall|j: int| 0 <= j < i ==> is_id_char(#[trigger] id@[j]),
        decreases v.len() - i,
    {
        let c = v[i];
        if !(('a' <= c && c <= 'z') || ('0' <= c && c <= '9') || c == '.' || c == '_') {
            assert(!is_id_char(id@[i as int]));
            return false;
        }
        i += 1;
    }
    true
}

/// See [`is_code_label`].
fn code_label(label: NodeLabel) -> (r: bool)
    ensures
        r == is_code_label(label),
{
    label == NodeLabel::Function || label == NodeLabel::Method || label == NodeLabel::Class || label
        == NodeLabel::Interface || label == NodeLabel::Enum || label == NodeLabel::Type || label
        == NodeLabel::Module || label == NodeLabel::File
}

/// A node as graph algorithms read it: without the text of a document.
pub open spec fn light_node() -> spec_fn(NodeModel) -> NodeModel {
    |n: NodeModel| NodeModel { metadata: types::meta_without(n.metadata, "text"@), ..n }
}

/// An edge as graph algorithms read it: without metadata.
pub open spec fn light_edge() -> spec_fn(EdgeModel) -> EdgeModel {
    |e: EdgeModel| EdgeModel { metadata: Seq::empty(), ..e }
}

/// The order of nodes by id.
pub open spec fn id_order() -> spec_fn(NodeModel, NodeModel) -> bool {
    |a: NodeModel, b: NodeModel| text::text_less(a.id, b.id)
}

/// Whether an edge comes before another by source, target and relation name.
pub open spec fn edge_less(a: EdgeModel, b: EdgeModel) -> bool {
    if a.src != b.src {
        text::text_less(a.src, b.src)
    } else if a.dst != b.dst {
        text::text_less(a.dst, b.dst)
    } else {
        text::text_less(a.relation.text(), b.relation.text())
    }
}

/// The order of edges by source, target and relation name.
pub open spec fn edge_order() -> spec_fn(EdgeModel, EdgeModel) -> bool {
    |a: EdgeModel, b: EdgeModel| edge_less(a, b)
}

/// See [`edge_less`].
fn edge_before(a: &Edge, b: &Edge) -> (r: bool)
    ensures
        r == edge_less(a@, b@),
{
    if !text::same(a.src.as_str(), b.src.as_str()) {
        text::less(a.src.as_str(), b.src.as_str())
    } else if !text::same(a.dst.as_str(), b.dst.as_str()) {
        text::less(a.dst.as_str(), b.dst.as_str())
    } else {
        text::less(a.relation.as_str(), b.relation.as_str())
    }
}

/// The nodes in the order of their ids.
pub fn arrange_nodes(nodes: Vec<Node>) -> (r: Vec<Node>)
    ensures
        types::node_views(r@) == order::arranged(types::node_views(nodes@), id_order()),
{
    let ghost all = nodes@;
    let ghost before = |a: Node, b: Node| text::text_less(a@.id, b@.id);
    let less = |a: &Node, b: &Node| -> (t: bool)
        ensures
            t == text::text_less(a@.id, b@.id),
    { text::less(a.id.as_str(), b.id.as_str()) };
    let r = order::arrange(nodes, Ghost(before), less);
    proof {
        order::lemma_arranged_map(all, before, |n: Node| n@, id_order());
        assert(types::node_views(r@) =~= r@.map_values(|n: Node| n@));
        assert(types::node_views(all) =~= all.map_values(|n: Node| n@));
    }
    r
}

/// The edges in the order of their keys.
pub fn arrange_edges(edges: Vec<Edge>) -> (r: Vec<Edge>)
    ensures
        types::edge_views(r@) == order::arranged(types::edge_views(edges@), edge_order()),
{
    let ghost all = edges@;
    let ghost before = |a: Edge, b: Edge| edge_less(a@, b@);
    let less = |a: &Edge, b: &Edge| -> (t: bool)
        ensures
            t == edge_less(a@, b@),
    { edge_before(a, b) };
    let r = order::arrange(edges, Ghost(before), less);
    proof {
        order::lemma_arranged_map(all, before, |e: Edge| e@, edge_order());
        assert(types::edge_views(r@) =~= r@.map_values(|e: Edge| e@));
        assert(types::edge_views(all) =~= all.map_values(|e: Edge| e@));
    }
    r
}

impl Store {
    /// Puts nodes in by their ids, one after the other.
    pub fn bulk_upsert_nodes(&mut self, nodes: &Vec<Node>)
        requires
            old(self)@.wf(),
        ensures
            final(self)@ == (StoreModel {
                nodes: rows::all_upserted::<Node>(old(self)@.nodes, types::node_views(nodes@)),
                ..old(self)@
            }),
            final(self)@.wf(),
    {
        proof {
            rows::lemma_unique_all_upserted::<Node>(self@.nodes, types::node_views(nodes@));
        }
        rows::upsert_all(&mut self.nodes, nodes);
    }

    /// Puts edges in by their keys, one after the other.
    pub fn bulk_upsert_edges(&mut self, edges: &Vec<Edge>)
        requires
            old(self)@.wf(),
        ensures
            final(self)@ == (StoreModel {
                edges: rows::all_upserted::<Edge>(old(self)@.edges, types::edge_views(edges@)),
                ..old(self)@
            }),
            final(self)@.wf(),
    {
        proof {
            rows::lemma_unique_all_upserted::<Edge>(self@.edges, types::edge_views(edges@));
        }
        rows::upsert_all(&mut self.edges, edges);
    }

    /// Adds the edges whose key is not there yet.
    pub fn bulk_insert_edges_keep_existing(&mut self, edges: &Vec<Edge>)
        requires
            old(self)@.wf(),
        ensures
            final(self)@ == (StoreModel {
                edges: rows::all_added::<Edge>(old(self)@.edges, types::edge_views(edges@)),
                ..old(self)@
            }),
            final(self)@.wf(),
    {
        proof {
            rows::lemma_unique_all_added::<Edge>(self@.edges, types::edge_views(edges@));
        }
        rows::add_all(&mut self.edges, edges);
    }

    /// Takes out the edges that syntax alone gave for a file.
    pub fn delete_tree_sitter_edges_for_file(&mut self, file: &str)
        requires
            old(self)@.wf(),
        ensures
            final(self)@ == (StoreModel {
                edges: rows::kept(old(self)@.edges, not_syntactic(file@)),
                ..old(self)@
            }),
            final(self)@.wf(),
    {
        proof {
            rows::lemma_unique_kept::<Edge>(self@.edges, not_syntactic(file@));
        }
        let test = |e: &Edge| -> (t: bool)
            ensures
                t == not_syntactic(file@)(e@),
        { !(text::same(e.src_file.as_str(), file) && e.tier == ResolutionTier::TreeSitter) };
        rows::retain(&mut self.edges, Ghost(not_syntactic(file@)), test);
    }

    /// Takes out all edges that originate in a file.
    pub fn delete_edges_for_file(&mut self, file: &str)
        requires
            old(self)@.wf(),
        ensures
            final(self)@ == (StoreModel {
                edges: rows::kept(old(self)@.edges, edge_outside(file@)),
                ..old(self)@
            }),
            final(self)@.wf(),
    {
        proof {
            rows::lemma_unique_kept::<Edge>(self@.edges, edge_outside(file@));
        }
        let test = |e: &Edge| -> (t: bool)
            ensures
                t == edge_outside(file@)(e@),
        { !text::same(e.src_file.as_str(), file) };
        rows::retain(&mut self.edges, Ghost(edge_outside(file@)), test);
    }

    /// Takes out all edges.
    pub fn clear_edges(&mut self)
        requires
            old(self)@.wf(),
        ensures
            final(self)@ == (StoreModel { edges: Seq::empty(), ..old(self)@ }),
            final(self)@.wf(),
    {
        self.edges = Vec::new();
        assert(self@.edges =~= Seq::empty());
    }

    /// Takes out all hyperedges and their members.
    pub fn clear_hyperedges(&mut self)
        requires
            old(self)@.wf(),
        ensures
            final(self)@ == (StoreModel {
                hyperedges: Seq::empty(),
                members: Seq::empty(),
                ..old(self)@
            }),
            final(self)@.wf(),
    {
        self.hyperedges = Vec::new();
        self.members = Vec::new();
        assert(self@.hyperedges =~= Seq::empty());
        assert(self@.members =~= Seq::empty());
    }

    /// Takes out the edges with an end that is no node, and says how many
    /// there were.
    pub fn drop_dangling_edges(&mut self) -> (r: usize)
        requires
            old(self)@.wf(),
        ensures
            final(self)@ == (StoreModel {
                edges: rows::kept(old(self)@.edges, grounded(old(self)@.nodes)),
                ..old(self)@
            }),
            final(self)@.wf(),
            r == old(self)@.edges.len() - final(self)@.edges.len(),
    {
        proof {
            rows::lemma_unique_kept::<Edge>(self@.edges, grounded(self@.nodes));
            rows::lemma_kept(self@.edges, grounded(self@.nodes));
        }
        let n: usize = self.edges.len();
        assert(n == self@.edges.len());
        let ghost m = self@.nodes;
        retain_grounded(&mut self.edges, &self.nodes);
        assert(self.edges@.len() == self@.edges.len());
        n - self.edges.len()
    }

    /// The faults of the graph in words; see [`faults`].
    pub fn validate_graph(&self) -> (r: Vec<String>)
        ensures
            text::views(r@) == faults(self@),
    {
        let ids = node_ids(&self.nodes);
        let ghost m = self@.nodes;
        let test = |e: &Edge| -> (t: bool)
            ensures
                t == dangling(self@.nodes)(e@),
        { !(ids.contains(e.src.as_str()) && ids.contains(e.dst.as_str())) };
        let loose = rows::limit(rows::select(&self.edges, Ghost(dangling(m)), test), 20);
        let test = |n: &Node| -> (t: bool)
            ensures
                t == odd_id()(n@),
        { code_label(n.label) && !normal_id(n.id.as_str()) };
        let odd = rows::limit(rows::select(&self.nodes, Ghost(odd_id()), test), 20);
        let test = |e: &Edge| -> (t: bool)
            ensures
                t == unjustified()(e@),
        {
            e.relation == EdgeRelation::Calls && e.tier == ResolutionTier::TreeSitter
                && match e.metadata.get("justification") {
                Some(MetaValue::Json(j)) => text::same(j.as_str(), "null"),
                Some(_) => false,
                None => true,
            }
        };
        let bare = rows::limit(rows::select(&self.edges, Ghost(unjustified()), test), 20);
        let mut out: Vec<String> = Vec::new();
        let say = |e: &Edge| -> (r: String)
            ensures
                r@ == dangling_text()(e@),
        {
            "dangling edge: ".to_owned().concat(e.src.as_str()).concat(" -").concat(
                e.relation.as_str(),
            ).concat("-> ").concat(e.dst.as_str())
        };
        rows::say_all(&mut out, &loose, Ghost(dangling_text()), say);
        let say = |n: &Node| -> (r: String)
            ensures
                r@ == odd_id_text()(n@),
        { "non-normalized FQN: ".to_owned().concat(n.id.as_str()) };
        rows::say_all(&mut out, &odd, Ghost(odd_id_text()), say);
        let say = |e: &Edge| -> (r: String)
            ensures
                r@ == unjustified_text()(e@),
        {
            "CALLS edge without justification: ".to_owned().concat(e.src.as_str()).concat(
                " -> ",
            ).concat(e.dst.as_str())
        };
        rows::say_all(&mut out, &bare, Ghost(unjustified_text()), say);
        assert(text::views(out@) =~= faults(self@));
        out
    }

    /// Sets what the analytics say of nodes; see [`all_analysed`].
    pub fn update_analytics(&mut self, items: &Vec<Analytics>)
        requires
            old(self)@.wf(),
        ensures
            final(self)@ == (StoreModel {
                nodes: all_analysed(old(self)@.nodes, items@),
                ..old(self)@
            }),
            final(self)@.wf(),
    {
        let ghost was = self@;
        let mut i: usize = 0;
        while i < items.len()
            invariant
                i <= items.len(),
                self@ == (StoreModel {
                    nodes: all_analysed(was.nodes, items@.take(i as int)),
                    ..was
                }),
            decreases items.len() - i,
        {
            let a = &items[i];
            let ghost before = self@;
            let mut k: usize = 0;
            while k < self.nodes.len()
                invariant
                    k <= self.nodes.len(),
                    self.nodes@.len() == before.nodes.len(),
                    self@ == (StoreModel { nodes: self@.nodes, ..before }),
                    forall|j: int|
                        k <= j < before.nodes.len() ==> #[trigger] self@.nodes[j]
                            == before.nodes[j],
                    forall|j: int|
                        0 <= j < k ==> #[trigger] self@.nodes[j] == analysed(
                            before.nodes[j],
                            *a,
                        ),
                decreases self.nodes.len() - k,
            {
                let ghost now = self@.nodes;
                if text::same(self.nodes[k].id.as_str(), a.id.as_str()) {
                    let mut n = self.nodes[k].copy();
                    assert(n@ == now[k as int]);
                    n.community = Some(a.community);
                    n.pagerank = a.pagerank;
                    n.betweenness = a.betweenness;
                    n.metadata.insert("fan_in".to_owned(), MetaValue::Count(a.fan_in as u64));
                    n.metadata.insert("fan_out".to_owned(), MetaValue::Count(a.fan_out as u64));
                    let ghost m = n@;
                    self.nodes.set(k, n);
                    assert(self@.nodes =~= now.update(k as int, m));
                }
                k += 1;
            }
            i += 1;
            proof {
                assert(items@.take(i as int).drop_last() =~= items@.take(i - 1));
                assert(self@.nodes =~= all_analysed(was.nodes, items@.take(i as int)));
            }
        }
        proof {
            assert(items@.take(items@.len() as int) =~= items@);
            lemma_analysed_ids(was.nodes, items@);
            let s = all_analysed(was.nodes, items@);
            assert forall|i: int, j: int| 0 <= i < j < s.len() implies (#[trigger] s[i]).id != (
            #[trigger] s[j]).id by {
                assert(was.nodes[i].id != was.nodes[j].id) by {
                    assert(rows::unique::<Node>(was.nodes));
                }
            }
        }
    }

    /// All nodes.
    pub fn all_nodes(&self) -> (r: Vec<Node>)
        ensures
            types::node_views(r@) == self@.nodes,
    {
        rows::copies(&self.nodes)
    }

    /// All edges.
    pub fn all_edges(&self) -> (r: Vec<Edge>)
        ensures
            types::edge_views(r@) == self@.edges,
    {
        rows::copies(&self.edges)
    }

    /// The nodes as graph algorithms read them, in the order of their ids.
    pub fn graph_nodes(&self) -> (r: Vec<Node>)
        ensures
            types::node_views(r@) == order::arranged(
                self@.nodes.map_values(light_node()),
                id_order(),
            ),
    {
        let mut out: Vec<Node> = Vec::new();
        let ghost f = |n: Node| light_node()(n@);
        let make = |n: &Node| -> (r: Node)
            ensures
                r@ == light_node()(n@),
        {
            let mut c = n.copy();
            let light = c.metadata.without("text");
            c.metadata = light;
            c
        };
        rows::append(&mut out, &self.nodes, Ghost(f), make);
        assert(types::node_views(out@) =~= self@.nodes.map_values(light_node()));
        arrange_nodes(out)
    }

    /// The edges as graph algorithms read them, in the order of their keys.
    pub fn graph_edges(&self) -> (r: Vec<Edge>)
        ensures
            types::edge_views(r@) == order::arranged(
                self@.edges.map_values(light_edge()),
                edge_order(),
            ),
    {
        let mut out: Vec<Edge> = Vec::new();
        let ghost f = |e: Edge| light_edge()(e@);
        let make = |e: &Edge| -> (r: Edge)
            ensures
                r@ == light_edge()(e@),
        {
            let mut c = e.copy();
            c.metadata = Metadata::new();
            c
        };
        rows::append(&mut out, &self.edges, Ghost(f), make);
        assert(types::edge_views(out@) =~= self@.edges.map_values(light_edge()));
        arrange_edges(out)
    }

    /// The number of nodes.
    pub fn node_count(&self) -> (r: usize)
        ensures
            r == self@.nodes.len(),
    {
        self.nodes.len()
    }

    /// The number of edges.
    pub fn edge_count(&self) -> (r: usize)
        ensures
            r == self@.edges.len(),
    {
        self.edges.len()
    }

    /// The nodes with a label.
    pub fn nodes_by_label(&self, label: NodeLabel) -> (r: Vec<Node>)
        ensures
            types::node_views(r@) == rows::kept(self@.nodes, store::node_labelled(label)),
    {
        let test = |n: &Node| -> (t: bool)
            ensures
                t == (n@.label == label),
        { n.label == label };
        rows::select(&self.nodes, Ghost(store::node_labelled(label)), test)
    }

    /// The nodes with a name.
    pub fn find_by_name(&self, name: &str) -> (r: Vec<Node>)
        ensures
            types::node_views(r@) == rows::kept(self@.nodes, store::node_named(name@)),
    {
        let test = |n: &Node| -> (t: bool)
            ensures
                t == (n@.name == name@),
        { text::same(n.name.as_str(), name) };
        rows::select(&self.nodes, Ghost(store::node_named(name@)), test)
    }
}

/// After the dangling edges were dropped, none is left.
pub proof fn law_no_edge_dangles(s: StoreModel)
    ensures
        ({
            let healed = StoreModel { edges: rows::kept(s.edges, grounded(s.nodes)), ..s };
            rows::kept(healed.edges, dangling(healed.nodes)).len() == 0
        }),
{
    let edges = rows::kept(s.edges, grounded(s.nodes));
    rows::lemma_kept(s.edges, grounded(s.nodes));
    rows::lemma_kept(edges, dangling(s.nodes));
    let bad = rows::kept(edges, dangling(s.nodes));
    if bad.len() > 0 {
        assert(edges.contains(bad[0]));
        assert(bad.contains(bad[0]));
        let i = choose|i: int| 0 <= i < edges.len() && edges[i] == bad[0];
        assert(grounded(s.nodes)(edges[i]));
    }
}

} // verus!
