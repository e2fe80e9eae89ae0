//! What an index that was kept up to date shares with one that was made anew
//! once the graph was analysed: all of its nodes and edges, and its hash.

use vstd::prelude::*;

use crate::digest;
use crate::fresh_laws;
use crate::fresh_laws::{bare, bare_nodes, is_own_fact};
use crate::index::ParsedItem;
use crate::index_laws;
use crate::index_laws::same_rows;
use crate::parse;
use crate::parse::ContextModel;
use crate::rebuild;
use crate::rebuild::{Flags, Score};
use crate::rows;
use crate::scan;
use crate::search;
use crate::store;
use crate::store::StoreModel;
use crate::store_edges;
use crate::store_edges::Analytics;
use crate::tables::{CallRowModel, CoChangeModel};
use crate::tsconfig::ScopeModel;
use crate::types;
use crate::types::{Edge, EdgeModel, EdgeRelation, MetaEntries, MetaModel, Node, NodeLabel, NodeModel};
use crate::update;

verus! {

/// The metadata that come from the edges of the graph.
pub open spec fn edge_facts(fan_in: nat, fan_out: nat) -> MetaEntries {
    seq![
        ("fan_in"@, MetaModel::Count(fan_in as u64)),
        ("fan_out"@, MetaModel::Count(fan_out as u64)),
    ]
}

/// Whether metadata hold what comes from the edges of the graph behind all else,
/// or not at all.
pub open spec fn is_settled(m: MetaEntries) -> bool {
    let own = rows::kept(m, is_own_fact());
    let k = own.len() as int;
    m == own || (m.len() == k + 2 && m.take(k) == own && m[k].0 == "fan_in"@ && m[k + 1].0
        == "fan_out"@)
}

/// Whether the metadata of all nodes are settled.
pub open spec fn all_settled(nodes: Seq<NodeModel>) -> bool {
    forall|n: NodeModel| #[trigger] nodes.contains(n) ==> is_settled(n.metadata)
}

/// Whether the metadata of the nodes of parsed files are settled.
pub open spec fn items_settled(items: Seq<ParsedItem>) -> bool {
    forall|i: int|
        0 <= i < items.len() ==> all_settled(index_laws::item_nodes(#[trigger] items[i]))
}

/// Whether the ids of all nodes of code are normalised.
pub open spec fn all_normal(nodes: Seq<NodeModel>) -> bool {
    forall|n: NodeModel| #[trigger] nodes.contains(n) ==> !store_edges::odd_id()(n)
}

/// Whether the ids of the nodes of parsed files are normalised.
pub open spec fn items_normal(items: Seq<ParsedItem>) -> bool {
    forall|i: int|
        0 <= i < items.len() ==> all_normal(index_laws::item_nodes(#[trigger] items[i]))
}

/// A bare node with what is computed from the graph.
pub open spec fn whole(b: NodeModel, score: Score, fan_in: nat, fan_out: nat) -> NodeModel {
    NodeModel {
        community: Some(score.community),
        pagerank: score.pagerank,
        betweenness: score.betweenness,
        metadata: b.metadata + edge_facts(fan_in, fan_out),
        ..b
    }
}

/// A bare node with what the graph algorithms say of its id and with its calls.
pub open spec fn whole_in(
    edges: Seq<EdgeModel>,
    scores: spec_fn(Seq<char>) -> Score,
    b: NodeModel,
) -> NodeModel {
    whole(b, scores(b.id), rebuild::fan_in(edges, b.id), rebuild::fan_out(edges, b.id))
}

/// Whether analytics are those of a node of the store.
pub open spec fn is_of_node(
    s: StoreModel,
    a: Analytics,
    scores: spec_fn(Seq<char>) -> Score,
) -> bool {
    exists|n: NodeModel| #[trigger]
        s.nodes.contains(n) && rebuild::is_analytics(a, n, scores(n.id), s.edges)
}

/// Whether the analytics are those of the store: each is of a node of it, and
/// each node has one.
pub open spec fn is_analysis(
    s: StoreModel,
    items: Seq<Analytics>,
    scores: spec_fn(Seq<char>) -> Score,
) -> bool {
    &&& forall|i: int| 0 <= i < items.len() ==> is_of_node(s, #[trigger] items[i], scores)
    &&& forall|n: NodeModel| #[trigger]
        s.nodes.contains(n) ==> exists|i: int|
            0 <= i < items.len() && (#[trigger] items[i]).id@ == n.id
}

/// What [`Store::analytics`](crate::store::Store::analytics) gives for all nodes
/// of a store are its analytics.
pub proof fn law_analytics_are_those_of_the_store(
    s: StoreModel,
    nodes: Seq<NodeModel>,
    given: Seq<Score>,
    items: Seq<Analytics>,
    scores: spec_fn(Seq<char>) -> Score,
)
    requires
        items.len() == nodes.len() && given.len() == nodes.len(),
        forall|i: int|
            0 <= i < nodes.len() ==> rebuild::is_analytics(
                #[trigger] items[i],
                nodes[i],
                given[i],
                s.edges,
            ),
        forall|i: int| 0 <= i < nodes.len() ==> given[i] == scores((#[trigger] nodes[i]).id),
        forall|i: int|
            0 <= i < nodes.len() ==> exists|n: NodeModel| #[trigger]
                s.nodes.contains(n) && n.id == (#[trigger] nodes[i]).id,
        forall|n: NodeModel| #[trigger]
            s.nodes.contains(n) ==> exists|i: int|
                0 <= i < nodes.len() && (#[trigger] nodes[i]).id == n.id,
    ensures
        is_analysis(s, items, scores),
{
    assert forall|i: int| 0 <= i < items.len() implies is_of_node(s, #[trigger] items[i], scores) by {
        let n = choose|n: NodeModel| #[trigger] s.nodes.contains(n) && n.id == nodes[i].id;
        assert(rebuild::is_analytics(items[i], nodes[i], given[i], s.edges));
        assert(rebuild::is_analytics(items[i], n, scores(n.id), s.edges));
    }
    assert forall|n: NodeModel| #[trigger] s.nodes.contains(n) implies exists|i: int|
        0 <= i < items.len() && (#[trigger] items[i]).id@ == n.id by {
        let i = choose|i: int| 0 <= i < nodes.len() && (#[trigger] nodes[i]).id == n.id;
        assert(rebuild::is_analytics(items[i], nodes[i], given[i], s.edges));
        assert(items[i].id@ == n.id);
    }
}

proof fn lemma_meta_set(m: MetaEntries, k: int, key: Seq<char>, v: MetaModel)
    requires
        0 <= k <= m.len(),
        forall|i: int| 0 <= i < k ==> (#[trigger] m[i]).0 != key,
        k < m.len() ==> m[k].0 == key,
    ensures
        types::meta_set(m, key, v) == (if k < m.len() {
            m.update(k, (key, v))
        } else {
            m.push((key, v))
        }),
    decreases m.len(),
{
    if m.len() == 0 {
        assert(m.push((key, v)) =~= seq![(key, v)]);
    } else if k > 0 {
        let t = m.drop_first();
        assert(m[0].0 != key);
        assert forall|i: int| 0 <= i < k - 1 implies (#[trigger] t[i]).0 != key by {
            assert(t[i] == m[i + 1]);
        }
        if k < m.len() {
            assert(t[k - 1] == m[k]);
        }
        lemma_meta_set(t, k - 1, key, v);
        assert(types::meta_set(m, key, v) =~= if k < m.len() {
            m.update(k, (key, v))
        } else {
            m.push((key, v))
        });
    }
}

proof fn lemma_settled_set(m: MetaEntries, fan_in: nat, fan_out: nat)
    requires
        is_settled(m),
    ensures
        ({
            let own = rows::kept(m, is_own_fact());
            let r = types::meta_set(
                types::meta_set(m, "fan_in"@, MetaModel::Count(fan_in as u64)),
                "fan_out"@,
                MetaModel::Count(fan_out as u64),
            );
            &&& r == own + edge_facts(fan_in, fan_out)
            &&& rows::kept(r, is_own_fact()) == own
            &&& is_settled(r)
        }),
{
    let own = rows::kept(m, is_own_fact());
    let k = own.len() as int;
    let x = MetaModel::Count(fan_in as u64);
    let y = MetaModel::Count(fan_out as u64);
    let a = types::meta_set(m, "fan_in"@, x);
    let r = types::meta_set(a, "fan_out"@, y);
    reveal_strlit("fan_in");
    reveal_strlit("fan_out");
    assert("fan_in"@.len() != "fan_out"@.len());
    rows::lemma_kept(m, is_own_fact());
    assert forall|i: int| 0 <= i < k implies (#[trigger] m[i]).0 != "fan_in"@ && m[i].0
        != "fan_out"@ by {
        assert(own[i] == m[i]) by {
            if m != own {
                assert(m.take(k)[i] == m[i]);
            }
        }
        assert(is_own_fact()(own[i]));
    }
    lemma_meta_set(m, k, "fan_in"@, x);
    assert(a.len() == k + 1 || a.len() == k + 2);
    assert forall|i: int| 0 <= i < k + 1 implies (#[trigger] a[i]).0 != "fan_out"@ by {
        if i < k {
            assert(a[i] == m[i]);
        }
    }
    lemma_meta_set(a, k + 1, "fan_out"@, y);
    assert(r =~= own + edge_facts(fan_in, fan_out)) by {
        assert forall|i: int| 0 <= i < k implies r[i] == own[i] by {
            if m != own {
                assert(m.take(k)[i] == m[i]);
            }
        }
    }
    fresh_laws::lemma_set_fact(m, "fan_in"@, x);
    fresh_laws::lemma_set_fact(a, "fan_out"@, y);
    assert(r.take(k) =~= own);
}

proof fn lemma_analysed_at(
    nodes: Seq<NodeModel>,
    items: Seq<Analytics>,
    k: int,
    score: Score,
    fan_in: nat,
    fan_out: nat,
)
    requires
        0 <= k < nodes.len(),
        is_settled(nodes[k].metadata),
        forall|i: int|
            0 <= i < items.len() && (#[trigger] items[i]).id@ == nodes[k].id ==> items[i].community
                == score.community && items[i].pagerank == score.pagerank && items[i].betweenness
                == score.betweenness && items[i].fan_in == fan_in && items[i].fan_out == fan_out,
    ensures
        store_edges::all_analysed(nodes, items).len() == nodes.len(),
        ({
            let r = store_edges::all_analysed(nodes, items)[k];
            r == whole(bare()(nodes[k]), score, fan_in, fan_out) || (r == nodes[k] && forall|i: int|
                0 <= i < items.len() ==> (#[trigger] items[i]).id@ != nodes[k].id)
        }),
        is_settled(store_edges::all_analysed(nodes, items)[k].metadata),
    decreases items.len(),
{
    let n = nodes[k];
    let full = whole(bare()(n), score, fan_in, fan_out);
    lemma_settled_set(n.metadata, fan_in, fan_out);
    assert(is_settled(full.metadata));
    assert(rows::kept(full.metadata, is_own_fact()) == bare()(n).metadata);
    if items.len() > 0 {
        let d = items.drop_last();
        let a = items.last();
        assert forall|i: int| 0 <= i < d.len() && (#[trigger] d[i]).id@ == n.id implies d[i].community
            == score.community && d[i].pagerank == score.pagerank && d[i].betweenness
            == score.betweenness && d[i].fan_in == fan_in && d[i].fan_out == fan_out by {
            assert(d[i] == items[i]);
        }
        lemma_analysed_at(nodes, d, k, score, fan_in, fan_out);
        let b = store_edges::all_analysed(nodes, d)[k];
        assert(store_edges::all_analysed(nodes, items)[k] == store_edges::analysed(b, a));
        assert(items[items.len() - 1] == a);
        if a.id@ == n.id {
            lemma_settled_set(b.metadata, fan_in, fan_out);
            assert(store_edges::analysed(b, a) == full);
        } else if b != full {
            assert forall|i: int| 0 <= i < items.len() implies (#[trigger] items[i]).id@ != n.id by {
                if i < d.len() {
                    assert(d[i] == items[i]);
                }
            }
        }
    }
}

/// What the nodes of a store are once it was analysed.
proof fn lemma_whole_at(
    s: StoreModel,
    items: Seq<Analytics>,
    scores: spec_fn(Seq<char>) -> Score,
    k: int,
)
    requires
        is_analysis(s, items, scores),
        all_settled(s.nodes),
        0 <= k < s.nodes.len(),
    ensures
        store_edges::all_analysed(s.nodes, items).len() == s.nodes.len(),
        store_edges::all_analysed(s.nodes, items)[k] == whole_in(
            s.edges,
            scores,
            bare()(s.nodes[k]),
        ),
        is_settled(store_edges::all_analysed(s.nodes, items)[k].metadata),
{
    let n = s.nodes[k];
    assert(s.nodes.contains(n));
    let fan_in = rebuild::fan_in(s.edges, n.id);
    let fan_out = rebuild::fan_out(s.edges, n.id);
    assert forall|i: int| 0 <= i < items.len() && (#[trigger] items[i]).id@ == n.id implies items[i].community
        == scores(n.id).community && items[i].pagerank == scores(n.id).pagerank
        && items[i].betweenness == scores(n.id).betweenness && items[i].fan_in == fan_in
        && items[i].fan_out == fan_out by {
        assert(is_of_node(s, items[i], scores));
    }
    lemma_analysed_at(s.nodes, items, k, scores(n.id), fan_in, fan_out);
    let i = choose|i: int| 0 <= i < items.len() && (#[trigger] items[i]).id@ == n.id;
    assert(items[i].id@ == n.id);
}

proof fn lemma_whole(
    s: StoreModel,
    items: Seq<Analytics>,
    scores: spec_fn(Seq<char>) -> Score,
    z: NodeModel,
)
    requires
        is_analysis(s, items, scores),
        all_settled(s.nodes),
    ensures
        store_edges::all_analysed(s.nodes, items).contains(z) == (exists|b: NodeModel| #[trigger]
            bare_nodes(s).contains(b) && z == whole_in(s.edges, scores, b)),
{
    let all = store_edges::all_analysed(s.nodes, items);
    fresh_laws::law_analysis_keeps_the_graph(s, items);
    assert(all.map_values(bare()).len() == bare_nodes(s).len());
    if all.contains(z) {
        let k = choose|k: int| 0 <= k < all.len() && all[k] == z;
        lemma_whole_at(s, items, scores, k);
        let b = bare_nodes(s)[k];
        assert(b == bare()(s.nodes[k]));
        assert(bare_nodes(s).contains(b));
    }
    if exists|b: NodeModel| #[trigger]
        bare_nodes(s).contains(b) && z == whole_in(s.edges, scores, b) {
        let b = choose|b: NodeModel| #[trigger]
            bare_nodes(s).contains(b) && z == whole_in(s.edges, scores, b);
        let k = choose|k: int| 0 <= k < bare_nodes(s).len() && bare_nodes(s)[k] == b;
        lemma_whole_at(s, items, scores, k);
        assert(all[k] == z);
    }
}

proof fn lemma_count_alike(a: Seq<EdgeModel>, b: Seq<EdgeModel>, test: spec_fn(EdgeModel) -> bool)
    requires
        same_rows(a, b),
        rows::unique::<Edge>(a),
        rows::unique::<Edge>(b),
    ensures
        rows::kept(a, test).len() == rows::kept(b, test).len(),
{
    broadcast use vstd::seq_lib::group_to_multiset_ensures;

    let (x, y) = (rows::kept(a, test), rows::kept(b, test));
    rows::lemma_kept(a, test);
    rows::lemma_kept(b, test);
    rows::lemma_unique_kept::<Edge>(a, test);
    rows::lemma_unique_kept::<Edge>(b, test);
    assert forall|e: EdgeModel| #[trigger] x.contains(e) == y.contains(e) by {
        assert(a.contains(e) == b.contains(e));
    }
    index_laws::lemma_same_multiset(x, y);
    assert(x.to_multiset().len() == y.to_multiset().len());
}

proof fn lemma_whole_alike(
    a: Seq<EdgeModel>,
    b: Seq<EdgeModel>,
    scores: spec_fn(Seq<char>) -> Score,
    n: NodeModel,
)
    requires
        same_rows(a, b),
        rows::unique::<Edge>(a),
        rows::unique::<Edge>(b),
    ensures
        whole_in(a, scores, n) == whole_in(b, scores, n),
{
    lemma_count_alike(a, b, |e: EdgeModel| e.relation == EdgeRelation::Calls && e.dst == n.id);
    lemma_count_alike(a, b, |e: EdgeModel| e.relation == EdgeRelation::Calls && e.src == n.id);
}

proof fn lemma_node_alike(a: Seq<NodeModel>, b: Seq<NodeModel>, id: Seq<char>)
    requires
        a.len() == b.len(),
        forall|i: int| 0 <= i < a.len() ==> (#[trigger] b[i]).id == a[i].id,
        store_edges::has_node(a, id),
    ensures
        store_edges::has_node(b, id),
{
    rows::lemma_first_at(a, store::node_is(id));
    rows::lemma_first_at(b, store::node_is(id));
    let i = rows::first_at(a, store::node_is(id))->0;
    assert(store::node_is(id)(b[i]));
}

/// What a run finds when it comes to its end, and what it leaves.
proof fn lemma_finished(
    s: StoreModel,
    items: Seq<Analytics>,
    head: Option<Seq<char>>,
    pairs: Seq<CoChangeModel>,
    partial: bool,
)
    requires
        index_laws::is_tidy(s),
        index_laws::is_plain(s),
        index_laws::is_current(s),
    ensures
        ({
            let f = update::finished(s, items, head, pairs, partial);
            &&& f.nodes == store_edges::all_analysed(s.nodes, items)
            &&& f.nodes.len() == s.nodes.len()
            &&& f.edges == s.edges
            &&& f.calls == s.calls
            &&& f.manifest == s.manifest
            &&& bare_nodes(f) == bare_nodes(s)
            &&& index_laws::syntax_edges(f) == index_laws::syntax_edges(s)
            &&& forall|i: int|
                0 <= i < s.nodes.len() ==> (#[trigger] f.nodes[i]).id == s.nodes[i].id
                    && f.nodes[i].label == s.nodes[i].label && f.nodes[i].file_path
                    == s.nodes[i].file_path
        }),
{
    let f = update::finished(s, items, head, pairs, partial);
    let u = StoreModel { nodes: store_edges::all_analysed(s.nodes, items), ..s };
    fresh_laws::law_analysis_keeps_the_graph(s, items);
    assert(bare_nodes(u).len() == bare_nodes(s).len());
    assert forall|i: int| 0 <= i < s.nodes.len() implies (#[trigger] u.nodes[i]).id == s.nodes[i].id
        && u.nodes[i].label == s.nodes[i].label && u.nodes[i].file_path
        == s.nodes[i].file_path by {
        assert(bare_nodes(u)[i] == bare_nodes(s)[i]);
        assert(bare_nodes(u)[i] == bare()(u.nodes[i]));
        assert(bare_nodes(s)[i] == bare()(s.nodes[i]));
    }
    index_laws::law_full_rebuild_is_syntax(s);
    assert forall|i: int| 0 <= i < s.edges.len() implies store_edges::grounded(u.nodes)(
        #[trigger] s.edges[i],
    ) by {
        let e = s.edges[i];
        assert(s.edges.contains(e));
        assert(index_laws::syntax_edges(s).contains(e));
        index_laws::lemma_syntax_edge(s, e);
        lemma_node_alike(s.nodes, u.nodes, e.src);
        lemma_node_alike(s.nodes, u.nodes, e.dst);
    }
    fresh_laws::lemma_kept_all(s.edges, store_edges::grounded(u.nodes));
    assert(f.nodes == u.nodes && f.edges == u.edges && f.calls == u.calls);
}

proof fn lemma_alike_tidy(s: StoreModel, f: StoreModel)
    requires
        index_laws::is_tidy(s),
        f.calls == s.calls,
        f.nodes.len() == s.nodes.len(),
        forall|i: int|
            0 <= i < s.nodes.len() ==> (#[trigger] f.nodes[i]).id == s.nodes[i].id
                && f.nodes[i].label == s.nodes[i].label && f.nodes[i].file_path
                == s.nodes[i].file_path,
    ensures
        index_laws::is_tidy(f),
{
    assert(rows::unique::<Node>(f.nodes)) by {
        assert forall|i: int, j: int| 0 <= i < j < f.nodes.len() implies (#[trigger] f.nodes[i]).id
            != (#[trigger] f.nodes[j]).id by {
            assert(s.nodes[i].id != s.nodes[j].id);
        }
    }
    assert forall|c: CallRowModel| #[trigger] f.calls.contains(c) implies exists|n: NodeModel| #[trigger]
        f.nodes.contains(n) && n.id == c.call.caller_id && n.file_path == c.file_path by {
        let n = choose|n: NodeModel| #[trigger]
            s.nodes.contains(n) && n.id == c.call.caller_id && n.file_path == c.file_path;
        let i = choose|i: int| 0 <= i < s.nodes.len() && s.nodes[i] == n;
        assert(f.nodes.contains(f.nodes[i]));
    }
    assert forall|a: NodeModel, b: NodeModel| #[trigger]
        f.nodes.contains(a) && #[trigger] f.nodes.contains(b) && a.label == NodeLabel::File
            && b.label == NodeLabel::File && a.file_path == b.file_path implies a == b by {
        let i = choose|i: int| 0 <= i < f.nodes.len() && f.nodes[i] == a;
        let j = choose|j: int| 0 <= j < f.nodes.len() && f.nodes[j] == b;
        assert(s.nodes.contains(s.nodes[i]) && s.nodes.contains(s.nodes[j]));
        assert(s.nodes[i] == s.nodes[j]);
        if i < j {
            assert(s.nodes[i].id != s.nodes[j].id);
        } else if j < i {
            assert(s.nodes[j].id != s.nodes[i].id);
        }
    }
}

proof fn lemma_no_fault(f: StoreModel)
    requires
        index_laws::is_tidy(f),
        same_rows(f.edges, index_laws::syntax_edges(f)),
        all_normal(f.nodes),
    ensures
        store_edges::faults(f).len() == 0,
{
    let loose = rows::kept(f.edges, store_edges::dangling(f.nodes));
    rows::lemma_kept(f.edges, store_edges::dangling(f.nodes));
    if loose.len() > 0 {
        assert(f.edges.contains(loose[0]));
        assert(index_laws::syntax_edges(f).contains(loose[0]));
        index_laws::lemma_syntax_edge(f, loose[0]);
    }
    let idle = rows::kept(f.edges, store_edges::unjustified());
    rows::lemma_kept(f.edges, store_edges::unjustified());
    if idle.len() > 0 {
        assert(f.edges.contains(idle[0]));
        assert(index_laws::syntax_edges(f).contains(idle[0]));
        index_laws::lemma_syntax_edge(f, idle[0]);
    }
    let odd = rows::kept(f.nodes, store_edges::odd_id());
    rows::lemma_kept(f.nodes, store_edges::odd_id());
    if odd.len() > 0 {
        assert(f.nodes.contains(odd[0]));
    }
}

/// The end of a run leaves an index what it is: of the same files, with the
/// edges of a run over everything, and ready for the next run. The graph then
/// has no fault where the ids of its nodes are normalised.
pub proof fn law_finish_keeps_the_index(
    s: StoreModel,
    items: Seq<Analytics>,
    scores: spec_fn(Seq<char>) -> Score,
    head: Option<Seq<char>>,
    pairs: Seq<CoChangeModel>,
    partial: bool,
    tree: Seq<ParsedItem>,
)
    requires
        index_laws::is_tidy(s),
        index_laws::is_plain(s),
        index_laws::is_current(s),
        fresh_laws::is_index_of(s, tree),
        all_settled(s.nodes),
        is_analysis(s, items, scores),
    ensures
        ({
            let f = update::finished(s, items, head, pairs, partial);
            &&& index_laws::is_tidy(f)
            &&& index_laws::is_plain(f)
            &&& index_laws::is_current(f)
            &&& fresh_laws::is_index_of(f, tree)
            &&& all_settled(f.nodes)
            &&& all_normal(s.nodes) ==> store_edges::faults(f).len() == 0
        }),
{
    let f = update::finished(s, items, head, pairs, partial);
    lemma_finished(s, items, head, pairs, partial);
    lemma_alike_tidy(s, f);
    assert(index_laws::is_tidy(f));
    assert(index_laws::is_plain(f));
    index_laws::law_full_rebuild_is_syntax(s);
    index_laws::law_full_rebuild_is_syntax(f);
    assert(fresh_laws::is_index_of(f, tree)) by {
        assert forall|j: int| 0 <= j < tree.len() implies fresh_laws::is_held(
            f,
            #[trigger] tree[j],
        ) by {
            assert(fresh_laws::is_held(s, tree[j]));
        }
        assert forall|n: NodeModel| #[trigger] f.nodes.contains(n) implies update::item_paths(
            tree,
        ).contains(n.file_path) && fresh_laws::is_noted(f, n.file_path) by {
            let i = choose|i: int| 0 <= i < f.nodes.len() && f.nodes[i] == n;
            assert(s.nodes.contains(s.nodes[i]));
        }
    }
    assert forall|n: NodeModel| #[trigger] f.nodes.contains(n) implies is_settled(n.metadata) by {
        let i = choose|i: int| 0 <= i < f.nodes.len() && f.nodes[i] == n;
        lemma_whole_at(s, items, scores, i);
    }
    if all_normal(s.nodes) {
        assert forall|n: NodeModel| #[trigger] f.nodes.contains(n) implies !store_edges::odd_id()(
            n,
        ) by {
            let i = choose|i: int| 0 <= i < f.nodes.len() && f.nodes[i] == n;
            assert(s.nodes.contains(s.nodes[i]));
        }
        lemma_no_fault(f);
    }
}

/// What a run is given.
pub struct RunModel {
    pub root: Seq<char>,
    pub engine: Seq<char>,
    pub aliases: Seq<char>,
    pub items: Seq<ParsedItem>,
    pub scopes: Seq<ScopeModel>,
    pub seen: Set<Seq<char>>,
    pub flags: Flags,
    pub ambiguous: Option<bool>,
    pub analysis: Seq<Analytics>,
    pub head: Option<Seq<char>>,
    pub pairs: Seq<CoChangeModel>,
    pub partial: bool,
}

/// Whether a run that updates a store leads to `after`, before its end.
pub open spec fn leads_to(s: StoreModel, r: RunModel, after: StoreModel) -> bool {
    index_laws::is_run(
        update::begun(s, r.root, r.engine, r.aliases),
        r.items,
        r.scopes,
        r.seen,
        r.flags,
        r.ambiguous,
        after,
    )
}

/// Whether a run from its beginning to its end makes one state of the store into
/// another, where the graph algorithms say `scores` of the nodes.
pub open spec fn is_whole_run(
    s: StoreModel,
    r: RunModel,
    scores: spec_fn(Seq<char>) -> Score,
    end: StoreModel,
) -> bool {
    exists|after: StoreModel| #[trigger]
        leads_to(s, r, after) && is_analysis(after, r.analysis, scores) && end == update::finished(
            after,
            r.analysis,
            r.head,
            r.pairs,
            r.partial,
        )
}

/// What a run has made of a store before its end.
proof fn lemma_before_the_end(
    s: StoreModel,
    r: RunModel,
    tree: Seq<ParsedItem>,
    after: StoreModel,
)
    requires
        leads_to(s, r, after),
        fresh_laws::is_given_tree(s, r.items, tree, r.seen),
        all_settled(s.nodes),
        items_settled(tree),
    ensures
        index_laws::is_tidy(after),
        index_laws::is_plain(after),
        index_laws::is_current(after),
        fresh_laws::is_index_of(after, tree),
        rows::unique::<Edge>(after.edges),
        all_settled(after.nodes),
        all_normal(s.nodes) && items_normal(tree) ==> all_normal(after.nodes),
{
    let b = update::begun(s, r.root, r.engine, r.aliases);
    assert(b.nodes == s.nodes && b.calls == s.calls && b.manifest == s.manifest);
    assert(fresh_laws::is_given_tree(b, r.items, tree, r.seen)) by {
        assert forall|j: int| 0 <= j < tree.len() implies update::item_paths(r.items).contains(
            (#[trigger] tree[j]).rel@,
        ) || fresh_laws::is_held(b, tree[j]) by {
            if fresh_laws::is_held(s, tree[j]) {
                assert(bare_nodes(b) == bare_nodes(s));
            }
        }
        assert forall|n: NodeModel| #[trigger] b.nodes.contains(n) implies fresh_laws::is_noted(
            b,
            n.file_path,
        ) by {
            assert(fresh_laws::is_noted(s, n.file_path));
        }
    }
    index_laws::law_incremental_equals_full(
        b,
        r.items,
        r.scopes,
        r.seen,
        r.flags,
        r.ambiguous,
        after,
    );
    fresh_laws::law_run_indexes_the_tree(
        b,
        r.items,
        r.scopes,
        r.seen,
        r.flags,
        r.ambiguous,
        after,
        tree,
    );
    index_laws::lemma_changes(b, r.items, r.scopes, r.seen);
    let t = update::changes_of(b, r.items, r.scopes, r.seen).0.store;
    assert forall|n: NodeModel| #[trigger] after.nodes.contains(n) implies s.nodes.contains(n)
        || exists|j: int|
        0 <= j < tree.len() && index_laws::item_nodes(#[trigger] tree[j]).contains(n) by {
        assert(t.nodes.contains(n));
        if !b.nodes.contains(n) {
            let i = choose|i: int|
                0 <= i < r.items.len() && index_laws::item_nodes(#[trigger] r.items[i]).contains(n);
            assert(fresh_laws::is_in_tree(r.items[i], tree));
            let j = choose|j: int|
                0 <= j < tree.len() && fresh_laws::same_item(r.items[i], #[trigger] tree[j]);
            assert(index_laws::item_nodes(tree[j]).contains(n));
        }
    }
    assert forall|n: NodeModel| #[trigger] after.nodes.contains(n) implies is_settled(
        n.metadata,
    ) by {
        if !s.nodes.contains(n) {
            let j = choose|j: int|
                0 <= j < tree.len() && index_laws::item_nodes(#[trigger] tree[j]).contains(n);
            assert(all_settled(index_laws::item_nodes(tree[j])));
        }
    }
    if all_normal(s.nodes) && items_normal(tree) {
        assert forall|n: NodeModel| #[trigger] after.nodes.contains(n) implies !store_edges::odd_id()(
            n,
        ) by {
            if !s.nodes.contains(n) {
                let j = choose|j: int|
                    0 <= j < tree.len() && index_laws::item_nodes(#[trigger] tree[j]).contains(n);
                assert(all_normal(index_laws::item_nodes(tree[j])));
            }
        }
    }
}

/// A run from its beginning to its end makes an index of the files of the tree,
/// which the next run can be given. Where the ids of the nodes are normalised,
/// the graph has no fault.
pub proof fn law_whole_run_makes_an_index(
    s: StoreModel,
    r: RunModel,
    scores: spec_fn(Seq<char>) -> Score,
    end: StoreModel,
    tree: Seq<ParsedItem>,
)
    requires
        is_whole_run(s, r, scores, end),
        fresh_laws::is_given_tree(s, r.items, tree, r.seen),
        all_settled(s.nodes),
        items_settled(tree),
    ensures
        index_laws::is_tidy(end),
        index_laws::is_plain(end),
        index_laws::is_current(end),
        fresh_laws::is_index_of(end, tree),
        all_settled(end.nodes),
        all_normal(s.nodes) && items_normal(tree) ==> store_edges::faults(end).len() == 0,
{
    let after = choose|after: StoreModel| #[trigger]
        leads_to(s, r, after) && is_analysis(after, r.analysis, scores) && end == update::finished(
            after,
            r.analysis,
            r.head,
            r.pairs,
            r.partial,
        );
    lemma_before_the_end(s, r, tree, after);
    law_finish_keeps_the_index(after, r.analysis, scores, r.head, r.pairs, r.partial, tree);
}

/// Two runs over the same files make the same index, whatever each was given to
/// begin with: where the graph algorithms say the same of the same nodes, the
/// nodes are equal in all of their fields, the edges are, and the hashes are,
/// whatever the stored forms of nodes and edges are.
pub proof fn law_whole_runs_agree(
    s: StoreModel,
    r: RunModel,
    end: StoreModel,
    other: StoreModel,
    q: RunModel,
    other_end: StoreModel,
    scores: spec_fn(Seq<char>) -> Score,
    tree: Seq<ParsedItem>,
    node_form: spec_fn(NodeModel) -> Seq<char>,
    edge_form: spec_fn(EdgeModel) -> Seq<char>,
)
    requires
        is_whole_run(s, r, scores, end),
        fresh_laws::is_given_tree(s, r.items, tree, r.seen),
        all_settled(s.nodes),
        is_whole_run(other, q, scores, other_end),
        fresh_laws::is_given_tree(other, q.items, tree, q.seen),
        all_settled(other.nodes),
        items_settled(tree),
    ensures
        same_rows(end.nodes, other_end.nodes),
        same_rows(end.edges, other_end.edges),
        digest::graph_hash(
            index_laws::node_forms(end.nodes, node_form),
            index_laws::edge_forms(end.edges, edge_form),
        ) == digest::graph_hash(
            index_laws::node_forms(other_end.nodes, node_form),
            index_laws::edge_forms(other_end.edges, edge_form),
        ),
{
    let a = choose|after: StoreModel| #[trigger]
        leads_to(s, r, after) && is_analysis(after, r.analysis, scores) && end == update::finished(
            after,
            r.analysis,
            r.head,
            r.pairs,
            r.partial,
        );
    let b = choose|after: StoreModel| #[trigger]
        leads_to(other, q, after) && is_analysis(after, q.analysis, scores) && other_end
            == update::finished(after, q.analysis, q.head, q.pairs, q.partial);
    lemma_before_the_end(s, r, tree, a);
    lemma_before_the_end(other, q, tree, b);
    lemma_finished(a, r.analysis, r.head, r.pairs, r.partial);
    lemma_finished(b, q.analysis, q.head, q.pairs, q.partial);
    law_whole_run_makes_an_index(s, r, scores, end, tree);
    law_whole_run_makes_an_index(other, q, scores, other_end, tree);
    fresh_laws::law_indexes_of_one_tree_are_equal(a, b, tree);
    assert forall|z: NodeModel| #[trigger] end.nodes.contains(z) == other_end.nodes.contains(z) by {
        lemma_whole(a, r.analysis, scores, z);
        lemma_whole(b, q.analysis, scores, z);
        if end.nodes.contains(z) {
            let n = choose|n: NodeModel| #[trigger]
                bare_nodes(a).contains(n) && z == whole_in(a.edges, scores, n);
            lemma_whole_alike(a.edges, b.edges, scores, n);
            assert(bare_nodes(b).contains(n));
        }
        if other_end.nodes.contains(z) {
            let n = choose|n: NodeModel| #[trigger]
                bare_nodes(b).contains(n) && z == whole_in(b.edges, scores, n);
            lemma_whole_alike(a.edges, b.edges, scores, n);
            assert(bare_nodes(a).contains(n));
        }
    }
    fresh_laws::lemma_same_hash(
        end.nodes,
        end.edges,
        other_end.nodes,
        other_end.edges,
        node_form,
        edge_form,
    );
}

/// An index that was kept up to date is what indexing the files anew gives: the
/// same nodes in all of their fields, the same edges and the same hash, where
/// the graph algorithms say the same of the same nodes.
pub proof fn law_kept_index_equals_new(
    s: StoreModel,
    r: RunModel,
    end: StoreModel,
    q: RunModel,
    new: StoreModel,
    scores: spec_fn(Seq<char>) -> Score,
    node_form: spec_fn(NodeModel) -> Seq<char>,
    edge_form: spec_fn(EdgeModel) -> Seq<char>,
)
    requires
        is_whole_run(s, r, scores, end),
        fresh_laws::is_given_tree(s, r.items, q.items, r.seen),
        all_settled(s.nodes),
        items_settled(q.items),
        is_whole_run(StoreModel::empty(), q, scores, new),
        q.seen == r.seen,
    ensures
        same_rows(end.nodes, new.nodes),
        same_rows(end.edges, new.edges),
        digest::graph_hash(
            index_laws::node_forms(end.nodes, node_form),
            index_laws::edge_forms(end.edges, edge_form),
        ) == digest::graph_hash(
            index_laws::node_forms(new.nodes, node_form),
            index_laws::edge_forms(new.edges, edge_form),
        ),
{
    let none = StoreModel::empty();
    let tree = q.items;
    fresh_laws::lemma_empty_is_given(s, r.items, tree, r.seen);
    law_whole_runs_agree(s, r, end, none, q, new, scores, tree, node_form, edge_form);
}

/// The nodes that parsing gives have nothing that is computed from the graph.
proof fn lemma_parsed_settled(item: ParsedItem, ctx: ContextModel)
    requires
        item.parsed.model() == parse::parsed(ctx),
    ensures
        all_settled(index_laws::item_nodes(item)),
{
    let ms = index_laws::item_nodes(item);
    if let Some(nodes) = parse::parsed_nodes(ctx.language, ctx.source) {
        parse::law_parsed_file_is_closed(ctx, nodes);
        let m = parse::file_model(ctx, nodes);
        assert(m.nodes == ms);
        assert forall|n: NodeModel| #[trigger] ms.contains(n) implies is_settled(n.metadata) by {
            let i = choose|i: int| 0 <= i < ms.len() && ms[i] == n;
            assert(m.nodes[i].metadata.len() == 0);
            fresh_laws::lemma_kept_all(n.metadata, is_own_fact());
        }
    } else {
        assert(ms.len() == 0);
    }
}

/// What is read out of a file, be it a source file, a document or a binary one,
/// can be put into an index, and has nothing that is computed from the graph.
pub proof fn law_read_file_fits_an_index(
    item: ParsedItem,
    project: Seq<char>,
    source: Seq<char>,
    document: bool,
    chunks: Seq<Seq<char>>,
)
    requires
        item.parsed.model() == scan::read_model(project, item.rel@, source, document, chunks),
    ensures
        index_laws::is_closed(item),
        all_settled(index_laws::item_nodes(item)),
{
    let ms = index_laws::item_nodes(item);
    let calls = index_laws::item_calls(item);
    assert(item.parsed.model().nodes == ms && item.parsed.model().calls == calls);
    if scan::is_binary(source) {
        assert(ms.len() == 0 && calls.len() == 0);
    } else if document {
        let kind = search::after_last(item.rel@, '.');
        assert forall|n: NodeModel| #[trigger] ms.contains(n) implies n.file_path == item.rel@
            && n.label != NodeLabel::File && is_settled(n.metadata) by {
            let i = choose|i: int| 0 <= i < ms.len() && ms[i] == n;
            assert(n == scan::document_node(item.rel@, kind, chunks[i], i as nat));
            reveal_strlit("text");
            reveal_strlit("content_type");
            reveal_strlit("fan_in");
            reveal_strlit("fan_out");
            assert("text"@.len() == 4 && "content_type"@.len() == 12);
            assert("fan_in"@.len() == 6 && "fan_out"@.len() == 7);
            assert forall|k: int| 0 <= k < n.metadata.len() implies is_own_fact()(
                #[trigger] n.metadata[k],
            ) by {}
            fresh_laws::lemma_kept_all(n.metadata, is_own_fact());
        }
        assert(calls.len() == 0);
    } else {
        match parse::language_of(item.rel@) {
            Some(language) => {
                let ctx = ContextModel { language, project, rel_path: item.rel@, source };
                fresh_laws::law_parsed_file_is_closed(item, ctx);
                lemma_parsed_settled(item, ctx);
            },
            None => {
                assert(ms.len() == 0 && calls.len() == 0);
            },
        }
    }
}

} // verus!
