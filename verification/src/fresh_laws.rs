//! What an index that was kept up to date shares with one that was made anew.

use vstd::prelude::*;

use crate::digest;
use crate::graph;
use crate::index;
use crate::index::ParsedItem;
use crate::index_laws;
use crate::order;
use crate::parse;
use crate::parse::ContextModel;
use crate::rebuild;
use crate::rebuild::Flags;
use crate::rows;
use crate::store::StoreModel;
use crate::store_edges;
use crate::store_edges::Analytics;
use crate::store_files;
use crate::tables::{CallRowModel, ManifestEntry, ManifestEntryModel};
use crate::tsconfig::ScopeModel;
use crate::types;
use crate::types::{CallModel, Edge, EdgeModel, MetaModel, Node, NodeLabel, NodeModel};
use crate::update;

verus! {

/// The metadata that do not come from the edges of the graph.
pub open spec fn is_own_fact() -> spec_fn((Seq<char>, MetaModel)) -> bool {
    |e: (Seq<char>, MetaModel)| e.0 != "fan_in"@ && e.0 != "fan_out"@
}

/// A node without what is computed from the graph.
pub open spec fn bare() -> spec_fn(NodeModel) -> NodeModel {
    |n: NodeModel|
        NodeModel {
            community: None,
            pagerank: 0,
            betweenness: 0,
            metadata: rows::kept(n.metadata, is_own_fact()),
            ..n
        }
}

/// The nodes without what is computed from the graph.
pub open spec fn bare_nodes(s: StoreModel) -> Seq<NodeModel> {
    s.nodes.map_values(bare())
}

/// The store with its nodes bare.
pub open spec fn bare_store(s: StoreModel) -> StoreModel {
    StoreModel { nodes: bare_nodes(s), ..s }
}

/// What the resolver asks of a node.
spec fn essence() -> spec_fn(NodeModel) -> NodeModel {
    |n: NodeModel|
        NodeModel {
            line_end: 0,
            language: Seq::empty(),
            metadata: Seq::empty(),
            community: None,
            pagerank: 0,
            betweenness: 0,
            ..n
        }
}

proof fn lemma_essence_node(a: Seq<NodeModel>, id: Seq<char>)
    ensures
        graph::node_with_id(a.map_values(essence()), id) == match graph::node_with_id(a, id) {
            Some(n) => Some(essence()(n)),
            None => None,
        },
    decreases a.len(),
{
    if a.len() > 0 {
        assert(a.map_values(essence()).drop_last() =~= a.drop_last().map_values(essence()));
        lemma_essence_node(a.drop_last(), id);
    }
}

proof fn lemma_essence_file(a: Seq<NodeModel>, f: Seq<char>)
    ensures
        graph::file_id(a.map_values(essence()), f) == graph::file_id(a, f),
    decreases a.len(),
{
    if a.len() > 0 {
        assert(a.map_values(essence()).drop_last() =~= a.drop_last().map_values(essence()));
        lemma_essence_file(a.drop_last(), f);
    }
}

proof fn lemma_essence_only(a: Seq<NodeModel>, f: Seq<char>, name: Seq<char>, id: Seq<char>)
    ensures
        graph::only_function(a.map_values(essence()), f, name, id) == graph::only_function(
            a,
            f,
            name,
            id,
        ),
{
    let b = a.map_values(essence());
    assert forall|i: int| 0 <= i < a.len() implies graph::is_function(#[trigger] b[i], f, name)
        == graph::is_function(a[i], f, name) && b[i].id == a[i].id by {}
    if graph::only_function(a, f, name, id) {
        let i = choose|i: int|
            0 <= i < a.len() && graph::is_function(#[trigger] a[i], f, name) && a[i].id == id;
        assert(graph::is_function(b[i], f, name) && b[i].id == id);
    }
    if graph::only_function(b, f, name, id) {
        let i = choose|i: int|
            0 <= i < b.len() && graph::is_function(#[trigger] b[i], f, name) && b[i].id == id;
        assert(graph::is_function(a[i], f, name) && a[i].id == id);
        assert forall|j: int|
            0 <= j < a.len() && graph::is_function(#[trigger] a[j], f, name) implies a[j].id
            == id by {
            assert(graph::is_function(b[j], f, name));
        }
    }
}

proof fn lemma_essence_resolve(a: Seq<NodeModel>, f: Seq<char>, name: Seq<char>)
    ensures
        graph::resolve(a.map_values(essence()), f, name) == graph::resolve(a, f, name),
{
    let b = a.map_values(essence());
    if exists|id: Seq<char>| graph::only_function(a, f, name, id) {
        let x = choose|id: Seq<char>| graph::only_function(a, f, name, id);
        lemma_essence_only(a, f, name, x);
        let y = choose|id: Seq<char>| graph::only_function(b, f, name, id);
        lemma_essence_only(a, f, name, y);
        let i = choose|i: int|
            0 <= i < a.len() && graph::is_function(#[trigger] a[i], f, name) && a[i].id == x;
        assert(a[i].id == y);
    } else if exists|id: Seq<char>| graph::only_function(b, f, name, id) {
        let y = choose|id: Seq<char>| graph::only_function(b, f, name, id);
        lemma_essence_only(a, f, name, y);
    }
}

proof fn lemma_essence_defines(a: Seq<NodeModel>, k: nat)
    requires
        k <= a.len(),
    ensures
        graph::define_edges(a.map_values(essence()), k) == graph::define_edges(a, k),
    decreases k,
{
    if k > 0 {
        lemma_essence_defines(a, (k - 1) as nat);
        lemma_essence_file(a, a[k - 1].file_path);
    }
}

proof fn lemma_essence_calls(
    a: Seq<NodeModel>,
    calls: Seq<CallModel>,
    base: Seq<EdgeModel>,
    k: nat,
)
    requires
        k <= calls.len(),
    ensures
        graph::call_edges(a.map_values(essence()), calls, base, k) == graph::call_edges(
            a,
            calls,
            base,
            k,
        ),
    decreases k,
{
    if k > 0 {
        lemma_essence_calls(a, calls, base, (k - 1) as nat);
        let c = calls[k - 1];
        lemma_essence_node(a, c.caller_id);
        if let Some(n) = graph::node_with_id(a, c.caller_id) {
            lemma_essence_resolve(a, n.file_path, c.callee_name);
        }
    }
}

/// The edges of syntax depend on what the resolver asks of the nodes alone.
proof fn lemma_essence_syntax(s: StoreModel, t: StoreModel)
    requires
        s.nodes.map_values(essence()) == t.nodes.map_values(essence()),
        s.calls == t.calls,
    ensures
        index_laws::syntax_edges(s) == index_laws::syntax_edges(t),
{
    lemma_essence_resolver(s);
    lemma_essence_resolver(t);
    let a = rebuild::resolver_nodes(s);
    let b = rebuild::resolver_nodes(t);
    let calls = index_laws::all_calls(s);
    assert(a.map_values(essence()) == b.map_values(essence()));
    assert(a.len() == a.map_values(essence()).len() && b.len() == b.map_values(essence()).len());
    lemma_essence_defines(a, a.len());
    lemma_essence_defines(b, b.len());
    lemma_essence_calls(a, calls, graph::define_edges(a, a.len()), calls.len());
    lemma_essence_calls(b, calls, graph::define_edges(b, b.len()), calls.len());
}

proof fn lemma_essence_resolver(s: StoreModel)
    ensures
        rebuild::resolver_nodes(s).map_values(essence()) == order::arranged(
            s.nodes.map_values(essence()),
            store_edges::id_order(),
        ),
{
    let light = s.nodes.map_values(store_edges::light_node());
    order::lemma_arranged_map(light, store_edges::id_order(), essence(), store_edges::id_order());
    assert(light.map_values(essence()) =~= s.nodes.map_values(essence()));
}

proof fn lemma_bare_syntax(s: StoreModel)
    ensures
        index_laws::syntax_edges(bare_store(s)) == index_laws::syntax_edges(s),
{
    assert(bare_nodes(s).map_values(essence()) =~= s.nodes.map_values(essence()));
    lemma_essence_syntax(bare_store(s), s);
}

proof fn lemma_bare_has(s: StoreModel, x: NodeModel)
    ensures
        bare_nodes(s).contains(x) == (exists|n: NodeModel| #[trigger]
            s.nodes.contains(n) && bare()(n) == x),
{
    let all = bare_nodes(s);
    if all.contains(x) {
        let i = choose|i: int| 0 <= i < all.len() && all[i] == x;
        assert(s.nodes.contains(s.nodes[i]));
    }
    if exists|n: NodeModel| #[trigger] s.nodes.contains(n) && bare()(n) == x {
        let n = choose|n: NodeModel| #[trigger] s.nodes.contains(n) && bare()(n) == x;
        let i = choose|i: int| 0 <= i < s.nodes.len() && s.nodes[i] == n;
        assert(all[i] == x);
    }
}

proof fn lemma_bare_tidy(s: StoreModel)
    requires
        index_laws::is_tidy(s),
    ensures
        index_laws::is_tidy(bare_store(s)),
{
    let b = bare_store(s);
    assert(rows::unique::<Node>(b.nodes)) by {
        assert forall|i: int, j: int| 0 <= i < j < b.nodes.len() implies (#[trigger] b.nodes[i]).id
            != (#[trigger] b.nodes[j]).id by {
            assert(s.nodes[i].id != s.nodes[j].id);
        }
    }
    assert forall|c: CallRowModel| #[trigger] b.calls.contains(c) implies exists|n: NodeModel| #[trigger]
        b.nodes.contains(n) && n.id == c.call.caller_id && n.file_path == c.file_path by {
        assert(s.calls.contains(c));
        let n = choose|n: NodeModel| #[trigger]
            s.nodes.contains(n) && n.id == c.call.caller_id && n.file_path == c.file_path;
        lemma_bare_has(s, bare()(n));
        assert(b.nodes.contains(bare()(n)));
    }
    assert forall|x: NodeModel, y: NodeModel| #[trigger]
        b.nodes.contains(x) && #[trigger] b.nodes.contains(y) && x.label == NodeLabel::File
            && y.label == NodeLabel::File && x.file_path == y.file_path implies x == y by {
        lemma_bare_has(s, x);
        lemma_bare_has(s, y);
        let m = choose|n: NodeModel| #[trigger] s.nodes.contains(n) && bare()(n) == x;
        let n = choose|n: NodeModel| #[trigger] s.nodes.contains(n) && bare()(n) == y;
        assert(m == n);
    }
}

/// Two indexes that hold the same nodes and calls of every file have the same
/// nodes and, where each has the edges of syntax, the same edges.
pub proof fn law_same_files_same_graph(a: StoreModel, b: StoreModel)
    requires
        index_laws::is_tidy(a),
        index_laws::is_tidy(b),
        forall|f: Seq<char>| #[trigger] index_laws::same_in_file(a, b, f),
        index_laws::same_rows(a.edges, index_laws::syntax_edges(a)),
        index_laws::same_rows(b.edges, index_laws::syntax_edges(b)),
    ensures
        index_laws::same_rows(a.nodes, b.nodes),
        index_laws::same_rows(a.edges, b.edges),
{
    assert forall|n: NodeModel| #[trigger] a.nodes.contains(n) == b.nodes.contains(n) by {
        assert(index_laws::same_in_file(a, b, n.file_path));
    }
    assert forall|e: EdgeModel| #[trigger] a.edges.contains(e) == b.edges.contains(e) by {
        assert(index_laws::same_in_file(a, b, e.src_file));
        index_laws::law_edges_are_local(a, b, e);
        assert(b.edges.contains(e) == index_laws::syntax_edges(b).contains(e));
    }
}

pub proof fn lemma_set_fact(m: types::MetaEntries, key: Seq<char>, v: MetaModel)
    requires
        key == "fan_in"@ || key == "fan_out"@,
    ensures
        rows::kept(types::meta_set(m, key, v), is_own_fact()) == rows::kept(m, is_own_fact()),
    decreases m.len(),
{
    let own = is_own_fact();
    let one = seq![(key, v)];
    assert(one.drop_last() =~= Seq::<(Seq<char>, MetaModel)>::empty());
    assert(rows::kept(one.drop_last(), own).len() == 0);
    assert(rows::kept(one, own) =~= Seq::empty());
    if m.len() == 0 {
        assert(rows::kept(m, own) =~= Seq::empty());
    } else {
        let rest = m.drop_first();
        let first = seq![m[0]];
        assert(m =~= first + rest);
        index_laws::lemma_kept_sum(first, rest, own);
        if m[0].0 == key {
            assert(types::meta_set(m, key, v) =~= one + rest);
            index_laws::lemma_kept_sum(one, rest, own);
            assert(first.drop_last() =~= Seq::<(Seq<char>, MetaModel)>::empty());
            assert(rows::kept(first.drop_last(), own).len() == 0);
            assert(rows::kept(first, own) =~= Seq::empty());
        } else {
            lemma_set_fact(rest, key, v);
            index_laws::lemma_kept_sum(first, types::meta_set(rest, key, v), own);
        }
    }
}

proof fn lemma_analysed(nodes: Seq<NodeModel>, items: Seq<Analytics>)
    ensures
        store_edges::all_analysed(nodes, items).map_values(bare()) == nodes.map_values(bare()),
        store_edges::all_analysed(nodes, items).map_values(essence()) == nodes.map_values(essence()),
    decreases items.len(),
{
    let all = store_edges::all_analysed(nodes, items);
    if items.len() > 0 {
        let before = store_edges::all_analysed(nodes, items.drop_last());
        let a = items.last();
        lemma_analysed(nodes, items.drop_last());
        assert forall|i: int| 0 <= i < before.len() implies bare()(#[trigger] all[i]) == bare()(
            before[i],
        ) && essence()(all[i]) == essence()(before[i]) by {
            let n = before[i];
            lemma_set_fact(n.metadata, "fan_in"@, MetaModel::Count(a.fan_in as u64));
            lemma_set_fact(
                types::meta_set(n.metadata, "fan_in"@, MetaModel::Count(a.fan_in as u64)),
                "fan_out"@,
                MetaModel::Count(a.fan_out as u64),
            );
        }
        assert(all.map_values(bare()) =~= before.map_values(bare()));
        assert(all.map_values(essence()) =~= before.map_values(essence()));
    }
}

/// What graph algorithms say of the nodes changes neither the bare nodes nor the
/// edges that syntax gives.
pub proof fn law_analysis_keeps_the_graph(s: StoreModel, items: Seq<Analytics>)
    ensures
        ({
            let u = StoreModel { nodes: store_edges::all_analysed(s.nodes, items), ..s };
            &&& bare_nodes(u) == bare_nodes(s)
            &&& index_laws::syntax_edges(u) == index_laws::syntax_edges(s)
        }),
{
    let u = StoreModel { nodes: store_edges::all_analysed(s.nodes, items), ..s };
    lemma_analysed(s.nodes, items);
    lemma_essence_syntax(u, s);
}

/// Whether a node is the last of several with its id.
pub open spec fn is_last(ms: Seq<NodeModel>, n: NodeModel) -> bool {
    exists|k: int|
        0 <= k < ms.len() && #[trigger] ms[k] == n && forall|j: int|
            k < j < ms.len() ==> (#[trigger] ms[j]).id != n.id
}

/// Whether any of the nodes has the id.
spec fn names_id(ms: Seq<NodeModel>, id: Seq<char>) -> bool {
    exists|m: NodeModel| #[trigger] ms.contains(m) && m.id == id
}

proof fn lemma_last_sum(a: Seq<NodeModel>, b: Seq<NodeModel>, n: NodeModel)
    ensures
        is_last(a + b, n) == (is_last(b, n) || (is_last(a, n) && !names_id(b, n.id))),
{
    let all = a + b;
    if is_last(all, n) {
        let k = choose|k: int|
            0 <= k < all.len() && #[trigger] all[k] == n && forall|j: int|
                k < j < all.len() ==> (#[trigger] all[j]).id != n.id;
        if k >= a.len() {
            assert(b[k - a.len()] == n);
            assert forall|j: int| k - a.len() < j < b.len() implies (#[trigger] b[j]).id
                != n.id by {
                assert(all[a.len() + j] == b[j]);
            }
        } else {
            assert(a[k] == n);
            assert forall|j: int| k < j < a.len() implies (#[trigger] a[j]).id != n.id by {
                assert(all[j] == a[j]);
            }
            if names_id(b, n.id) {
                let m = choose|m: NodeModel| #[trigger] b.contains(m) && m.id == n.id;
                let j = choose|j: int| 0 <= j < b.len() && b[j] == m;
                assert(all[a.len() + j].id == n.id);
            }
        }
    }
    if is_last(b, n) {
        let k = choose|k: int|
            0 <= k < b.len() && #[trigger] b[k] == n && forall|j: int|
                k < j < b.len() ==> (#[trigger] b[j]).id != n.id;
        assert(all[a.len() + k] == n);
        assert forall|j: int| a.len() + k < j < all.len() implies (#[trigger] all[j]).id
            != n.id by {
            assert(b[j - a.len()] == all[j]);
        }
    }
    if is_last(a, n) && !names_id(b, n.id) {
        let k = choose|k: int|
            0 <= k < a.len() && #[trigger] a[k] == n && forall|j: int|
                k < j < a.len() ==> (#[trigger] a[j]).id != n.id;
        assert(all[k] == n);
        assert forall|j: int| k < j < all.len() implies (#[trigger] all[j]).id != n.id by {
            if j < a.len() {
                assert(a[j] == all[j]);
            } else {
                assert(b.contains(b[j - a.len()]));
            }
        }
    }
}

/// Of the nodes that are put into a table, the last with an id stays.
proof fn lemma_upserted_last(s: Seq<NodeModel>, ms: Seq<NodeModel>, n: NodeModel)
    requires
        rows::unique::<Node>(s),
        names_id(ms, n.id),
    ensures
        rows::all_upserted::<Node>(s, ms).contains(n) == is_last(ms, n),
    decreases ms.len(),
{
    let d = ms.drop_last();
    let last = ms.last();
    let one = seq![last];
    let rest = rows::all_upserted::<Node>(s, d);
    let all = rows::all_upserted::<Node>(s, ms);
    let own = rows::has_key::<Node>(last.id);
    assert(ms.len() > 0) by {
        let m = choose|m: NodeModel| #[trigger] ms.contains(m) && m.id == n.id;
        assert(ms.contains(m));
    }
    assert(ms =~= d + one);
    lemma_last_sum(d, one, n);
    rows::lemma_unique_all_upserted::<Node>(s, d);
    rows::lemma_first_at(rest, own);
    let at = match rows::first_at(rest, own) {
        Some(i) => i,
        None => rest.len() as int,
    };
    assert(all[at] == last);
    assert(one[0] == last);
    if n.id == last.id {
        assert(names_id(one, n.id)) by {
            assert(one.contains(last));
        }
        assert(is_last(one, n) == (n == last)) by {
            if n == last {
                assert(one[0] == n);
            }
        }
        if all.contains(n) {
            let i = choose|i: int| 0 <= i < all.len() && all[i] == n;
            if i != at {
                assert(rest[i] == n);
                assert(own(rest[i]));
                if at < rest.len() {
                    if i < at {
                        assert(rest[i].id != rest[at].id);
                    } else {
                        assert(rest[at].id != rest[i].id);
                    }
                }
            }
        }
        if n == last {
            assert(all.contains(n));
        }
    } else {
        assert(!names_id(one, n.id)) by {
            if names_id(one, n.id) {
                let m = choose|m: NodeModel| #[trigger] one.contains(m) && m.id == n.id;
                let j = choose|j: int| 0 <= j < one.len() && one[j] == m;
                assert(one[j] == last);
            }
        }
        assert(!is_last(one, n));
        assert(names_id(d, n.id)) by {
            let m = choose|m: NodeModel| #[trigger] ms.contains(m) && m.id == n.id;
            let j = choose|j: int| 0 <= j < ms.len() && ms[j] == m;
            assert(d[j] == m);
            assert(d.contains(m));
        }
        lemma_upserted_last(s, d, n);
        if all.contains(n) {
            let i = choose|i: int| 0 <= i < all.len() && all[i] == n;
            assert(rest[i] == n);
            assert(rest.contains(n));
        }
        if rest.contains(n) {
            let i = choose|i: int| 0 <= i < rest.len() && rest[i] == n;
            assert(i != at);
            assert(all[i] == n);
        }
    }
}

/// The last nodes of parsed files are the last nodes of each.
proof fn lemma_last_of_items(
    s: StoreModel,
    items: Seq<ParsedItem>,
    scopes: Seq<ScopeModel>,
    i: int,
    n: NodeModel,
)
    requires
        0 <= i < items.len(),
        index_laws::item_nodes(items[i]).contains(n),
        forall|j: int, m: NodeModel|
            0 <= j < items.len() && #[trigger] index_laws::item_nodes(items[j]).contains(m) && m.id
                == n.id ==> j == i,
    ensures
        is_last(index::with_items(s, items, scopes).nodes, n) == is_last(
            index_laws::item_nodes(items[i]),
            n,
        ),
    decreases items.len(),
{
    let d = items.drop_last();
    let last = items.last();
    let r = index::with_items(s, d, scopes).nodes;
    let new = index_laws::item_nodes(last);
    assert(index::with_items(s, items, scopes).nodes == r + new);
    lemma_last_sum(r, new, n);
    assert(items[items.len() - 1] == last);
    if i == items.len() - 1 {
        assert(names_id(new, n.id));
    } else {
        assert(!names_id(new, n.id)) by {
            if names_id(new, n.id) {
                let m = choose|m: NodeModel| #[trigger] new.contains(m) && m.id == n.id;
                assert(index_laws::item_nodes(items[items.len() - 1]).contains(m));
            }
        }
        assert(!is_last(new, n)) by {
            if is_last(new, n) {
                let k = choose|k: int| 0 <= k < new.len() && #[trigger] new[k] == n && forall|j: int|
                    k < j < new.len() ==> (#[trigger] new[j]).id != n.id;
                assert(new.contains(n));
            }
        }
        assert(d[i] == items[i]);
        assert forall|j: int, m: NodeModel|
            0 <= j < d.len() && #[trigger] index_laws::item_nodes(d[j]).contains(m) && m.id
                == n.id implies j == i by {
            assert(d[j] == items[j]);
            assert(index_laws::item_nodes(items[j]).contains(m));
        }
        lemma_last_of_items(s, d, scopes, i, n);
    }
}

/// Whether a bare node is one that parsing a file gave.
pub open spec fn is_given(item: ParsedItem, x: NodeModel) -> bool {
    exists|n: NodeModel| #[trigger]
        is_last(index_laws::item_nodes(item), n) && bare()(n) == x
}

/// Whether the tables hold what parsing a file gave: its nodes, but for what is
/// computed from the graph, and its calls.
pub open spec fn is_held(s: StoreModel, item: ParsedItem) -> bool {
    &&& forall|x: NodeModel|
        x.file_path == item.rel@ ==> (#[trigger] bare_nodes(s).contains(x) == is_given(item, x))
    &&& rows::kept(s.calls, store_files::calls_in(item.rel@)) == index_laws::item_calls(
        item,
    ).map_values(store_files::call_row(item.rel@))
}

proof fn lemma_held(t: StoreModel, item: ParsedItem)
    requires
        index_laws::is_closed(item),
        forall|n: NodeModel|
            n.file_path == item.rel@ ==> (#[trigger] t.nodes.contains(n) == is_last(
                index_laws::item_nodes(item),
                n,
            )),
        rows::kept(t.calls, store_files::calls_in(item.rel@)) == index_laws::item_calls(
            item,
        ).map_values(store_files::call_row(item.rel@)),
    ensures
        is_held(t, item),
{
    let ms = index_laws::item_nodes(item);
    assert forall|x: NodeModel| x.file_path == item.rel@ implies (#[trigger] bare_nodes(t).contains(
        x,
    ) == is_given(item, x)) by {
        lemma_bare_has(t, x);
        if bare_nodes(t).contains(x) {
            let n = choose|n: NodeModel| #[trigger] t.nodes.contains(n) && bare()(n) == x;
            assert(is_last(ms, n) && bare()(n) == x);
        }
        if is_given(item, x) {
            let n = choose|n: NodeModel| #[trigger] is_last(ms, n) && bare()(n) == x;
            assert(t.nodes.contains(n));
        }
    }
}

/// The calls of a parsed file are in the tables after it was put in.
proof fn lemma_calls_in_place(
    s: StoreModel,
    items: Seq<ParsedItem>,
    scopes: Seq<ScopeModel>,
    i: int,
)
    requires
        0 <= i < items.len(),
        forall|j: int, k: int|
            0 <= j < k < items.len() ==> (#[trigger] items[j]).rel@ != (#[trigger] items[k]).rel@,
    ensures
        rows::kept(
            index::with_items(s, items, scopes).store.calls,
            store_files::calls_in(items[i].rel@),
        ) == index_laws::item_calls(items[i]).map_values(store_files::call_row(items[i].rel@)),
    decreases items.len(),
{
    let d = items.drop_last();
    let last = items.last();
    let r = index::with_items(s, d, scopes).store;
    let t = index::with_items(s, items, scopes).store;
    let f = items[i].rel@;
    let mine = store_files::calls_in(f);
    assert(items[items.len() - 1] == last);
    index_laws::lemma_item_calls(r, last, scopes);
    if i == items.len() - 1 {
        let out = store_files::calls_outside(f);
        let old = rows::kept(rows::kept(r.calls, out), out);
        let new = index_laws::item_calls(last).map_values(store_files::call_row(f));
        assert(t.calls == old + new);
        index_laws::lemma_kept_sum(old, new, mine);
        rows::lemma_kept(rows::kept(r.calls, out), out);
        index_laws::lemma_kept_none(old, mine);
        lemma_kept_all(new, mine);
        assert(rows::kept(old, mine) + rows::kept(new, mine) =~= new);
    } else {
        assert(d[i] == items[i]);
        assert forall|j: int, k: int| 0 <= j < k < d.len() implies (#[trigger] d[j]).rel@ != (
        #[trigger] d[k]).rel@ by {
            assert(d[j] == items[j] && d[k] == items[k]);
        }
        lemma_calls_in_place(s, d, scopes, i);
        assert(f != last.rel@);
        assert(rows::kept(t.calls, store_files::calls_in(f)) == rows::kept(
            r.calls,
            store_files::calls_in(f),
        ));
    }
}

pub proof fn lemma_kept_all<M>(s: Seq<M>, test: spec_fn(M) -> bool)
    requires
        forall|i: int| 0 <= i < s.len() ==> test(#[trigger] s[i]),
    ensures
        rows::kept(s, test) == s,
    decreases s.len(),
{
    if s.len() > 0 {
        let d = s.drop_last();
        assert forall|i: int| 0 <= i < d.len() implies test(#[trigger] d[i]) by {
            assert(d[i] == s[i]);
        }
        lemma_kept_all(d, test);
        assert(s[s.len() - 1] == s.last());
        assert(d.push(s.last()) =~= s);
    }
}

/// Whether a file is noted as indexed.
pub open spec fn is_noted(s: StoreModel, f: Seq<char>) -> bool {
    rebuild::manifest_paths(s).contains(f)
}

proof fn lemma_noted(s: StoreModel, f: Seq<char>)
    ensures
        is_noted(s, f) == (exists|m: ManifestEntryModel| #[trigger]
            s.manifest.contains(m) && m.file_path == f),
{
    let paths = rebuild::manifest_paths(s);
    if paths.contains(f) {
        let i = choose|i: int| 0 <= i < paths.len() && paths[i] == f;
        assert(s.manifest.contains(s.manifest[i]));
    }
    if exists|m: ManifestEntryModel| #[trigger] s.manifest.contains(m) && m.file_path == f {
        let m = choose|m: ManifestEntryModel| #[trigger]
            s.manifest.contains(m) && m.file_path == f;
        let i = choose|i: int| 0 <= i < s.manifest.len() && s.manifest[i] == m;
        assert(paths[i] == f);
    }
}

proof fn lemma_noted_items(
    s: StoreModel,
    items: Seq<ParsedItem>,
    scopes: Seq<ScopeModel>,
    f: Seq<char>,
)
    ensures
        is_noted(index::with_items(s, items, scopes).store, f) == (is_noted(s, f)
            || update::item_paths(items).contains(f)),
    decreases items.len(),
{
    let paths = update::item_paths(items);
    if items.len() > 0 {
        let d = items.drop_last();
        let item = items.last();
        let r = index::with_items(s, d, scopes).store;
        let t = index::with_items(s, items, scopes).store;
        lemma_noted_items(s, d, scopes, f);
        assert(paths.drop_last() =~= update::item_paths(d));
        assert(paths.last() == item.rel@);
        index_laws::lemma_listed(paths, f);
        lemma_noted(r, f);
        lemma_noted(t, f);
        let test = rows::other_key::<ManifestEntry>(item.rel@);
        rows::lemma_kept(r.manifest, test);
        let old = rows::kept(r.manifest, test);
        let entry = t.manifest.last();
        assert(t.manifest == old.push(entry) && entry.file_path == item.rel@);
        if is_noted(t, f) {
            let m = choose|m: ManifestEntryModel| #[trigger]
                t.manifest.contains(m) && m.file_path == f;
            let i = choose|i: int| 0 <= i < t.manifest.len() && t.manifest[i] == m;
            if i < old.len() {
                assert(old[i] == m);
                assert(old.contains(m));
                assert(r.manifest.contains(m));
            }
        }
        if f == item.rel@ {
            assert(t.manifest[old.len() as int] == entry);
            assert(t.manifest.contains(entry));
        } else if is_noted(r, f) {
            let m = choose|m: ManifestEntryModel| #[trigger]
                r.manifest.contains(m) && m.file_path == f;
            assert(test(m));
            assert(old.contains(m));
            let i = choose|i: int| 0 <= i < old.len() && old[i] == m;
            assert(t.manifest[i] == m);
            assert(t.manifest.contains(m));
        }
    } else {
        assert(!paths.contains(f));
    }
}

proof fn lemma_noted_pruned(
    c: index::ChangeModel,
    files: Seq<Seq<char>>,
    seen: Set<Seq<char>>,
    f: Seq<char>,
)
    ensures
        is_noted(index::pruned(c, files, seen).0.store, f) == (is_noted(c.store, f)
            && !index_laws::is_gone(files, seen, f)),
    decreases files.len(),
{
    if files.len() > 0 {
        let d = files.drop_last();
        let g = files.last();
        let rest = index::pruned(c, d, seen).0.store;
        let t = index::pruned(c, files, seen).0.store;
        lemma_noted_pruned(c, d, seen, f);
        index_laws::lemma_listed(files, f);
        if !seen.contains(g) {
            let test = rows::other_key::<ManifestEntry>(g);
            rows::lemma_kept(rest.manifest, test);
            lemma_noted(rest, f);
            lemma_noted(t, f);
            assert(t.manifest == rows::kept(rest.manifest, test));
            if is_noted(t, f) {
                let m = choose|m: ManifestEntryModel| #[trigger]
                    t.manifest.contains(m) && m.file_path == f;
                assert(test(m));
                assert(rest.manifest.contains(m));
            }
            if f != g && is_noted(rest, f) {
                let m = choose|m: ManifestEntryModel| #[trigger]
                    rest.manifest.contains(m) && m.file_path == f;
                assert(test(m));
                assert(t.manifest.contains(m));
            }
        }
    }
}

/// What a run does to a file that was parsed for it and is still seen.
proof fn lemma_item_is_held(
    s: StoreModel,
    items: Seq<ParsedItem>,
    scopes: Seq<ScopeModel>,
    seen: Set<Seq<char>>,
    i: int,
)
    requires
        index_laws::is_tidy(s),
        index_laws::is_fit(s, items),
        0 <= i < items.len(),
        seen.contains(items[i].rel@),
    ensures
        is_held(update::changes_of(s, items, scopes, seen).0.store, items[i]),
{
    let item = items[i];
    let f = item.rel@;
    let p = index::with_items(s, items, scopes);
    let c = index::persisted(s, items, scopes);
    let files = rebuild::manifest_paths(c.store);
    let t = update::changes_of(s, items, scopes, seen).0.store;
    let ms = index_laws::item_nodes(item);
    index_laws::lemma_with_items(s, items, scopes);
    index_laws::lemma_upserted_nodes(p.store.nodes, p.nodes);
    rows::lemma_unique_all_upserted::<Node>(p.store.nodes, p.nodes);
    index_laws::lemma_pruned(c, files, seen);
    index_laws::lemma_paths(items, f);
    lemma_calls_in_place(s, items, scopes, i);
    assert(!index_laws::is_gone(files, seen, f));
    assert(index_laws::is_closed(item));
    assert forall|n: NodeModel| n.file_path == f implies (#[trigger] t.nodes.contains(n) == is_last(
        ms,
        n,
    )) by {
        assert(t.nodes.contains(n) == c.store.nodes.contains(n));
        assert(!p.store.nodes.contains(n));
        if p.nodes.contains(n) {
            assert(names_id(p.nodes, n.id));
            lemma_upserted_last(p.store.nodes, p.nodes, n);
            let k = choose|k: int|
                0 <= k < items.len() && index_laws::item_nodes(#[trigger] items[k]).contains(n);
            assert(index_laws::is_closed(items[k]));
            assert(items[k].rel@ == items[i].rel@);
            assert(k == i);
            assert forall|j: int, m: NodeModel|
                0 <= j < items.len() && #[trigger] index_laws::item_nodes(items[j]).contains(m)
                    && m.id == n.id implies j == i by {
                assert(index_laws::item_nodes(items[i]).contains(n)
                    && index_laws::item_nodes(items[j]).contains(m));
            }
            lemma_last_of_items(s, items, scopes, i, n);
        } else {
            assert(!c.store.nodes.contains(n));
            if is_last(ms, n) {
                let k = choose|k: int| 0 <= k < ms.len() && #[trigger] ms[k] == n && forall|j: int|
                    k < j < ms.len() ==> (#[trigger] ms[j]).id != n.id;
                assert(ms.contains(n));
                assert(index_laws::item_nodes(items[i]).contains(n));
                assert(p.nodes.contains(n));
            }
        }
    }
    assert(rows::kept(t.calls, store_files::calls_in(f)) == rows::kept(
        c.store.calls,
        store_files::calls_in(f),
    ));
    lemma_held(t, item);
}

proof fn lemma_held_on(s: StoreModel, t: StoreModel, item: ParsedItem)
    requires
        is_held(s, item),
        index_laws::same_in_file(s, t, item.rel@),
    ensures
        is_held(t, item),
{
    assert forall|x: NodeModel| x.file_path == item.rel@ implies (#[trigger] bare_nodes(t).contains(
        x,
    ) == is_given(item, x)) by {
        lemma_bare_has(s, x);
        lemma_bare_has(t, x);
        assert(bare_nodes(s).contains(x) == is_given(item, x));
        if bare_nodes(t).contains(x) {
            let n = choose|n: NodeModel| #[trigger] t.nodes.contains(n) && bare()(n) == x;
            assert(s.nodes.contains(n));
        }
        if bare_nodes(s).contains(x) {
            let n = choose|n: NodeModel| #[trigger] s.nodes.contains(n) && bare()(n) == x;
            assert(t.nodes.contains(n));
        }
    }
}

/// Whether two parsed files say the same.
pub open spec fn same_item(a: ParsedItem, b: ParsedItem) -> bool {
    a.rel@ == b.rel@ && index_laws::item_nodes(a) == index_laws::item_nodes(b)
        && index_laws::item_calls(a) == index_laws::item_calls(b)
}

/// Whether a parsed file says what one of the tree says.
pub open spec fn is_in_tree(item: ParsedItem, tree: Seq<ParsedItem>) -> bool {
    exists|j: int| 0 <= j < tree.len() && same_item(item, #[trigger] tree[j])
}

/// Whether the tables are an index of the parsed files: they hold each of them,
/// nothing else, and a note of each file that they hold a node of.
pub open spec fn is_index_of(s: StoreModel, tree: Seq<ParsedItem>) -> bool {
    &&& forall|j: int| 0 <= j < tree.len() ==> is_held(s, #[trigger] tree[j])
    &&& forall|n: NodeModel| #[trigger]
        s.nodes.contains(n) ==> update::item_paths(tree).contains(n.file_path) && is_noted(
            s,
            n.file_path,
        )
}

/// Whether a run is given what it takes to bring an index up to the files of a
/// tree: what was parsed is of the tree, the tables hold the rest of it, they
/// note each file that they hold a node of, and the files of the tree are those
/// that are seen.
pub open spec fn is_given_tree(
    s: StoreModel,
    items: Seq<ParsedItem>,
    tree: Seq<ParsedItem>,
    seen: Set<Seq<char>>,
) -> bool {
    &&& forall|i: int| 0 <= i < items.len() ==> is_in_tree(#[trigger] items[i], tree)
    &&& forall|j: int|
        0 <= j < tree.len() ==> update::item_paths(items).contains((#[trigger] tree[j]).rel@)
            || is_held(s, tree[j])
    &&& forall|i: int, j: int|
        0 <= i < j < tree.len() ==> (#[trigger] tree[i]).rel@ != (#[trigger] tree[j]).rel@
    &&& forall|n: NodeModel| #[trigger] s.nodes.contains(n) ==> is_noted(s, n.file_path)
    &&& forall|f: Seq<char>| #[trigger]
        seen.contains(f) == update::item_paths(tree).contains(f)
}

/// A run brings an index up to the files of the tree, whatever it held before.
pub proof fn law_run_indexes_the_tree(
    s: StoreModel,
    items: Seq<ParsedItem>,
    scopes: Seq<ScopeModel>,
    seen: Set<Seq<char>>,
    flags: Flags,
    ambiguous: Option<bool>,
    after: StoreModel,
    tree: Seq<ParsedItem>,
)
    requires
        index_laws::is_run(s, items, scopes, seen, flags, ambiguous, after),
        is_given_tree(s, items, tree, seen),
    ensures
        is_index_of(after, tree),
{
    index_laws::law_incremental_equals_full(s, items, scopes, seen, flags, ambiguous, after);
    index_laws::lemma_changes(s, items, scopes, seen);
    let p = index::with_items(s, items, scopes);
    let c = index::persisted(s, items, scopes);
    let files = rebuild::manifest_paths(c.store);
    let t = update::changes_of(s, items, scopes, seen).0.store;
    let paths = update::item_paths(items);
    assert forall|j: int| 0 <= j < tree.len() implies is_held(after, #[trigger] tree[j]) by {
        let f = tree[j].rel@;
        index_laws::lemma_paths(tree, f);
        assert(seen.contains(f));
        index_laws::lemma_paths(items, f);
        if paths.contains(f) {
            let i = choose|i: int| 0 <= i < items.len() && (#[trigger] items[i]).rel@ == f;
            assert(is_in_tree(items[i], tree));
            let k = choose|k: int|
                0 <= k < tree.len() && same_item(items[i], #[trigger] tree[k]);
            if k < j {
                assert(tree[k].rel@ != tree[j].rel@);
            } else if j < k {
                assert(tree[j].rel@ != tree[k].rel@);
            }
            lemma_item_is_held(s, items, scopes, seen, i);
            assert(is_held(t, items[i]));
            lemma_held_alike(t, items[i], tree[j]);
        } else {
            assert(is_held(s, tree[j]));
            assert(!index_laws::is_gone(files, seen, f));
            assert(index_laws::same_in_file(s, t, f));
            lemma_held_on(s, t, tree[j]);
        }
        lemma_held_same(t, after, tree[j]);
    }
    assert forall|n: NodeModel| #[trigger] after.nodes.contains(n) implies update::item_paths(
        tree,
    ).contains(n.file_path) && is_noted(after, n.file_path) by {
        let f = n.file_path;
        assert(t.nodes.contains(n));
        lemma_noted_items(s, items, scopes, f);
        assert(is_noted(c.store, f) == is_noted(p.store, f));
        lemma_noted_pruned(c, files, seen, f);
        index_laws::lemma_paths(items, f);
        if !s.nodes.contains(n) {
            let i = choose|i: int|
                0 <= i < items.len() && index_laws::item_nodes(#[trigger] items[i]).contains(n);
            assert(index_laws::is_closed(items[i]));
            assert(items[i].rel@ == f);
        }
        assert(is_noted(c.store, f));
        assert(!index_laws::is_gone(files, seen, f));
        assert(seen.contains(f));
        assert(is_noted(t, f));
        assert(after.manifest == t.manifest);
    }
}

proof fn lemma_held_alike(t: StoreModel, a: ParsedItem, b: ParsedItem)
    requires
        same_item(a, b),
        is_held(t, a),
    ensures
        is_held(t, b),
{
    assert forall|x: NodeModel| x.file_path == b.rel@ implies (#[trigger] bare_nodes(t).contains(x)
        == is_given(b, x)) by {
        assert(bare_nodes(t).contains(x) == is_given(a, x));
        if is_given(a, x) {
            let n = choose|n: NodeModel| #[trigger]
                is_last(index_laws::item_nodes(a), n) && bare()(n) == x;
            assert(is_last(index_laws::item_nodes(b), n));
        }
        if is_given(b, x) {
            let n = choose|n: NodeModel| #[trigger]
                is_last(index_laws::item_nodes(b), n) && bare()(n) == x;
            assert(is_last(index_laws::item_nodes(a), n));
        }
    }
}

proof fn lemma_held_same(t: StoreModel, u: StoreModel, item: ParsedItem)
    requires
        is_held(t, item),
        t.nodes == u.nodes,
        t.calls == u.calls,
    ensures
        is_held(u, item),
{
    assert(bare_nodes(t) == bare_nodes(u));
}

/// Two indexes of the same files have the same nodes, but for what is computed
/// from the graph, and the same edges.
pub proof fn law_indexes_of_one_tree_are_equal(
    a: StoreModel,
    b: StoreModel,
    tree: Seq<ParsedItem>,
)
    requires
        index_laws::is_tidy(a) && index_laws::is_plain(a) && index_laws::is_current(a),
        index_laws::is_tidy(b) && index_laws::is_plain(b) && index_laws::is_current(b),
        is_index_of(a, tree),
        is_index_of(b, tree),
    ensures
        index_laws::same_rows(bare_nodes(a), bare_nodes(b)),
        index_laws::same_rows(a.edges, b.edges),
{
    let (x, y) = (bare_store(a), bare_store(b));
    lemma_bare_tidy(a);
    lemma_bare_tidy(b);
    lemma_bare_syntax(a);
    lemma_bare_syntax(b);
    index_laws::law_full_rebuild_is_syntax(a);
    index_laws::law_full_rebuild_is_syntax(b);
    assert forall|f: Seq<char>| #[trigger] index_laws::same_in_file(x, y, f) by {
        index_laws::lemma_paths(tree, f);
        if update::item_paths(tree).contains(f) {
            let j = choose|j: int| 0 <= j < tree.len() && (#[trigger] tree[j]).rel@ == f;
            assert(is_held(a, tree[j]) && is_held(b, tree[j]));
            assert forall|n: NodeModel| n.file_path == f implies (#[trigger] x.nodes.contains(n)
                == y.nodes.contains(n)) by {
                assert(bare_nodes(a).contains(n) == is_given(tree[j], n));
                assert(bare_nodes(b).contains(n) == is_given(tree[j], n));
            }
        } else {
            lemma_nothing_elsewhere(a, tree, f);
            lemma_nothing_elsewhere(b, tree, f);
            assert(rows::kept(x.calls, store_files::calls_in(f)) =~= rows::kept(
                y.calls,
                store_files::calls_in(f),
            ));
        }
    }
    law_same_files_same_graph(x, y);
}

proof fn lemma_nothing_elsewhere(s: StoreModel, tree: Seq<ParsedItem>, f: Seq<char>)
    requires
        index_laws::is_tidy(s),
        is_index_of(s, tree),
        !update::item_paths(tree).contains(f),
    ensures
        forall|n: NodeModel| n.file_path == f ==> !#[trigger] bare_nodes(s).contains(n),
        rows::kept(s.calls, store_files::calls_in(f)).len() == 0,
{
    assert forall|n: NodeModel| n.file_path == f implies !#[trigger] bare_nodes(s).contains(n) by {
        lemma_bare_has(s, n);
        if bare_nodes(s).contains(n) {
            let m = choose|m: NodeModel| #[trigger] s.nodes.contains(m) && bare()(m) == n;
            assert(update::item_paths(tree).contains(m.file_path));
        }
    }
    let mine = rows::kept(s.calls, store_files::calls_in(f));
    rows::lemma_kept(s.calls, store_files::calls_in(f));
    if mine.len() > 0 {
        let c = mine[0];
        assert(s.calls.contains(c));
        let n = choose|n: NodeModel| #[trigger]
            s.nodes.contains(n) && n.id == c.call.caller_id && n.file_path == c.file_path;
        assert(update::item_paths(tree).contains(n.file_path));
    }
}

/// An index that was kept up to date is what indexing the files anew gives: the
/// same nodes, but for what is computed from the graph, the same edges, and the
/// same hash, whatever the stored forms of nodes and edges are.
pub proof fn law_incremental_equals_fresh(
    s: StoreModel,
    items: Seq<ParsedItem>,
    scopes: Seq<ScopeModel>,
    seen: Set<Seq<char>>,
    flags: Flags,
    ambiguous: Option<bool>,
    after: StoreModel,
    tree: Seq<ParsedItem>,
    fresh_flags: Flags,
    fresh_ambiguous: Option<bool>,
    fresh: StoreModel,
    node_form: spec_fn(NodeModel) -> Seq<char>,
    edge_form: spec_fn(EdgeModel) -> Seq<char>,
)
    requires
        index_laws::is_run(s, items, scopes, seen, flags, ambiguous, after),
        is_given_tree(s, items, tree, seen),
        index_laws::is_run(
            StoreModel::empty(),
            tree,
            scopes,
            seen,
            fresh_flags,
            fresh_ambiguous,
            fresh,
        ),
    ensures
        index_laws::same_rows(bare_nodes(after), bare_nodes(fresh)),
        index_laws::same_rows(after.edges, fresh.edges),
        digest::graph_hash(
            index_laws::node_forms(bare_nodes(after), node_form),
            index_laws::edge_forms(after.edges, edge_form),
        ) == digest::graph_hash(
            index_laws::node_forms(bare_nodes(fresh), node_form),
            index_laws::edge_forms(fresh.edges, edge_form),
        ),
{
    let none = StoreModel::empty();
    lemma_empty_is_given(s, items, tree, seen);
    law_run_indexes_the_tree(s, items, scopes, seen, flags, ambiguous, after, tree);
    law_run_indexes_the_tree(
        none,
        tree,
        scopes,
        seen,
        fresh_flags,
        fresh_ambiguous,
        fresh,
        tree,
    );
    index_laws::law_incremental_equals_full(s, items, scopes, seen, flags, ambiguous, after);
    index_laws::law_incremental_equals_full(
        none,
        tree,
        scopes,
        seen,
        fresh_flags,
        fresh_ambiguous,
        fresh,
    );
    law_indexes_of_one_tree_are_equal(after, fresh, tree);
    lemma_bare_unique(after);
    lemma_bare_unique(fresh);
    lemma_same_hash(
        bare_nodes(after),
        after.edges,
        bare_nodes(fresh),
        fresh.edges,
        node_form,
        edge_form,
    );
}

/// An empty store can be brought up to the files of any tree that another store
/// can be brought up to.
pub proof fn lemma_empty_is_given(
    s: StoreModel,
    items: Seq<ParsedItem>,
    tree: Seq<ParsedItem>,
    seen: Set<Seq<char>>,
)
    requires
        is_given_tree(s, items, tree, seen),
    ensures
        is_given_tree(StoreModel::empty(), tree, tree, seen),
{
    let none = StoreModel::empty();
    assert(is_given_tree(none, tree, tree, seen)) by {
        assert forall|i: int| 0 <= i < tree.len() implies is_in_tree(#[trigger] tree[i], tree) by {
            assert(same_item(tree[i], tree[i]));
        }
        assert forall|j: int| 0 <= j < tree.len() implies update::item_paths(tree).contains(
            (#[trigger] tree[j]).rel@,
        ) || is_held(none, tree[j]) by {
            index_laws::lemma_paths(tree, tree[j].rel@);
        }
    }
}

/// The same nodes and edges have the same hash.
pub proof fn lemma_same_hash(
    nodes: Seq<NodeModel>,
    edges: Seq<EdgeModel>,
    other_nodes: Seq<NodeModel>,
    other_edges: Seq<EdgeModel>,
    node_form: spec_fn(NodeModel) -> Seq<char>,
    edge_form: spec_fn(EdgeModel) -> Seq<char>,
)
    requires
        index_laws::same_rows(nodes, other_nodes),
        index_laws::same_rows(edges, other_edges),
        rows::unique::<Node>(nodes) && rows::unique::<Node>(other_nodes),
        rows::unique::<Edge>(edges) && rows::unique::<Edge>(other_edges),
    ensures
        digest::graph_hash(
            index_laws::node_forms(nodes, node_form),
            index_laws::edge_forms(edges, edge_form),
        ) == digest::graph_hash(
            index_laws::node_forms(other_nodes, node_form),
            index_laws::edge_forms(other_edges, edge_form),
        ),
{
    index_laws::lemma_edge_forms(edges, other_edges, edge_form);
    lemma_node_forms(nodes, other_nodes, node_form);
    digest::law_hash_ignores_row_order(
        index_laws::node_forms(nodes, node_form),
        index_laws::edge_forms(edges, edge_form),
        index_laws::node_forms(other_nodes, node_form),
        index_laws::edge_forms(other_edges, edge_form),
    );
}

proof fn lemma_bare_unique(s: StoreModel)
    requires
        rows::unique::<Node>(s.nodes),
    ensures
        rows::unique::<Node>(bare_nodes(s)),
{
    let b = bare_nodes(s);
    assert forall|i: int, j: int| 0 <= i < j < b.len() implies (#[trigger] b[i]).id != (
    #[trigger] b[j]).id by {
        assert(s.nodes[i].id != s.nodes[j].id);
    }
}

/// The same nodes have the same stored forms.
proof fn lemma_node_forms(
    m: Seq<NodeModel>,
    n: Seq<NodeModel>,
    form: spec_fn(NodeModel) -> Seq<char>,
)
    requires
        index_laws::same_rows(m, n),
        rows::unique::<Node>(m),
        rows::unique::<Node>(n),
    ensures
        index_laws::node_forms(m, form).to_multiset() == index_laws::node_forms(
            n,
            form,
        ).to_multiset(),
        digest::ids_unique(index_laws::node_forms(m, form)),
{
    let x = index_laws::node_forms(m, form);
    let y = index_laws::node_forms(n, form);
    assert forall|i: int, j: int| 0 <= i < j < x.len() implies (#[trigger] x[i]).0 != (
    #[trigger] x[j]).0 by {
        assert(m[i].id != m[j].id);
    }
    assert forall|i: int, j: int| 0 <= i < j < y.len() implies (#[trigger] y[i]).0 != (
    #[trigger] y[j]).0 by {
        assert(n[i].id != n[j].id);
    }
    assert forall|f: digest::NodeTextModel| #[trigger] x.contains(f) == y.contains(f) by {
        if x.contains(f) {
            let i = choose|i: int| 0 <= i < x.len() && x[i] == f;
            assert(m.contains(m[i]));
            assert(n.contains(m[i]));
            let j = choose|j: int| 0 <= j < n.len() && n[j] == m[i];
            assert(y[j] == f);
        }
        if y.contains(f) {
            let i = choose|i: int| 0 <= i < y.len() && y[i] == f;
            assert(n.contains(n[i]));
            assert(m.contains(n[i]));
            let j = choose|j: int| 0 <= j < m.len() && m[j] == n[i];
            assert(x[j] == f);
        }
    }
    index_laws::lemma_same_multiset(x, y);
}

/// An empty store is an index of no files: a first run can begin with it.
pub proof fn law_empty_store_is_an_index()
    ensures
        StoreModel::empty().wf(),
        index_laws::is_tidy(StoreModel::empty()),
        index_laws::is_plain(StoreModel::empty()),
        index_laws::is_current(StoreModel::empty()),
        is_index_of(StoreModel::empty(), Seq::empty()),
{
    let none = StoreModel::empty();
    assert(index_laws::is_tidy(none));
    index_laws::law_full_rebuild_is_syntax(none);
    assert forall|e: EdgeModel| !#[trigger] index_laws::syntax_edges(none).contains(e) by {
        if index_laws::syntax_edges(none).contains(e) {
            index_laws::lemma_syntax_edge(none, e);
        }
    }
}

/// What parsing a file gives can be put into an index.
pub proof fn law_parsed_file_is_closed(item: ParsedItem, ctx: ContextModel)
    requires
        item.rel@ == ctx.rel_path,
        item.parsed.model() == parse::parsed(ctx),
    ensures
        index_laws::is_closed(item),
{
    let ms = index_laws::item_nodes(item);
    let calls = index_laws::item_calls(item);
    if let Some(nodes) = parse::parsed_nodes(ctx.language, ctx.source) {
        parse::law_parsed_file_is_closed(ctx, nodes);
        let m = parse::file_model(ctx, nodes);
        assert(m.nodes == ms && m.calls == calls);
        assert forall|c: CallModel| #[trigger] calls.contains(c) implies exists|n: NodeModel| #[trigger]
            ms.contains(n) && n.id == c.caller_id by {
            let i = choose|i: int| 0 <= i < calls.len() && calls[i] == c;
            assert(m.calls[i] == c);
            let j = choose|j: int| 0 <= j < m.nodes.len() && (#[trigger] m.nodes[j]).id
                == m.calls[i].caller_id;
            assert(ms.contains(ms[j]));
        }
        assert forall|a: NodeModel, b: NodeModel| #[trigger]
            ms.contains(a) && #[trigger] ms.contains(b) && a.label == NodeLabel::File && b.label
                == NodeLabel::File && a.file_path == b.file_path implies a == b by {
            let i = choose|i: int| 0 <= i < ms.len() && ms[i] == a;
            let j = choose|j: int| 0 <= j < ms.len() && ms[j] == b;
            assert(m.nodes[i] == a && m.nodes[j] == b);
        }
        assert forall|n: NodeModel| #[trigger] ms.contains(n) implies n.file_path == item.rel@ by {
            let i = choose|i: int| 0 <= i < ms.len() && ms[i] == n;
            assert(m.nodes[i] == n);
        }
    } else {
        assert(ms.len() == 0 && calls.len() == 0);
    }
}

} // verus!
