//! What holds of every run of the indexer.

use vstd::prelude::*;

use crate::digest;
use crate::digest::{EdgeTextModel, NodeTextModel};
use crate::graph;
use crate::graph_laws;
use crate::index;
use crate::index::{ChangeModel, ParsedItem};
use crate::order;
use crate::rebuild;
use crate::rebuild::Flags;
use crate::rows;
use crate::store;
use crate::store::StoreModel;
use crate::store_edges;
use crate::store_files;
use crate::store_lists;
use crate::store_queries;
use crate::tables::{CallRowModel, MetaRow, MetaRowModel};
use crate::tsconfig::ScopeModel;
use crate::types;
use crate::types::{
    CallModel, Edge, EdgeKey, EdgeModel, EdgeRelation, Node, NodeLabel, NodeModel, ResolutionTier,
};
use crate::update;
use crate::update::Reach;

verus! {

/// Whether two tables have the same rows, whatever their order.
pub open spec fn same_rows<M>(a: Seq<M>, b: Seq<M>) -> bool {
    forall|x: M| #[trigger] a.contains(x) == b.contains(x)
}

/// Whether the ids of nodes are different.
pub open spec fn ids_differ(nodes: Seq<NodeModel>) -> bool {
    forall|i: int, j: int|
        0 <= i < j < nodes.len() ==> (#[trigger] nodes[i]).id != (#[trigger] nodes[j]).id
}

/// The edge of a call, where it has the key.
pub open spec fn given(nodes: Seq<NodeModel>, c: CallModel, key: EdgeKey) -> Option<EdgeModel> {
    match graph::call_edge(nodes, c) {
        Some(e) => if e.key() == key {
            Some(e)
        } else {
            None
        },
        None => None,
    }
}

/// The edge of the first of the calls that has the key.
pub open spec fn first_given(
    nodes: Seq<NodeModel>,
    calls: Seq<CallModel>,
    key: EdgeKey,
) -> Option<EdgeModel>
    decreases calls.len(),
{
    if calls.len() == 0 {
        None
    } else {
        match first_given(nodes, calls.drop_last(), key) {
            Some(e) => Some(e),
            None => given(nodes, calls.last(), key),
        }
    }
}

proof fn lemma_given(nodes: Seq<NodeModel>, calls: Seq<CallModel>, key: EdgeKey)
    ensures
        match first_given(nodes, calls, key) {
            Some(e) => e.key() == key && e.relation == EdgeRelation::Calls && exists|i: int|
                0 <= i < calls.len() && given(nodes, #[trigger] calls[i], key) == Some(e),
            None => forall|i: int|
                0 <= i < calls.len() ==> given(nodes, #[trigger] calls[i], key) is None,
        },
    decreases calls.len(),
{
    if calls.len() > 0 {
        let d = calls.drop_last();
        lemma_given(nodes, d, key);
        match first_given(nodes, d, key) {
            Some(e) => {
                let i = choose|i: int|
                    0 <= i < d.len() && given(nodes, #[trigger] d[i], key) == Some(e);
                assert(calls[i] == d[i]);
            },
            None => {
                assert forall|i: int| 0 <= i < calls.len() - 1 implies given(
                    nodes,
                    #[trigger] calls[i],
                    key,
                ) is None by {
                    assert(calls[i] == d[i]);
                }
                assert(calls[calls.len() - 1] == calls.last());
            },
        }
    }
}

proof fn lemma_given_append(
    nodes: Seq<NodeModel>,
    a: Seq<CallModel>,
    b: Seq<CallModel>,
    key: EdgeKey,
)
    ensures
        first_given(nodes, a + b, key) == match first_given(nodes, a, key) {
            Some(e) => Some(e),
            None => first_given(nodes, b, key),
        },
    decreases b.len(),
{
    if b.len() == 0 {
        assert(a + b =~= a);
    } else {
        assert((a + b).drop_last() =~= a + b.drop_last());
        lemma_given_append(nodes, a, b.drop_last(), key);
    }
}

/// Whether a node gives the edge by which its file defines it.
pub open spec fn defines_at(nodes: Seq<NodeModel>, i: int, e: EdgeModel) -> bool {
    nodes[i].label != NodeLabel::File && match graph::file_id(nodes, nodes[i].file_path) {
        Some(f) => e == graph::defines_edge(f, nodes[i]),
        None => false,
    }
}

/// Whether an edge is the one by which a file defines one of the nodes.
pub open spec fn is_definition(nodes: Seq<NodeModel>, e: EdgeModel) -> bool {
    exists|i: int| 0 <= i < nodes.len() && #[trigger] defines_at(nodes, i, e)
}

proof fn lemma_define_exact(nodes: Seq<NodeModel>, k: nat, e: EdgeModel)
    requires
        ids_differ(nodes),
        k <= nodes.len(),
    ensures
        graph::define_edges(nodes, k).contains(e) == (exists|i: int|
            0 <= i < k && #[trigger] defines_at(nodes, i, e)),
    decreases k,
{
    let all = graph::define_edges(nodes, k);
    if k > 0 {
        let done = graph::define_edges(nodes, (k - 1) as nat);
        let n = nodes[k - 1];
        lemma_define_exact(nodes, (k - 1) as nat, e);
        assert(done.contains(e) ==> all.contains(e)) by {
            if done.contains(e) {
                let j = choose|j: int| 0 <= j < done.len() && done[j] == e;
                assert(all[j] == e);
            }
        }
        if n.label != NodeLabel::File {
            if let Some(f) = graph::file_id(nodes, n.file_path) {
                let own = graph::defines_edge(f, n);
                assert(!graph::has_key(done, own.key())) by {
                    if graph::has_key(done, own.key()) {
                        let j = choose|j: int|
                            0 <= j < done.len() && (#[trigger] done[j]).key() == own.key();
                        lemma_define_exact(nodes, (k - 1) as nat, done[j]);
                        assert(done.contains(done[j]));
                        let i = choose|i: int|
                            0 <= i < k - 1 && #[trigger] defines_at(nodes, i, done[j]);
                        assert(nodes[i].id != nodes[k - 1].id);
                    }
                }
                assert(all == done.push(own));
                assert(all[done.len() as int] == own);
                assert(defines_at(nodes, k - 1, own));
            }
        }
        if all.contains(e) && !done.contains(e) {
            let j = choose|j: int| 0 <= j < all.len() && all[j] == e;
            if j < done.len() {
                assert(done[j] == e);
            }
            assert(defines_at(nodes, k - 1, e));
        }
        if exists|i: int| 0 <= i < k && #[trigger] defines_at(nodes, i, e) {
            let i = choose|i: int| 0 <= i < k && #[trigger] defines_at(nodes, i, e);
            if i < k - 1 {
                assert(done.contains(e));
            }
        }
    }
}

proof fn lemma_calls_exact(
    nodes: Seq<NodeModel>,
    calls: Seq<CallModel>,
    base: Seq<EdgeModel>,
    k: nat,
    e: EdgeModel,
)
    requires
        k <= calls.len(),
        forall|i: int| 0 <= i < base.len() ==> (#[trigger] base[i]).relation != EdgeRelation::Calls,
    ensures
        graph::call_edges(nodes, calls, base, k).contains(e) == (base.contains(e) || first_given(
            nodes,
            calls.take(k as int),
            e.key(),
        ) == Some(e)),
    decreases k,
{
    let all = graph::call_edges(nodes, calls, base, k);
    let now = calls.take(k as int);
    if k > 0 {
        let done = graph::call_edges(nodes, calls, base, (k - 1) as nat);
        let then = calls.take(k - 1);
        assert(now.drop_last() =~= then);
        assert(now.last() == calls[k - 1]);
        lemma_calls_exact(nodes, calls, base, (k - 1) as nat, e);
        lemma_given(nodes, then, e.key());
        assert(done.contains(e) ==> all.contains(e)) by {
            if done.contains(e) {
                let j = choose|j: int| 0 <= j < done.len() && done[j] == e;
                assert(all[j] == e);
            }
        }
        if let Some(own) = graph::call_edge(nodes, calls[k - 1]) {
            lemma_given(nodes, then, own.key());
            if graph::has_key(done, own.key()) {
                let j = choose|j: int|
                    0 <= j < done.len() && (#[trigger] done[j]).key() == own.key();
                lemma_calls_exact(nodes, calls, base, (k - 1) as nat, done[j]);
                assert(done.contains(done[j]));
                if base.contains(done[j]) {
                    let i = choose|i: int| 0 <= i < base.len() && base[i] == done[j];
                    assert(base[i].relation != EdgeRelation::Calls);
                }
                assert(first_given(nodes, then, own.key()) is Some);
            } else {
                if let Some(x) = first_given(nodes, then, own.key()) {
                    lemma_calls_exact(nodes, calls, base, (k - 1) as nat, x);
                    let j = choose|j: int| 0 <= j < done.len() && done[j] == x;
                    assert(done[j].key() == own.key());
                }
                assert(all == done.push(own));
                assert(all[done.len() as int] == own);
                if all.contains(e) && !done.contains(e) {
                    let j = choose|j: int| 0 <= j < all.len() && all[j] == e;
                    if j < done.len() {
                        assert(done[j] == e);
                    }
                    assert(e == own);
                }
            }
        }
    } else {
        assert(now.len() == 0);
    }
}

/// Where the edges of a graph come from: each is the one by which a file defines
/// a node, or that of the first call that gives an edge between its ends.
pub proof fn law_edges_come_from_nodes_and_calls(
    nodes: Seq<NodeModel>,
    calls: Seq<CallModel>,
    e: EdgeModel,
)
    requires
        ids_differ(nodes),
    ensures
        graph::built_edges(nodes, calls).contains(e) == (is_definition(nodes, e) || first_given(
            nodes,
            calls,
            e.key(),
        ) == Some(e)),
{
    let base = graph::define_edges(nodes, nodes.len());
    assert forall|i: int| 0 <= i < base.len() implies (#[trigger] base[i]).relation
        != EdgeRelation::Calls by {
        assert(base.contains(base[i]));
        lemma_define_exact(nodes, nodes.len(), base[i]);
        let j = choose|j: int| 0 <= j < nodes.len() && #[trigger] defines_at(nodes, j, base[i]);
        assert(defines_at(nodes, j, base[i]));
    }
    lemma_define_exact(nodes, nodes.len(), e);
    lemma_calls_exact(nodes, calls, base, calls.len(), e);
    assert(calls.take(calls.len() as int) =~= calls);
}

/// The nodes that the resolver reads are those of the store.
proof fn lemma_resolver_nodes(s: StoreModel)
    requires
        rows::unique::<Node>(s.nodes),
    ensures
        ids_differ(rebuild::resolver_nodes(s)),
        forall|id: Seq<char>| #[trigger]
            store_edges::has_node(s.nodes, id) == graph_laws::has_node(
                rebuild::resolver_nodes(s),
                id,
            ),
        forall|id: Seq<char>| #[trigger]
            store_edges::has_node(s.nodes, id) == store_edges::has_node(
                rebuild::resolver_nodes(s),
                id,
            ),
{
    broadcast use vstd::seq_lib::group_to_multiset_ensures;

    let light = s.nodes.map_values(store_edges::light_node());
    let n = rebuild::resolver_nodes(s);
    order::law_arranged(light, store_edges::id_order());
    assert(ids_differ(light)) by {
        assert forall|i: int, j: int| 0 <= i < j < light.len() implies (#[trigger] light[i]).id != (
        #[trigger] light[j]).id by {
            assert(s.nodes[i].id != s.nodes[j].id);
        }
    }
    lemma_ids_differ(light, n);
    assert forall|id: Seq<char>| #[trigger]
        store_edges::has_node(s.nodes, id) == graph_laws::has_node(n, id) by {
        rows::lemma_first_at(s.nodes, store::node_is(id));
        if store_edges::has_node(s.nodes, id) {
            let i = rows::first_at(s.nodes, store::node_is(id)).unwrap();
            assert(light[i].id == id);
            assert(light.contains(light[i]));
            assert(light.to_multiset().count(light[i]) > 0);
            assert(n.contains(light[i]));
            let j = choose|j: int| 0 <= j < n.len() && n[j] == light[i];
            assert(n[j].id == id);
        }
        if graph_laws::has_node(n, id) {
            let j = choose|j: int| 0 <= j < n.len() && (#[trigger] n[j]).id == id;
            assert(n.contains(n[j]));
            assert(n.to_multiset().count(n[j]) > 0);
            assert(light.contains(n[j]));
            let i = choose|i: int| 0 <= i < light.len() && light[i] == n[j];
            assert(store::node_is(id)(s.nodes[i]));
        }
    }
    assert forall|id: Seq<char>| #[trigger]
        store_edges::has_node(s.nodes, id) == store_edges::has_node(n, id) by {
        rows::lemma_first_at(n, store::node_is(id));
        if graph_laws::has_node(n, id) {
            let j = choose|j: int| 0 <= j < n.len() && (#[trigger] n[j]).id == id;
            assert(store::node_is(id)(n[j]));
        }
        if store_edges::has_node(n, id) {
            let j = rows::first_at(n, store::node_is(id)).unwrap();
            assert(n[j].id == id);
        }
    }
}

proof fn lemma_ids_differ(a: Seq<NodeModel>, b: Seq<NodeModel>)
    requires
        ids_differ(a),
        a.to_multiset() == b.to_multiset(),
    ensures
        ids_differ(b),
    decreases b.len(),
{
    broadcast use vstd::seq_lib::group_to_multiset_ensures;

    assert forall|i: int, j: int| 0 <= i < j < b.len() implies (#[trigger] b[i]).id != (
    #[trigger] b[j]).id by {
        assert(b.contains(b[i]) && b.contains(b[j]));
        assert(b.to_multiset().count(b[i]) > 0 && b.to_multiset().count(b[j]) > 0);
        assert(a.contains(b[i]) && a.contains(b[j]));
        let x = choose|x: int| 0 <= x < a.len() && a[x] == b[i];
        let y = choose|y: int| 0 <= y < a.len() && a[y] == b[j];
        if x == y {
            assert(a.no_duplicates()) by {
                assert forall|p: int, q: int|
                    0 <= p < a.len() && 0 <= q < a.len() && p != q implies a[p] != a[q] by {
                    if p < q {
                        assert(a[p].id != a[q].id);
                    } else {
                        assert(a[q].id != a[p].id);
                    }
                }
            }
            a.lemma_multiset_has_no_duplicates();
            assert(a.to_multiset().count(b[i]) == 1);
            lemma_two(b, i, j);
        } else if x < y {
            assert(a[x].id != a[y].id);
        } else {
            assert(a[y].id != a[x].id);
        }
    }
}

proof fn lemma_two(b: Seq<NodeModel>, i: int, j: int)
    requires
        0 <= i < j < b.len(),
        b[i] == b[j],
    ensures
        b.to_multiset().count(b[i]) >= 2,
    decreases b.len(),
{
    broadcast use vstd::seq_lib::group_to_multiset_ensures;

    let d = b.drop_last();
    assert(b =~= d.push(b.last()));
    if j < b.len() - 1 {
        assert(d[i] == b[i] && d[j] == b[j]);
        lemma_two(d, i, j);
    } else {
        assert(d[i] == b[i]);
        assert(d.contains(b[i]));
        assert(d.to_multiset().count(b[i]) >= 1);
    }
}

/// The call of a row.
pub open spec fn call_of() -> spec_fn(CallRowModel) -> CallModel {
    |c: CallRowModel| c.call
}

/// The call sites as the resolver reads them.
pub open spec fn all_calls(s: StoreModel) -> Seq<CallModel> {
    s.calls.map_values(call_of())
}

/// The call sites of a file.
pub open spec fn file_calls(s: StoreModel, f: Seq<char>) -> Seq<CallModel> {
    rows::kept(s.calls, store_files::calls_in(f)).map_values(call_of())
}

/// The edges that syntax gives for the whole repository.
pub open spec fn syntax_edges(s: StoreModel) -> Seq<EdgeModel> {
    graph::built_edges(rebuild::resolver_nodes(s), all_calls(s))
}

/// Whether each call site is that of a node of its file.
pub open spec fn calls_at_home(s: StoreModel) -> bool {
    forall|c: CallRowModel| #[trigger]
        s.calls.contains(c) ==> exists|n: NodeModel| #[trigger]
            s.nodes.contains(n) && n.id == c.call.caller_id && n.file_path == c.file_path
}

/// Whether no file has two `File` nodes.
pub open spec fn one_file_node(nodes: Seq<NodeModel>) -> bool {
    forall|a: NodeModel, b: NodeModel| #[trigger]
        nodes.contains(a) && #[trigger] nodes.contains(b) && a.label == NodeLabel::File && b.label
            == NodeLabel::File && a.file_path == b.file_path ==> a == b
}

/// Whether the tables are as parsing leaves them: the ids of the nodes differ,
/// each call site is that of a node of its file, and no file has two `File`
/// nodes.
pub open spec fn is_tidy(s: StoreModel) -> bool {
    rows::unique::<Node>(s.nodes) && calls_at_home(s) && one_file_node(s.nodes)
}

/// A node among those that the resolver reads is one of the store.
proof fn lemma_light(s: StoreModel, x: NodeModel)
    ensures
        rebuild::resolver_nodes(s).contains(x) == (exists|m: NodeModel| #[trigger]
            s.nodes.contains(m) && store_edges::light_node()(m) == x),
{
    broadcast use vstd::seq_lib::group_to_multiset_ensures;

    let light = s.nodes.map_values(store_edges::light_node());
    let n = rebuild::resolver_nodes(s);
    order::law_arranged(light, store_edges::id_order());
    assert(n.contains(x) == light.contains(x)) by {
        assert(n.contains(x) == (n.to_multiset().count(x) > 0));
        assert(light.contains(x) == (light.to_multiset().count(x) > 0));
    }
    if light.contains(x) {
        let i = choose|i: int| 0 <= i < light.len() && light[i] == x;
        assert(s.nodes.contains(s.nodes[i]));
    }
    if exists|m: NodeModel| #[trigger]
        s.nodes.contains(m) && store_edges::light_node()(m) == x {
        let m = choose|m: NodeModel| #[trigger]
            s.nodes.contains(m) && store_edges::light_node()(m) == x;
        let i = choose|i: int| 0 <= i < s.nodes.len() && s.nodes[i] == m;
        assert(light[i] == x);
    }
}

/// Each caller is found in the file of its call.
pub proof fn lemma_caller(s: StoreModel, c: CallRowModel)
    requires
        is_tidy(s),
        s.calls.contains(c),
    ensures
        graph::node_with_id(rebuild::resolver_nodes(s), c.call.caller_id) matches Some(n)
            && n.file_path == c.file_path && n.id == c.call.caller_id
            && rebuild::resolver_nodes(s).contains(n),
{
    let m = choose|m: NodeModel| #[trigger]
        s.nodes.contains(m) && m.id == c.call.caller_id && m.file_path == c.file_path;
    let x = store_edges::light_node()(m);
    lemma_light(s, x);
    lemma_resolver_nodes(s);
    lemma_node_with_id(rebuild::resolver_nodes(s), x);
}

proof fn lemma_one_file_node(s: StoreModel)
    requires
        is_tidy(s),
    ensures
        one_file_node(rebuild::resolver_nodes(s)),
{
    let n = rebuild::resolver_nodes(s);
    assert forall|a: NodeModel, b: NodeModel| #[trigger]
        n.contains(a) && #[trigger] n.contains(b) && a.label == NodeLabel::File && b.label
            == NodeLabel::File && a.file_path == b.file_path implies a == b by {
        lemma_light(s, a);
        lemma_light(s, b);
        let x = choose|m: NodeModel| #[trigger]
            s.nodes.contains(m) && store_edges::light_node()(m) == a;
        let y = choose|m: NodeModel| #[trigger]
            s.nodes.contains(m) && store_edges::light_node()(m) == b;
        assert(x == y);
    }
}

/// The calls that give an edge with a key stand in one file.
proof fn lemma_home(s: StoreModel, key: EdgeKey, c: CallRowModel)
    requires
        is_tidy(s),
        s.calls.contains(c),
        given(rebuild::resolver_nodes(s), c.call, key) is Some,
    ensures
        graph::node_with_id(rebuild::resolver_nodes(s), key.0) matches Some(n) && n.file_path
            == c.file_path,
        given(rebuild::resolver_nodes(s), c.call, key)->0.src_file == c.file_path,
{
    lemma_caller(s, c);
}

proof fn lemma_given_rows(
    nodes: Seq<NodeModel>,
    all: Seq<CallRowModel>,
    f: Seq<char>,
    key: EdgeKey,
)
    requires
        forall|c: CallRowModel| #[trigger]
            all.contains(c) && given(nodes, c.call, key) is Some ==> c.file_path == f,
    ensures
        first_given(nodes, all.map_values(call_of()), key) == first_given(
            nodes,
            rows::kept(all, store_files::calls_in(f)).map_values(call_of()),
            key,
        ),
    decreases all.len(),
{
    let test = store_files::calls_in(f);
    let mine = rows::kept(all, test);
    if all.len() > 0 {
        let d = all.drop_last();
        let rest = rows::kept(d, test);
        let last = all.last();
        assert(all[all.len() - 1] == last);
        assert(all.contains(last));
        assert forall|c: CallRowModel| #[trigger]
            d.contains(c) && given(nodes, c.call, key) is Some implies c.file_path == f by {
            let i = choose|i: int| 0 <= i < d.len() && d[i] == c;
            assert(all[i] == c);
            assert(all.contains(c));
        }
        lemma_given_rows(nodes, d, f, key);
        assert(all.map_values(call_of()).drop_last() =~= d.map_values(call_of()));
        if test(last) {
            assert(mine == rest.push(last));
            assert(mine.map_values(call_of()).drop_last() =~= rest.map_values(call_of()));
        } else {
            assert(given(nodes, last.call, key) is None);
        }
    } else {
        assert(mine =~= all);
    }
}

proof fn lemma_given_elsewhere(s: StoreModel, g: Seq<char>, key: EdgeKey)
    requires
        is_tidy(s),
        match graph::node_with_id(rebuild::resolver_nodes(s), key.0) {
            Some(n) => n.file_path != g,
            None => true,
        },
    ensures
        first_given(rebuild::resolver_nodes(s), file_calls(s, g), key) is None,
{
    let n = rebuild::resolver_nodes(s);
    let mine = rows::kept(s.calls, store_files::calls_in(g));
    let calls = file_calls(s, g);
    rows::lemma_kept(s.calls, store_files::calls_in(g));
    lemma_given(n, calls, key);
    if let Some(e) = first_given(n, calls, key) {
        let i = choose|i: int|
            0 <= i < calls.len() && given(n, #[trigger] calls[i], key) == Some(e);
        assert(s.calls.contains(mine[i]));
        lemma_home(s, key, mine[i]);
    }
}

/// The file that the calls behind a key stand in.
proof fn lemma_given_all(s: StoreModel, key: EdgeKey, f: Seq<char>)
    requires
        is_tidy(s),
        graph::node_with_id(rebuild::resolver_nodes(s), key.0) matches Some(n) && n.file_path == f,
    ensures
        first_given(rebuild::resolver_nodes(s), all_calls(s), key) == first_given(
            rebuild::resolver_nodes(s),
            file_calls(s, f),
            key,
        ),
{
    let n = rebuild::resolver_nodes(s);
    assert forall|c: CallRowModel| #[trigger]
        s.calls.contains(c) && given(n, c.call, key) is Some implies c.file_path == f by {
        lemma_home(s, key, c);
    }
    lemma_given_rows(n, s.calls, f, key);
}

proof fn lemma_given_wave(s: StoreModel, wave: Seq<Seq<char>>, key: EdgeKey, f: Seq<char>)
    requires
        is_tidy(s),
        graph::node_with_id(rebuild::resolver_nodes(s), key.0) matches Some(n) && n.file_path == f,
    ensures
        first_given(rebuild::resolver_nodes(s), rebuild::calls_of_files(s, wave), key) == if wave.contains(
            f,
        ) {
            first_given(rebuild::resolver_nodes(s), file_calls(s, f), key)
        } else {
            None
        },
    decreases wave.len(),
{
    let n = rebuild::resolver_nodes(s);
    if wave.len() > 0 {
        let d = wave.drop_last();
        let g = wave.last();
        lemma_given_wave(s, d, key, f);
        let mine = rows::kept(s.calls, store_files::calls_in(g));
        assert(rebuild::calls_of_files(s, wave) =~= rebuild::calls_of_files(s, d) + file_calls(s, g))
            by {
            assert(mine.map_values(|c: CallRowModel| c.call) =~= mine.map_values(call_of()));
        }
        lemma_given_append(n, rebuild::calls_of_files(s, d), file_calls(s, g), key);
        if g != f {
            lemma_given_elsewhere(s, g, key);
        }
        lemma_listed(wave, f);
    }
}

pub proof fn lemma_listed(wave: Seq<Seq<char>>, f: Seq<char>)
    requires
        wave.len() > 0,
    ensures
        wave.contains(f) == (wave.drop_last().contains(f) || wave.last() == f),
{
    let d = wave.drop_last();
    if wave.contains(f) {
        let j = choose|j: int| 0 <= j < wave.len() && wave[j] == f;
        if j < d.len() {
            assert(d[j] == f);
        }
    }
    if d.contains(f) {
        let j = choose|j: int| 0 <= j < d.len() && d[j] == f;
        assert(wave[j] == f);
    }
    assert(wave[wave.len() - 1] == wave.last());
}

/// The files of a wave give the edges from these files that the whole
/// repository gives.
proof fn lemma_wave_edges(s: StoreModel, wave: Seq<Seq<char>>, e: EdgeModel)
    requires
        is_tidy(s),
    ensures
        rebuild::wave_edges(s, wave).contains(e) == (wave.contains(e.src_file) && syntax_edges(
            s,
        ).contains(e)),
{
    let n = rebuild::resolver_nodes(s);
    let some = rebuild::calls_of_files(s, wave);
    let all = all_calls(s);
    let key = e.key();
    lemma_resolver_nodes(s);
    law_edges_come_from_nodes_and_calls(n, some, e);
    law_edges_come_from_nodes_and_calls(n, all, e);
    rows::lemma_kept(graph::built_edges(n, some), rebuild::from_files(wave));
    match graph::node_with_id(n, key.0) {
        Some(m) => {
            lemma_given_all(s, key, m.file_path);
            lemma_given_wave(s, wave, key, m.file_path);
            lemma_given(n, all, key);
            if first_given(n, all, key) == Some(e) {
                let i = choose|i: int|
                    0 <= i < all.len() && given(n, #[trigger] all[i], key) == Some(e);
                assert(s.calls.contains(s.calls[i]));
                lemma_home(s, key, s.calls[i]);
                assert(e.src_file == m.file_path);
            }
        },
        None => {
            lemma_given(n, all, key);
            lemma_given(n, some, key);
        },
    }
}

proof fn lemma_without_wave(edges: Seq<EdgeModel>, wave: Seq<Seq<char>>, e: EdgeModel)
    ensures
        rebuild::without_wave(edges, wave).contains(e) == (edges.contains(e) && !(wave.contains(
            e.src_file,
        ) && e.tier == ResolutionTier::TreeSitter)),
    decreases wave.len(),
{
    if wave.len() > 0 {
        let d = wave.drop_last();
        lemma_without_wave(edges, d, e);
        rows::lemma_kept(
            rebuild::without_wave(edges, d),
            store_edges::not_syntactic(wave.last()),
        );
        assert(wave.contains(e.src_file) == (d.contains(e.src_file) || wave.last() == e.src_file))
            by {
            if wave.contains(e.src_file) {
                let j = choose|j: int| 0 <= j < wave.len() && wave[j] == e.src_file;
                if j < d.len() {
                    assert(d[j] == e.src_file);
                }
            }
            if d.contains(e.src_file) {
                let j = choose|j: int| 0 <= j < d.len() && d[j] == e.src_file;
                assert(wave[j] == e.src_file);
            }
            assert(wave[wave.len() - 1] == wave.last());
        }
    }
}

proof fn lemma_all_added(a: Seq<EdgeModel>, b: Seq<EdgeModel>)
    ensures
        forall|e: EdgeModel| #[trigger]
            rows::all_added::<Edge>(a, b).contains(e) ==> a.contains(e) || b.contains(e),
        forall|e: EdgeModel| #[trigger]
            a.contains(e) ==> rows::all_added::<Edge>(a, b).contains(e),
        forall|e: EdgeModel| #[trigger]
            b.contains(e) ==> exists|x: EdgeModel| #[trigger]
                rows::all_added::<Edge>(a, b).contains(x) && x.key() == e.key(),
    decreases b.len(),
{
    let all = rows::all_added::<Edge>(a, b);
    if b.len() > 0 {
        let d = b.drop_last();
        let rest = rows::all_added::<Edge>(a, d);
        let last = b.last();
        lemma_all_added(a, d);
        rows::lemma_first_at(rest, rows::has_key::<Edge>(last.key()));
        assert forall|e: EdgeModel| #[trigger] all.contains(e) implies a.contains(e) || b.contains(
            e,
        ) by {
            let i = choose|i: int| 0 <= i < all.len() && all[i] == e;
            if i < rest.len() {
                assert(rest[i] == e);
                assert(rest.contains(e));
                if d.contains(e) {
                    let j = choose|j: int| 0 <= j < d.len() && d[j] == e;
                    assert(b[j] == e);
                }
            } else {
                assert(b[b.len() - 1] == e);
            }
        }
        assert forall|e: EdgeModel| #[trigger] rest.contains(e) implies all.contains(e) by {
            let i = choose|i: int| 0 <= i < rest.len() && rest[i] == e;
            assert(all[i] == e);
        }
        assert forall|e: EdgeModel| #[trigger] b.contains(e) implies exists|x: EdgeModel| #[trigger]
            all.contains(x) && x.key() == e.key() by {
            let j = choose|j: int| 0 <= j < b.len() && b[j] == e;
            if j < d.len() {
                assert(d[j] == e);
                assert(d.contains(e));
                let x = choose|x: EdgeModel| #[trigger] rest.contains(x) && x.key() == e.key();
                assert(all.contains(x));
            } else if rows::any(rest, rows::has_key::<Edge>(last.key())) {
                let i = rows::first_at(rest, rows::has_key::<Edge>(last.key())).unwrap();
                assert(rest.contains(rest[i]));
                assert(all.contains(rest[i]) && rest[i].key() == e.key());
            } else {
                assert(all[rest.len() as int] == e);
                assert(all.contains(e));
            }
        }
    }
}

/// An edge that syntax gives: it comes from syntax, it is no edge of a compiler,
/// its ends are nodes, and one of them lies in its file.
pub proof fn lemma_syntax_edge(s: StoreModel, e: EdgeModel)
    requires
        is_tidy(s),
        syntax_edges(s).contains(e),
    ensures
        e.tier == ResolutionTier::TreeSitter,
        !store::justified_by("Scip"@)(e),
        !store::justified_by("IndexStore"@)(e),
        !store_edges::unjustified()(e),
        store_edges::grounded(s.nodes)(e),
        store_edges::grounded(rebuild::resolver_nodes(s))(e),
        exists|n: NodeModel| #[trigger] s.nodes.contains(n) && n.file_path == e.src_file,
{
    let n = rebuild::resolver_nodes(s);
    let all = syntax_edges(s);
    let i = choose|i: int| 0 <= i < all.len() && all[i] == e;
    lemma_resolver_nodes(s);
    graph_laws::law_no_phantom_edges(n, all_calls(s), i);
    assert(store_edges::has_node(s.nodes, e.src) && store_edges::has_node(s.nodes, e.dst));
    assert(store_edges::has_node(n, e.src) && store_edges::has_node(n, e.dst));
    law_edges_come_from_nodes_and_calls(n, all_calls(s), e);
    reveal_strlit("Scip");
    reveal_strlit("IndexStore");
    reveal_strlit("SameFileUnique");
    assert("Scip"@.len() != "SameFileUnique"@.len());
    assert("IndexStore"@.len() != "SameFileUnique"@.len());
    assert(graph::same_file_tag()[0].0 == "justification"@);
    if is_definition(n, e) {
        let j = choose|j: int| 0 <= j < n.len() && #[trigger] defines_at(n, j, e);
        assert(n.contains(n[j]));
        lemma_light(s, n[j]);
        let m = choose|m: NodeModel| #[trigger]
            s.nodes.contains(m) && store_edges::light_node()(m) == n[j];
        assert(s.nodes.contains(m) && m.file_path == e.src_file);
        assert(e.metadata.len() == 0);
    } else {
        let calls = all_calls(s);
        lemma_given(n, calls, e.key());
        let c = choose|c: int|
            0 <= c < calls.len() && given(n, #[trigger] calls[c], e.key()) == Some(e);
        assert(s.calls.contains(s.calls[c]));
        lemma_home(s, e.key(), s.calls[c]);
        let m = choose|m: NodeModel| #[trigger]
            s.nodes.contains(m) && m.id == s.calls[c].call.caller_id && m.file_path
                == s.calls[c].file_path;
        assert(s.nodes.contains(m) && m.file_path == e.src_file);
        assert(e.metadata == graph::same_file_tag());
    }
}

/// Whether the edges outside a wave are those that the tables give: they come
/// from syntax alone, and none is missing.
pub open spec fn current_outside(s: StoreModel, wave: Seq<Seq<char>>) -> bool {
    &&& forall|e: EdgeModel| #[trigger] s.edges.contains(e) ==> e.tier == ResolutionTier::TreeSitter
    &&& forall|e: EdgeModel|
        !wave.contains(e.src_file) ==> #[trigger] s.edges.contains(e) == syntax_edges(s).contains(e)
}

/// Resolving the files of a wave gives the edges that resolving the whole
/// repository gives, where the edges outside the wave are current.
pub proof fn law_wave_is_enough(s: StoreModel, wave: Seq<Seq<char>>)
    requires
        is_tidy(s),
        current_outside(s, wave),
    ensures
        same_rows(rebuild::wave_rebuilt(s, wave).edges, syntax_edges(s)),
{
    let left = rebuild::without_wave(s.edges, wave);
    let new = rebuild::wave_edges(s, wave);
    let both = rows::all_added::<Edge>(left, new);
    let all = syntax_edges(s);
    let after = rebuild::wave_rebuilt(s, wave).edges;
    lemma_all_added(left, new);
    rows::lemma_kept(both, store_edges::grounded(s.nodes));
    graph_laws::law_edges_are_distinct(rebuild::resolver_nodes(s), all_calls(s));
    assert forall|e: EdgeModel| left.contains(e) implies #[trigger] all.contains(e)
        && !wave.contains(e.src_file) by {
        lemma_without_wave(s.edges, wave, e);
        assert(s.edges.contains(e));
    }
    assert forall|e: EdgeModel| new.contains(e) implies #[trigger] all.contains(e) by {
        lemma_wave_edges(s, wave, e);
    }
    assert forall|e: EdgeModel| #[trigger] after.contains(e) == all.contains(e) by {
        lemma_without_wave(s.edges, wave, e);
        lemma_wave_edges(s, wave, e);
        assert(after.contains(e) == (both.contains(e) && store_edges::grounded(s.nodes)(e)));
        if all.contains(e) {
            lemma_syntax_edge(s, e);
            if wave.contains(e.src_file) {
                assert(new.contains(e));
                let x = choose|x: EdgeModel| #[trigger] both.contains(x) && x.key() == e.key();
                assert(all.contains(x));
                lemma_same_key(all, x, e);
            } else {
                assert(s.edges.contains(e));
                assert(left.contains(e));
            }
            assert(both.contains(e));
        }
        if both.contains(e) {
            assert(left.contains(e) || new.contains(e));
        }
    }
}

proof fn lemma_same_key(all: Seq<EdgeModel>, x: EdgeModel, y: EdgeModel)
    requires
        graph_laws::keys_distinct(all),
        all.contains(x),
        all.contains(y),
        x.key() == y.key(),
    ensures
        x == y,
{
    let i = choose|i: int| 0 <= i < all.len() && all[i] == x;
    let j = choose|j: int| 0 <= j < all.len() && all[j] == y;
    if i < j {
        assert(all[i].key() != all[j].key());
    } else if j < i {
        assert(all[j].key() != all[i].key());
    }
}

/// Whether two states of the tables hold the same nodes and calls of a file.
pub open spec fn same_in_file(s: StoreModel, t: StoreModel, f: Seq<char>) -> bool {
    &&& forall|n: NodeModel|
        n.file_path == f ==> (#[trigger] s.nodes.contains(n) == t.nodes.contains(n))
    &&& rows::kept(s.calls, store_files::calls_in(f)) == rows::kept(
        t.calls,
        store_files::calls_in(f),
    )
}

proof fn lemma_file_id(nodes: Seq<NodeModel>, f: Seq<char>, x: Seq<char>)
    requires
        one_file_node(nodes),
        ids_differ(nodes),
    ensures
        (graph::file_id(nodes, f) == Some(x)) == (exists|i: int|
            0 <= i < nodes.len() && (#[trigger] nodes[i]).label == NodeLabel::File
                && nodes[i].file_path == f && nodes[i].id == x),
    decreases nodes.len(),
{
    if nodes.len() > 0 {
        let d = nodes.drop_last();
        assert forall|n: NodeModel| #[trigger] d.contains(n) implies nodes.contains(n) by {
            let i = choose|i: int| 0 <= i < d.len() && d[i] == n;
            assert(nodes[i] == n);
        }
        assert(ids_differ(d)) by {
            assert forall|i: int, j: int| 0 <= i < j < d.len() implies (#[trigger] d[i]).id != (
            #[trigger] d[j]).id by {
                assert(nodes[i].id != nodes[j].id);
            }
        }
        lemma_file_id(d, f, x);
        let last = nodes.last();
        assert(nodes[nodes.len() - 1] == last);
        if exists|i: int|
            0 <= i < d.len() && (#[trigger] d[i]).label == NodeLabel::File && d[i].file_path == f
                && d[i].id == x {
            let i = choose|i: int|
                0 <= i < d.len() && (#[trigger] d[i]).label == NodeLabel::File && d[i].file_path
                    == f && d[i].id == x;
            assert(nodes[i] == d[i]);
        }
        if exists|i: int|
            0 <= i < nodes.len() && (#[trigger] nodes[i]).label == NodeLabel::File
                && nodes[i].file_path == f && nodes[i].id == x {
            let i = choose|i: int|
                0 <= i < nodes.len() && (#[trigger] nodes[i]).label == NodeLabel::File
                    && nodes[i].file_path == f && nodes[i].id == x;
            if i < d.len() {
                assert(d[i] == nodes[i]);
                assert(nodes.contains(nodes[i]) && nodes.contains(last));
                assert(nodes[i].id != nodes[nodes.len() - 1].id);
            }
        }
    }
}

proof fn lemma_node_with_id(nodes: Seq<NodeModel>, n: NodeModel)
    requires
        ids_differ(nodes),
        nodes.contains(n),
    ensures
        graph::node_with_id(nodes, n.id) == Some(n),
    decreases nodes.len(),
{
    let i = choose|i: int| 0 <= i < nodes.len() && nodes[i] == n;
    let d = nodes.drop_last();
    if i < d.len() {
        assert(nodes[i].id != nodes[nodes.len() - 1].id);
        assert(ids_differ(d)) by {
            assert forall|a: int, b: int| 0 <= a < b < d.len() implies (#[trigger] d[a]).id != (
            #[trigger] d[b]).id by {
                assert(nodes[a].id != nodes[b].id);
            }
        }
        assert(d[i] == n);
        lemma_node_with_id(d, n);
    }
}

proof fn lemma_found_node(nodes: Seq<NodeModel>, id: Seq<char>)
    ensures
        match graph::node_with_id(nodes, id) {
            Some(n) => nodes.contains(n) && n.id == id,
            None => true,
        },
    decreases nodes.len(),
{
    if nodes.len() > 0 {
        let d = nodes.drop_last();
        lemma_found_node(d, id);
        if nodes.last().id == id {
            assert(nodes[nodes.len() - 1] == nodes.last());
        } else if let Some(n) = graph::node_with_id(d, id) {
            let i = choose|i: int| 0 <= i < d.len() && d[i] == n;
            assert(nodes[i] == n);
        }
    }
}

proof fn lemma_only_function(
    a: Seq<NodeModel>,
    b: Seq<NodeModel>,
    f: Seq<char>,
    name: Seq<char>,
    id: Seq<char>,
)
    requires
        forall|n: NodeModel| n.file_path == f ==> (#[trigger] a.contains(n) == b.contains(n)),
        graph::only_function(a, f, name, id),
    ensures
        graph::only_function(b, f, name, id),
{
    let i = choose|i: int|
        0 <= i < a.len() && graph::is_function(#[trigger] a[i], f, name) && a[i].id == id;
    assert(a.contains(a[i]));
    assert(b.contains(a[i]));
    let j = choose|j: int| 0 <= j < b.len() && b[j] == a[i];
    assert(graph::is_function(b[j], f, name));
    assert forall|j: int|
        0 <= j < b.len() && graph::is_function(#[trigger] b[j], f, name) implies b[j].id == id by {
        assert(b.contains(b[j]));
        assert(a.contains(b[j]));
        let m = choose|m: int| 0 <= m < a.len() && a[m] == b[j];
        assert(graph::is_function(a[m], f, name));
    }
}

proof fn lemma_resolve_local(
    a: Seq<NodeModel>,
    b: Seq<NodeModel>,
    f: Seq<char>,
    name: Seq<char>,
)
    requires
        forall|n: NodeModel| n.file_path == f ==> (#[trigger] a.contains(n) == b.contains(n)),
    ensures
        graph::resolve(a, f, name) == graph::resolve(b, f, name),
{
    if let Some(x) = graph::resolve(a, f, name) {
        let id = choose|id: Seq<char>| graph::only_function(a, f, name, id);
        lemma_only_function(a, b, f, name, id);
        assert(graph::resolve(b, f, name) is Some);
        let y = choose|id: Seq<char>| graph::only_function(b, f, name, id);
        let i = choose|i: int|
            0 <= i < b.len() && graph::is_function(#[trigger] b[i], f, name) && b[i].id == id;
        assert(b[i].id == y);
    }
    if let Some(y) = graph::resolve(b, f, name) {
        let id = choose|id: Seq<char>| graph::only_function(b, f, name, id);
        lemma_only_function(b, a, f, name, id);
        assert(graph::resolve(a, f, name) is Some);
    }
}

/// The nodes of a file that the resolver reads.
proof fn lemma_same_light(s: StoreModel, t: StoreModel, f: Seq<char>)
    requires
        same_in_file(s, t, f),
    ensures
        forall|n: NodeModel|
            n.file_path == f ==> (#[trigger] rebuild::resolver_nodes(s).contains(n)
                == rebuild::resolver_nodes(t).contains(n)),
{
    assert forall|n: NodeModel| n.file_path == f implies (
    #[trigger] rebuild::resolver_nodes(s).contains(n) == rebuild::resolver_nodes(t).contains(n)) by {
        lemma_light(s, n);
        lemma_light(t, n);
        if rebuild::resolver_nodes(s).contains(n) {
            let m = choose|m: NodeModel| #[trigger]
                s.nodes.contains(m) && store_edges::light_node()(m) == n;
            assert(t.nodes.contains(m));
        }
        if rebuild::resolver_nodes(t).contains(n) {
            let m = choose|m: NodeModel| #[trigger]
                t.nodes.contains(m) && store_edges::light_node()(m) == n;
            assert(s.nodes.contains(m));
        }
    }
}

proof fn lemma_same_given(
    a: Seq<NodeModel>,
    b: Seq<NodeModel>,
    calls: Seq<CallModel>,
    key: EdgeKey,
)
    requires
        forall|i: int|
            0 <= i < calls.len() ==> graph::call_edge(a, #[trigger] calls[i]) == graph::call_edge(
                b,
                calls[i],
            ),
    ensures
        first_given(a, calls, key) == first_given(b, calls, key),
    decreases calls.len(),
{
    if calls.len() > 0 {
        let d = calls.drop_last();
        assert forall|i: int| 0 <= i < d.len() implies graph::call_edge(a, #[trigger] d[i])
            == graph::call_edge(b, d[i]) by {
            assert(d[i] == calls[i]);
        }
        lemma_same_given(a, b, d, key);
        assert(calls[calls.len() - 1] == calls.last());
    }
}

proof fn lemma_local_one_way(s: StoreModel, t: StoreModel, e: EdgeModel)
    requires
        is_tidy(s),
        is_tidy(t),
        same_in_file(s, t, e.src_file),
        syntax_edges(s).contains(e),
    ensures
        syntax_edges(t).contains(e),
{
    let a = rebuild::resolver_nodes(s);
    let b = rebuild::resolver_nodes(t);
    let f = e.src_file;
    lemma_resolver_nodes(s);
    lemma_resolver_nodes(t);
    lemma_same_light(s, t, f);
    law_edges_come_from_nodes_and_calls(a, all_calls(s), e);
    law_edges_come_from_nodes_and_calls(b, all_calls(t), e);
    if is_definition(a, e) {
        let i = choose|i: int| 0 <= i < a.len() && #[trigger] defines_at(a, i, e);
        assert(a[i].file_path == f);
        assert(a.contains(a[i]));
        assert(b.contains(a[i]));
        let j = choose|j: int| 0 <= j < b.len() && b[j] == a[i];
        lemma_one_file_node(s);
        lemma_one_file_node(t);
        lemma_file_id(a, f, e.src);
        lemma_file_id(b, f, e.src);
        let m = choose|m: int|
            0 <= m < a.len() && (#[trigger] a[m]).label == NodeLabel::File && a[m].file_path == f
                && a[m].id == e.src;
        assert(a.contains(a[m]));
        assert(b.contains(a[m]));
        let n = choose|n: int| 0 <= n < b.len() && b[n] == a[m];
        assert(b[n].label == NodeLabel::File);
        assert(defines_at(b, j, e));
    } else {
        let key = e.key();
        let calls = all_calls(s);
        lemma_given(a, calls, key);
        let c = choose|c: int| 0 <= c < calls.len() && given(a, #[trigger] calls[c], key) == Some(e);
        let row = s.calls[c];
        assert(s.calls.contains(row));
        lemma_caller(s, row);
        lemma_home(s, key, row);
        let n = graph::node_with_id(a, key.0)->0;
        assert(n.file_path == f);
        lemma_given_all(s, key, f);
        assert(b.contains(n));
        lemma_node_with_id(b, n);
        lemma_given_all(t, key, f);
        let mine = file_calls(s, f);
        let kept = rows::kept(s.calls, store_files::calls_in(f));
        rows::lemma_kept(s.calls, store_files::calls_in(f));
        assert forall|i: int| 0 <= i < mine.len() implies graph::call_edge(a, #[trigger] mine[i])
            == graph::call_edge(b, mine[i]) by {
            assert(s.calls.contains(kept[i]));
            lemma_caller(s, kept[i]);
            let m = graph::node_with_id(a, mine[i].caller_id)->0;
            assert(m.file_path == f);
            assert(b.contains(m));
            lemma_node_with_id(b, m);
            lemma_resolve_local(a, b, f, mine[i].callee_name);
        }
        lemma_same_given(a, b, mine, key);
    }
}

/// The edges of a file depend on that file alone: where two states of the tables
/// hold the same nodes and calls of a file, they give the same edges from it.
pub proof fn law_edges_are_local(s: StoreModel, t: StoreModel, e: EdgeModel)
    requires
        is_tidy(s),
        is_tidy(t),
        same_in_file(s, t, e.src_file),
    ensures
        syntax_edges(s).contains(e) == syntax_edges(t).contains(e),
{
    if syntax_edges(s).contains(e) {
        lemma_local_one_way(s, t, e);
    }
    if syntax_edges(t).contains(e) {
        assert(same_in_file(t, s, e.src_file)) by {
            assert forall|n: NodeModel| n.file_path == e.src_file implies (
            #[trigger] t.nodes.contains(n) == s.nodes.contains(n)) by {
                assert(s.nodes.contains(n) == t.nodes.contains(n));
            }
        }
        lemma_local_one_way(t, s, e);
    }
}

/// A table in which no row has a key that another one has is what putting its
/// rows into an empty table gives.
proof fn lemma_all_upserted_new(ms: Seq<EdgeModel>)
    requires
        graph_laws::keys_distinct(ms),
    ensures
        rows::all_upserted::<Edge>(Seq::empty(), ms) == ms,
    decreases ms.len(),
{
    if ms.len() > 0 {
        let d = ms.drop_last();
        assert(graph_laws::keys_distinct(d)) by {
            assert forall|i: int, j: int| 0 <= i < j < d.len() implies (#[trigger] d[i]).key() != (
            #[trigger] d[j]).key() by {
                assert(ms[i].key() != ms[j].key());
            }
        }
        lemma_all_upserted_new(d);
        let own = rows::has_key::<Edge>(ms.last().key());
        rows::lemma_first_at(d, own);
        if let Some(i) = rows::first_at(d, own) {
            assert(ms[i].key() != ms[ms.len() - 1].key());
        }
        assert(d.push(ms.last()) =~= ms);
    } else {
        assert(ms =~= Seq::empty());
    }
}

proof fn lemma_kept_whole(s: Seq<EdgeModel>, test: spec_fn(EdgeModel) -> bool)
    requires
        forall|e: EdgeModel| #[trigger] s.contains(e) ==> test(e),
    ensures
        rows::kept(s, test) == s,
    decreases s.len(),
{
    if s.len() > 0 {
        let d = s.drop_last();
        assert(s[s.len() - 1] == s.last());
        assert(s.contains(s.last()));
        assert forall|e: EdgeModel| #[trigger] d.contains(e) implies test(e) by {
            let i = choose|i: int| 0 <= i < d.len() && d[i] == e;
            assert(s[i] == e);
            assert(s.contains(e));
        }
        lemma_kept_whole(d, test);
        assert(d.push(s.last()) =~= s);
    }
}

/// Whether no edge is one of a compiler's index.
pub open spec fn is_plain(s: StoreModel) -> bool {
    forall|e: EdgeModel| #[trigger]
        s.edges.contains(e) ==> !store::justified_by("Scip"@)(e) && !store::justified_by(
            "IndexStore"@,
        )(e)
}

proof fn lemma_none_reused(s: StoreModel, j: Seq<char>, edges: Seq<EdgeModel>)
    requires
        forall|e: EdgeModel| #[trigger] s.edges.contains(e) ==> !store::justified_by(j)(e),
    ensures
        rebuild::with_reused(s, j, rebuild::resolver_nodes(s), edges) == edges,
{
    let mine = rows::kept(s.edges, store::justified_by(j));
    let live = rebuild::reusable(s, j, rebuild::resolver_nodes(s));
    rows::lemma_kept(s.edges, store::justified_by(j));
    rows::lemma_kept(mine, store_edges::grounded(rebuild::resolver_nodes(s)));
    if live.len() > 0 {
        assert(live.contains(live[0]));
        assert(mine.contains(live[0]));
        assert(s.edges.contains(live[0]));
    }
}

/// Where there is no index of a compiler, resolving the whole repository gives
/// the edges of syntax.
pub proof fn law_full_rebuild_is_syntax(s: StoreModel)
    requires
        is_tidy(s),
        is_plain(s),
    ensures
        rebuild::full_rebuilt(s, Seq::empty(), Seq::empty()).edges == syntax_edges(s),
{
    let n = rebuild::resolver_nodes(s);
    let none = Seq::<EdgeModel>::empty();
    let base = syntax_edges(s);
    assert(s.calls.map_values(|c: CallRowModel| c.call) =~= all_calls(s));
    lemma_none_reused(s, "Scip"@, base);
    lemma_none_reused(s, "IndexStore"@, base);
    assert(rebuild::known_edges(s, none, none) == base);
    assert forall|e: EdgeModel| #[trigger] base.contains(e) implies store_edges::grounded(n)(e) by {
        lemma_syntax_edge(s, e);
    }
    lemma_kept_whole(base, store_edges::grounded(n));
    graph_laws::law_edges_are_distinct(n, all_calls(s));
    lemma_all_upserted_new(base);
}

/// What putting nodes into a table does to its rows.
pub proof fn lemma_upserted_nodes(s: Seq<NodeModel>, ms: Seq<NodeModel>)
    ensures
        forall|n: NodeModel| #[trigger]
            rows::all_upserted::<Node>(s, ms).contains(n) ==> s.contains(n) || ms.contains(n),
        forall|n: NodeModel| #[trigger]
            s.contains(n) && (forall|m: NodeModel| #[trigger] ms.contains(m) ==> m.id != n.id)
                ==> rows::all_upserted::<Node>(s, ms).contains(n),
        forall|n: NodeModel| #[trigger]
            ms.contains(n) ==> exists|x: NodeModel| #[trigger]
                rows::all_upserted::<Node>(s, ms).contains(x) && x.id == n.id,
    decreases ms.len(),
{
    let all = rows::all_upserted::<Node>(s, ms);
    if ms.len() > 0 {
        let d = ms.drop_last();
        let rest = rows::all_upserted::<Node>(s, d);
        let last = ms.last();
        let own = rows::has_key::<Node>(last.id);
        lemma_upserted_nodes(s, d);
        rows::lemma_first_at(rest, own);
        assert(ms[ms.len() - 1] == last);
        assert(ms.contains(last));
        assert forall|m: NodeModel| #[trigger] d.contains(m) implies ms.contains(m) by {
            let i = choose|i: int| 0 <= i < d.len() && d[i] == m;
            assert(ms[i] == m);
        }
        let at = match rows::first_at(rest, own) {
            Some(i) => i,
            None => rest.len() as int,
        };
        assert(all[at] == last);
        assert(all.contains(last));
        assert forall|i: int| 0 <= i < rest.len() && i != at implies #[trigger] all[i]
            == rest[i] by {}
        assert forall|n: NodeModel| #[trigger] all.contains(n) implies s.contains(n)
            || ms.contains(n) by {
            let i = choose|i: int| 0 <= i < all.len() && all[i] == n;
            if i != at {
                assert(rest[i] == n);
                assert(rest.contains(n));
            }
        }
        assert forall|x: NodeModel| #[trigger] rest.contains(x) && x.id != last.id implies all.contains(
            x,
        ) by {
            let i = choose|i: int| 0 <= i < rest.len() && rest[i] == x;
            assert(all[i] == x);
        }
        assert forall|n: NodeModel| #[trigger]
            s.contains(n) && (forall|m: NodeModel| #[trigger]
                ms.contains(m) ==> m.id != n.id) implies all.contains(n) by {
            assert(rest.contains(n));
        }
        assert forall|n: NodeModel| #[trigger] ms.contains(n) implies exists|x: NodeModel| #[trigger]
            all.contains(x) && x.id == n.id by {
            let j = choose|j: int| 0 <= j < ms.len() && ms[j] == n;
            if n.id == last.id {
                assert(all.contains(last) && last.id == n.id);
            } else {
                assert(d[j] == n);
                assert(d.contains(n));
                let x = choose|x: NodeModel| #[trigger] rest.contains(x) && x.id == n.id;
                assert(all.contains(x));
            }
        }
    }
}

/// The nodes of a parsed file.
pub open spec fn item_nodes(item: ParsedItem) -> Seq<NodeModel> {
    types::node_views(item.parsed.nodes@)
}

/// The calls of a parsed file.
pub open spec fn item_calls(item: ParsedItem) -> Seq<CallModel> {
    types::call_views(item.parsed.calls@)
}

/// Whether a parsed file is closed: its nodes carry its path, one of them at
/// most is its `File` node, and its calls are made by its nodes.
pub open spec fn is_closed(item: ParsedItem) -> bool {
    &&& forall|n: NodeModel| #[trigger] item_nodes(item).contains(n) ==> n.file_path == item.rel@
    &&& one_file_node(item_nodes(item))
    &&& forall|c: CallModel| #[trigger]
        item_calls(item).contains(c) ==> exists|n: NodeModel| #[trigger]
            item_nodes(item).contains(n) && n.id == c.caller_id
}

/// Whether parsed files can be put beside what the tables hold: each is closed,
/// each path stands once, and no node has the id of a node of another file that
/// stays or comes.
pub open spec fn is_fit(s: StoreModel, items: Seq<ParsedItem>) -> bool {
    &&& forall|i: int| 0 <= i < items.len() ==> is_closed(#[trigger] items[i])
    &&& forall|i: int, j: int|
        0 <= i < j < items.len() ==> (#[trigger] items[i]).rel@ != (#[trigger] items[j]).rel@
    &&& forall|i: int, n: NodeModel, m: NodeModel|
        #![trigger item_nodes(items[i]).contains(n), s.nodes.contains(m)]
        0 <= i < items.len() && item_nodes(items[i]).contains(n) && s.nodes.contains(m) && n.id
            == m.id ==> update::item_paths(items).contains(m.file_path)
    &&& forall|i: int, j: int, n: NodeModel, m: NodeModel|
        #![trigger item_nodes(items[i]).contains(n), item_nodes(items[j]).contains(m)]
        0 <= i < items.len() && 0 <= j < items.len() && item_nodes(items[i]).contains(n)
            && item_nodes(items[j]).contains(m) && n.id == m.id ==> i == j
}

/// Whether a call row is one of parsed files.
pub open spec fn is_new_call(items: Seq<ParsedItem>, c: CallRowModel) -> bool {
    exists|i: int|
        0 <= i < items.len() && (#[trigger] items[i]).rel@ == c.file_path && item_calls(
            items[i],
        ).contains(c.call)
}

pub proof fn lemma_paths(items: Seq<ParsedItem>, f: Seq<char>)
    ensures
        update::item_paths(items).contains(f) == (exists|i: int|
            0 <= i < items.len() && (#[trigger] items[i]).rel@ == f),
{
    let paths = update::item_paths(items);
    if paths.contains(f) {
        let i = choose|i: int| 0 <= i < paths.len() && paths[i] == f;
        assert(items[i].rel@ == f);
    }
    if exists|i: int| 0 <= i < items.len() && (#[trigger] items[i]).rel@ == f {
        let i = choose|i: int| 0 <= i < items.len() && (#[trigger] items[i]).rel@ == f;
        assert(paths[i] == f);
    }
}

pub proof fn lemma_kept_both<M>(s: Seq<M>, a: spec_fn(M) -> bool, b: spec_fn(M) -> bool)
    requires
        forall|x: M| #[trigger] b(x) ==> a(x),
    ensures
        rows::kept(rows::kept(s, a), b) == rows::kept(s, b),
    decreases s.len(),
{
    if s.len() > 0 {
        let d = s.drop_last();
        lemma_kept_both(d, a, b);
        rows::lemma_kept_push(rows::kept(d, a), s.last(), b);
    }
}

pub proof fn lemma_kept_none<M>(s: Seq<M>, test: spec_fn(M) -> bool)
    requires
        forall|i: int| 0 <= i < s.len() ==> !test(#[trigger] s[i]),
    ensures
        rows::kept(s, test).len() == 0,
{
    rows::lemma_kept(s, test);
    let k = rows::kept(s, test);
    if k.len() > 0 {
        let i = choose|i: int| 0 <= i < s.len() && s[i] == k[0];
        assert(!test(s[i]));
    }
}

pub proof fn lemma_kept_sum<M>(a: Seq<M>, b: Seq<M>, test: spec_fn(M) -> bool)
    ensures
        rows::kept(a + b, test) == rows::kept(a, test) + rows::kept(b, test),
    decreases b.len(),
{
    if b.len() == 0 {
        assert(a + b =~= a);
        assert(rows::kept(a, test) + rows::kept(b, test) =~= rows::kept(a, test));
    } else {
        assert((a + b).drop_last() =~= a + b.drop_last());
        lemma_kept_sum(a, b.drop_last(), test);
        assert(rows::kept(a + b, test) =~= rows::kept(a, test) + rows::kept(b, test));
    }
}

/// What one parsed file does to the calls.
pub proof fn lemma_item_calls(s: StoreModel, item: ParsedItem, scopes: Seq<ScopeModel>)
    ensures
        ({
            let t = index::with_item(s, item, scopes);
            &&& forall|c: CallRowModel| #[trigger]
                t.calls.contains(c) ==> (s.calls.contains(c) && c.file_path != item.rel@) || (
                c.file_path == item.rel@ && item_calls(item).contains(c.call))
            &&& forall|f: Seq<char>|
                f != item.rel@ ==> #[trigger] rows::kept(t.calls, store_files::calls_in(f))
                    == rows::kept(s.calls, store_files::calls_in(f))
        }),
{
    let t = index::with_item(s, item, scopes);
    let out = store_files::calls_outside(item.rel@);
    let once = rows::kept(s.calls, out);
    let old = rows::kept(once, out);
    let new = item_calls(item).map_values(store_files::call_row(item.rel@));
    rows::lemma_kept(s.calls, out);
    rows::lemma_kept(once, out);
    assert(t.calls == old + new);
    assert forall|c: CallRowModel| #[trigger] t.calls.contains(c) implies (s.calls.contains(c)
        && c.file_path != item.rel@) || (c.file_path == item.rel@ && item_calls(item).contains(
        c.call,
    )) by {
        let i = choose|i: int| 0 <= i < t.calls.len() && t.calls[i] == c;
        if i < old.len() {
            assert(old[i] == c);
            assert(old.contains(c));
        } else {
            assert(new[i - old.len()] == c);
            assert(item_calls(item)[i - old.len()] == c.call);
        }
    }
    assert forall|f: Seq<char>| f != item.rel@ implies #[trigger] rows::kept(
        t.calls,
        store_files::calls_in(f),
    ) == rows::kept(s.calls, store_files::calls_in(f)) by {
        let mine = store_files::calls_in(f);
        lemma_kept_sum(old, new, mine);
        lemma_kept_none(new, mine);
        lemma_kept_both(once, out, mine);
        lemma_kept_both(s.calls, out, mine);
        assert(rows::kept(old, mine) + rows::kept(new, mine) =~= rows::kept(old, mine));
    }
}

/// What parsed files do to the tables before their nodes are put in.
pub proof fn lemma_with_items(s: StoreModel, items: Seq<ParsedItem>, scopes: Seq<ScopeModel>)
    requires
        rows::unique::<Node>(s.nodes),
    ensures
        ({
            let p = index::with_items(s, items, scopes);
            let paths = update::item_paths(items);
            &&& p.store.edges == s.edges
            &&& rows::unique::<Node>(p.store.nodes)
            &&& forall|n: NodeModel| #[trigger]
                p.store.nodes.contains(n) == (s.nodes.contains(n) && !paths.contains(n.file_path))
            &&& forall|c: CallRowModel| #[trigger]
                p.store.calls.contains(c) ==> (s.calls.contains(c) && !paths.contains(c.file_path))
                    || is_new_call(items, c)
            &&& forall|f: Seq<char>|
                !paths.contains(f) ==> #[trigger] rows::kept(
                    p.store.calls,
                    store_files::calls_in(f),
                ) == rows::kept(s.calls, store_files::calls_in(f))
            &&& forall|n: NodeModel| #[trigger]
                p.nodes.contains(n) == (exists|i: int|
                    0 <= i < items.len() && item_nodes(#[trigger] items[i]).contains(n))
        }),
    decreases items.len(),
{
    let p = index::with_items(s, items, scopes);
    let paths = update::item_paths(items);
    if items.len() > 0 {
        let d = items.drop_last();
        let item = items.last();
        let r = index::with_items(s, d, scopes);
        let before = update::item_paths(d);
        lemma_with_items(s, d, scopes);
        lemma_item_calls(r.store, item, scopes);
        assert(paths.drop_last() =~= before);
        assert(paths.last() == item.rel@);
        assert(items[items.len() - 1] == item);
        let out = store::node_outside(item.rel@);
        rows::lemma_kept(r.store.nodes, out);
        rows::lemma_unique_kept::<Node>(r.store.nodes, out);
        assert forall|n: NodeModel| #[trigger] p.store.nodes.contains(n) == (s.nodes.contains(n)
            && !paths.contains(n.file_path)) by {
            lemma_listed(paths, n.file_path);
            assert(r.store.nodes.contains(n) == (s.nodes.contains(n) && !before.contains(
                n.file_path,
            )));
        }
        assert forall|c: CallRowModel| #[trigger] p.store.calls.contains(c) implies (
        s.calls.contains(c) && !paths.contains(c.file_path)) || is_new_call(items, c) by {
            lemma_listed(paths, c.file_path);
            if c.file_path == item.rel@ && item_calls(item).contains(c.call) {
                assert(items[items.len() - 1].rel@ == c.file_path);
            } else {
                assert(r.store.calls.contains(c));
                if is_new_call(d, c) {
                    let i = choose|i: int|
                        0 <= i < d.len() && (#[trigger] d[i]).rel@ == c.file_path && item_calls(
                            d[i],
                        ).contains(c.call);
                    assert(items[i] == d[i]);
                }
            }
        }
        assert forall|f: Seq<char>| !paths.contains(f) implies #[trigger] rows::kept(
            p.store.calls,
            store_files::calls_in(f),
        ) == rows::kept(s.calls, store_files::calls_in(f)) by {
            lemma_listed(paths, f);
            assert(rows::kept(r.store.calls, store_files::calls_in(f)) == rows::kept(
                s.calls,
                store_files::calls_in(f),
            ));
        }
        assert forall|n: NodeModel| #[trigger] p.nodes.contains(n) == (exists|i: int|
            0 <= i < items.len() && item_nodes(#[trigger] items[i]).contains(n)) by {
            let new = item_nodes(item);
            assert(p.nodes == r.nodes + new);
            if p.nodes.contains(n) {
                let k = choose|k: int| 0 <= k < p.nodes.len() && p.nodes[k] == n;
                if k < r.nodes.len() {
                    assert(r.nodes[k] == n);
                    assert(r.nodes.contains(n));
                    let i = choose|i: int|
                        0 <= i < d.len() && item_nodes(#[trigger] d[i]).contains(n);
                    assert(items[i] == d[i]);
                } else {
                    assert(new[k - r.nodes.len()] == n);
                    assert(item_nodes(items[items.len() - 1]).contains(n));
                }
            }
            if exists|i: int| 0 <= i < items.len() && item_nodes(#[trigger] items[i]).contains(n) {
                let i = choose|i: int|
                    0 <= i < items.len() && item_nodes(#[trigger] items[i]).contains(n);
                if i < d.len() {
                    assert(d[i] == items[i]);
                    assert(r.nodes.contains(n));
                    let k = choose|k: int| 0 <= k < r.nodes.len() && r.nodes[k] == n;
                    assert(p.nodes[k] == n);
                } else {
                    let k = choose|k: int| 0 <= k < new.len() && new[k] == n;
                    assert(p.nodes[r.nodes.len() + k] == n);
                }
            }
        }
    }
}

/// Whether a file is among those that were noted and is not seen any more.
pub open spec fn is_gone(files: Seq<Seq<char>>, seen: Set<Seq<char>>, f: Seq<char>) -> bool {
    files.contains(f) && !seen.contains(f)
}

/// What files that are gone do to the tables.
pub proof fn lemma_pruned(c: ChangeModel, files: Seq<Seq<char>>, seen: Set<Seq<char>>)
    requires
        rows::unique::<Node>(c.store.nodes),
    ensures
        ({
            let (r, n) = index::pruned(c, files, seen);
            &&& n == 0 ==> r == c
            &&& rows::unique::<Node>(r.store.nodes)
            &&& rows::unique::<Edge>(c.store.edges) ==> rows::unique::<Edge>(r.store.edges)
            &&& forall|x: NodeModel| #[trigger]
                r.store.nodes.contains(x) == (c.store.nodes.contains(x) && !is_gone(
                    files,
                    seen,
                    x.file_path,
                ))
            &&& forall|e: EdgeModel| #[trigger]
                r.store.edges.contains(e) == (c.store.edges.contains(e) && !is_gone(
                    files,
                    seen,
                    e.src_file,
                ))
            &&& forall|x: CallRowModel| #[trigger]
                r.store.calls.contains(x) == (c.store.calls.contains(x) && !is_gone(
                    files,
                    seen,
                    x.file_path,
                ))
            &&& forall|f: Seq<char>|
                !is_gone(files, seen, f) ==> #[trigger] rows::kept(
                    r.store.calls,
                    store_files::calls_in(f),
                ) == rows::kept(c.store.calls, store_files::calls_in(f))
        }),
    decreases files.len(),
{
    if files.len() > 0 {
        let d = files.drop_last();
        let g = files.last();
        let (rest, k) = index::pruned(c, d, seen);
        let (r, n) = index::pruned(c, files, seen);
        lemma_pruned(c, d, seen);
        assert forall|f: Seq<char>| #[trigger] is_gone(files, seen, f) == (is_gone(d, seen, f) || (f
            == g && !seen.contains(g))) by {
            lemma_listed(files, f);
        }
        if !seen.contains(g) {
            rows::lemma_kept(rest.store.nodes, store::node_outside(g));
            rows::lemma_unique_kept::<Node>(rest.store.nodes, store::node_outside(g));
            rows::lemma_kept(rest.store.edges, store_edges::edge_outside(g));
            if rows::unique::<Edge>(c.store.edges) {
                rows::lemma_unique_kept::<Edge>(rest.store.edges, store_edges::edge_outside(g));
            }
            rows::lemma_kept(rest.store.calls, store_files::calls_outside(g));
            assert forall|f: Seq<char>| !is_gone(files, seen, f) implies #[trigger] rows::kept(
                r.store.calls,
                store_files::calls_in(f),
            ) == rows::kept(c.store.calls, store_files::calls_in(f)) by {
                lemma_kept_both(
                    rest.store.calls,
                    store_files::calls_outside(g),
                    store_files::calls_in(f),
                );
                assert(!is_gone(d, seen, f));
            }
        }
    }
}

/// What changed and vanished files do to the tables.
pub proof fn lemma_changes(
    s: StoreModel,
    items: Seq<ParsedItem>,
    scopes: Seq<ScopeModel>,
    seen: Set<Seq<char>>,
)
    requires
        is_tidy(s),
        is_fit(s, items),
    ensures
        ({
            let files = rebuild::manifest_paths(index::persisted(s, items, scopes).store);
            let t = update::changes_of(s, items, scopes, seen).0.store;
            let paths = update::item_paths(items);
            &&& is_tidy(t)
            &&& rows::unique::<Edge>(s.edges) ==> rows::unique::<Edge>(t.edges)
            &&& forall|f: Seq<char>|
                !paths.contains(f) && !is_gone(files, seen, f) ==> #[trigger] same_in_file(s, t, f)
            &&& forall|e: EdgeModel| #[trigger]
                t.edges.contains(e) == (s.edges.contains(e) && !is_gone(files, seen, e.src_file))
            &&& forall|n: NodeModel| #[trigger]
                t.nodes.contains(n) ==> !is_gone(files, seen, n.file_path) && (s.nodes.contains(n)
                    || exists|i: int|
                    0 <= i < items.len() && item_nodes(#[trigger] items[i]).contains(n))
        }),
{
    let p = index::with_items(s, items, scopes);
    let c = index::persisted(s, items, scopes);
    let files = rebuild::manifest_paths(c.store);
    let t = update::changes_of(s, items, scopes, seen).0.store;
    let paths = update::item_paths(items);
    lemma_with_items(s, items, scopes);
    lemma_upserted_nodes(p.store.nodes, p.nodes);
    rows::lemma_unique_all_upserted::<Node>(p.store.nodes, p.nodes);
    lemma_pruned(c, files, seen);
    assert forall|n: NodeModel| #[trigger] p.nodes.contains(n) implies paths.contains(
        n.file_path,
    ) by {
        let i = choose|i: int| 0 <= i < items.len() && item_nodes(#[trigger] items[i]).contains(n);
        assert(is_closed(items[i]));
        lemma_paths(items, n.file_path);
    }
    assert forall|n: NodeModel| !paths.contains(n.file_path) implies (
    #[trigger] c.store.nodes.contains(n) == s.nodes.contains(n)) by {
        if s.nodes.contains(n) {
            assert(p.store.nodes.contains(n));
            assert forall|m: NodeModel| #[trigger] p.nodes.contains(m) implies m.id != n.id by {
                let i = choose|i: int|
                    0 <= i < items.len() && item_nodes(#[trigger] items[i]).contains(m);
                assert(item_nodes(items[i]).contains(m) && s.nodes.contains(n));
            }
        }
        if c.store.nodes.contains(n) {
            assert(p.store.nodes.contains(n) || p.nodes.contains(n));
        }
    }
    assert(calls_at_home(t)) by {
        assert forall|r: CallRowModel| #[trigger]
            t.calls.contains(r) implies exists|n: NodeModel| #[trigger]
            t.nodes.contains(n) && n.id == r.call.caller_id && n.file_path == r.file_path by {
            assert(p.store.calls.contains(r));
            if is_new_call(items, r) {
                let i = choose|i: int|
                    0 <= i < items.len() && (#[trigger] items[i]).rel@ == r.file_path && item_calls(
                        items[i],
                    ).contains(r.call);
                assert(is_closed(items[i]));
                let n = choose|n: NodeModel| #[trigger]
                    item_nodes(items[i]).contains(n) && n.id == r.call.caller_id;
                assert(p.nodes.contains(n));
                let x = choose|x: NodeModel| #[trigger]
                    c.store.nodes.contains(x) && x.id == n.id;
                if p.store.nodes.contains(x) {
                    assert(item_nodes(items[i]).contains(n) && s.nodes.contains(x));
                    assert(false);
                }
                assert(p.nodes.contains(x));
                let j = choose|j: int|
                    0 <= j < items.len() && item_nodes(#[trigger] items[j]).contains(x);
                assert(item_nodes(items[i]).contains(n) && item_nodes(items[j]).contains(x));
                assert(i == j);
                assert(x.file_path == r.file_path);
                assert(t.nodes.contains(x));
            } else {
                assert(s.calls.contains(r));
                let n = choose|n: NodeModel| #[trigger]
                    s.nodes.contains(n) && n.id == r.call.caller_id && n.file_path == r.file_path;
                assert(c.store.nodes.contains(n));
                assert(t.nodes.contains(n));
            }
        }
    }
    assert(one_file_node(t.nodes)) by {
        assert forall|a: NodeModel, b: NodeModel| #[trigger]
            t.nodes.contains(a) && #[trigger] t.nodes.contains(b) && a.label == NodeLabel::File
                && b.label == NodeLabel::File && a.file_path == b.file_path implies a == b by {
            assert(c.store.nodes.contains(a) && c.store.nodes.contains(b));
            if paths.contains(a.file_path) {
                assert(!p.store.nodes.contains(a) && !p.store.nodes.contains(b));
                assert(p.nodes.contains(a) && p.nodes.contains(b));
                let i = choose|i: int|
                    0 <= i < items.len() && item_nodes(#[trigger] items[i]).contains(a);
                let j = choose|j: int|
                    0 <= j < items.len() && item_nodes(#[trigger] items[j]).contains(b);
                assert(is_closed(items[i]) && is_closed(items[j]));
                assert(items[i].rel@ == items[j].rel@);
                assert(i == j);
            } else {
                assert(s.nodes.contains(a) && s.nodes.contains(b));
            }
        }
    }
    assert forall|f: Seq<char>| !paths.contains(f) && !is_gone(files, seen, f) implies #[trigger] same_in_file(
        s,
        t,
        f,
    ) by {
        assert forall|n: NodeModel| n.file_path == f implies (#[trigger] s.nodes.contains(n)
            == t.nodes.contains(n)) by {
            assert(c.store.nodes.contains(n) == s.nodes.contains(n));
        }
        assert(rows::kept(t.calls, store_files::calls_in(f)) == rows::kept(
            c.store.calls,
            store_files::calls_in(f),
        ));
        assert(rows::kept(p.store.calls, store_files::calls_in(f)) == rows::kept(
            s.calls,
            store_files::calls_in(f),
        ));
    }
    assert forall|n: NodeModel| #[trigger] t.nodes.contains(n) implies !is_gone(
        files,
        seen,
        n.file_path,
    ) && (s.nodes.contains(n) || exists|i: int|
        0 <= i < items.len() && item_nodes(#[trigger] items[i]).contains(n)) by {
        assert(c.store.nodes.contains(n));
        if !s.nodes.contains(n) {
            assert(p.nodes.contains(n));
        }
    }
}

proof fn lemma_without_wave_unique(edges: Seq<EdgeModel>, wave: Seq<Seq<char>>)
    requires
        rows::unique::<Edge>(edges),
    ensures
        rows::unique::<Edge>(rebuild::without_wave(edges, wave)),
    decreases wave.len(),
{
    if wave.len() > 0 {
        lemma_without_wave_unique(edges, wave.drop_last());
        rows::lemma_unique_kept::<Edge>(
            rebuild::without_wave(edges, wave.drop_last()),
            store_edges::not_syntactic(wave.last()),
        );
    }
}

/// Whether a file has a call site that names one of the names.
pub open spec fn calls_any(s: StoreModel, names: Seq<Seq<char>>, f: Seq<char>) -> bool {
    exists|c: CallRowModel| #[trigger]
        s.calls.contains(c) && c.file_path == f && names.contains(c.call.callee_name)
}

proof fn lemma_calling_files(s: StoreModel, names: Seq<Seq<char>>, f: Seq<char>)
    ensures
        rebuild::all_calling_files(s, names).contains(f) == calls_any(s, names, f),
    decreases names.len(),
{
    let all = rebuild::all_calling_files(s, names);
    if names.len() > 0 {
        let d = names.drop_last();
        let name = names.last();
        let rest = rebuild::all_calling_files(s, d);
        let found = rows::kept(s.calls, store_queries::calls_naming(name));
        let paths = found.map_values(store_lists::call_file());
        let more = rebuild::calling_files(s, name);
        lemma_calling_files(s, d, f);
        rows::lemma_kept(s.calls, store_queries::calls_naming(name));
        rows::lemma_distinct(paths);
        assert(all == rest + more);
        if all.contains(f) {
            let k = choose|k: int| 0 <= k < all.len() && all[k] == f;
            if k < rest.len() {
                assert(rest[k] == f);
                assert(rest.contains(f));
                let c = choose|c: CallRowModel| #[trigger]
                    s.calls.contains(c) && c.file_path == f && d.contains(c.call.callee_name);
                lemma_listed(names, c.call.callee_name);
            } else {
                assert(more[k - rest.len()] == f);
                assert(more.contains(f));
                assert(paths.contains(f));
                let i = choose|i: int| 0 <= i < paths.len() && paths[i] == f;
                let c = found[i];
                assert(s.calls.contains(c) && c.file_path == f);
                lemma_listed(names, name);
            }
        }
        if calls_any(s, names, f) {
            let c = choose|c: CallRowModel| #[trigger]
                s.calls.contains(c) && c.file_path == f && names.contains(c.call.callee_name);
            lemma_listed(names, c.call.callee_name);
            if d.contains(c.call.callee_name) {
                assert(rest.contains(f));
                let k = choose|k: int| 0 <= k < rest.len() && rest[k] == f;
                assert(all[k] == f);
            } else {
                assert(found.contains(c));
                let i = choose|i: int| 0 <= i < found.len() && found[i] == c;
                assert(paths[i] == f);
                assert(paths.contains(f));
                assert(more.contains(f));
                let k = choose|k: int| 0 <= k < more.len() && more[k] == f;
                assert(all[rest.len() + k] == f);
            }
        }
    } else {
        assert(all.len() == 0);
    }
}

/// A wave has each file that changed and each file with a call site that names a
/// definition that changed, no other, and none of them twice.
pub proof fn law_wave_reaches_the_callers(
    s: StoreModel,
    changed: Seq<Seq<char>>,
    dirty: Seq<Seq<char>>,
    f: Seq<char>,
)
    ensures
        rebuild::wave_of(s, changed, dirty).contains(f) == (changed.contains(f) || calls_any(
            s,
            dirty,
            f,
        )),
        rebuild::wave_of(s, changed, dirty).no_duplicates(),
{
    broadcast use vstd::seq_lib::group_to_multiset_ensures;

    let callers = rebuild::all_calling_files(s, dirty);
    let all = changed + callers;
    let once = rows::distinct(all);
    let wave = rebuild::wave_of(s, changed, dirty);
    rows::lemma_distinct(all);
    order::law_arranged(once, order::text_order());
    once.lemma_multiset_has_no_duplicates();
    wave.lemma_multiset_has_no_duplicates_conv();
    lemma_calling_files(s, dirty, f);
    assert(wave.contains(f) == once.contains(f)) by {
        assert(wave.contains(f) == (wave.to_multiset().count(f) > 0));
        assert(once.contains(f) == (once.to_multiset().count(f) > 0));
    }
    assert(all.contains(f) == (changed.contains(f) || callers.contains(f))) by {
        if all.contains(f) {
            let i = choose|i: int| 0 <= i < all.len() && all[i] == f;
            if i < changed.len() {
                assert(changed[i] == f);
            } else {
                assert(callers[i - changed.len()] == f);
            }
        }
        if changed.contains(f) {
            let i = choose|i: int| 0 <= i < changed.len() && changed[i] == f;
            assert(all[i] == f);
        }
        if callers.contains(f) {
            let i = choose|i: int| 0 <= i < callers.len() && callers[i] == f;
            assert(all[changed.len() + i] == f);
        }
    }
}

/// Whether the edges of the store are those that resolving the whole repository
/// gives.
pub open spec fn is_current(s: StoreModel) -> bool {
    same_rows(s.edges, rebuild::full_rebuilt(s, Seq::empty(), Seq::empty()).edges)
}

/// Whether a run without indexes of compilers leads from one state of the store
/// to another. Before it the tables are as parsing leaves them, with the edges of
/// a run over everything, and what was parsed can be put beside them.
pub open spec fn is_run(
    s: StoreModel,
    items: Seq<ParsedItem>,
    scopes: Seq<ScopeModel>,
    seen: Set<Seq<char>>,
    flags: Flags,
    ambiguous: Option<bool>,
    after: StoreModel,
) -> bool {
    let (c, gone) = update::changes_of(s, items, scopes, seen);
    &&& s.wf() && is_tidy(s) && is_plain(s) && is_current(s)
    &&& is_fit(s, items)
    &&& update::is_updated(
        c,
        update::reach_of(c, items.len(), gone, flags),
        update::item_paths(items),
        ambiguous,
        Seq::empty(),
        Seq::empty(),
        after,
    )
}

/// Indexing what changed gives what indexing everything gives: after a run,
/// whatever was changed, added or removed and however far it reached, the nodes
/// are those of a run over everything, and the edges are, in all of their
/// fields. So the next run finds the store as this one did.
pub proof fn law_incremental_equals_full(
    s: StoreModel,
    items: Seq<ParsedItem>,
    scopes: Seq<ScopeModel>,
    seen: Set<Seq<char>>,
    flags: Flags,
    ambiguous: Option<bool>,
    after: StoreModel,
)
    requires
        is_run(s, items, scopes, seen, flags, ambiguous, after),
    ensures
        ({
            let t = update::changes_of(s, items, scopes, seen).0.store;
            let full = rebuild::full_rebuilt(t, Seq::empty(), Seq::empty());
            &&& after.nodes == full.nodes
            &&& same_rows(after.edges, full.edges)
            &&& rows::unique::<Edge>(after.edges) && rows::unique::<Edge>(full.edges)
            &&& after.calls == t.calls && after.manifest == t.manifest
        }),
        is_tidy(after),
        is_plain(after),
        is_current(after),
{
    let (c, gone) = update::changes_of(s, items, scopes, seen);
    let t = c.store;
    let u = update::sticky_setting(t, ambiguous);
    let paths = update::item_paths(items);
    let files = rebuild::manifest_paths(index::persisted(s, items, scopes).store);
    let reach = update::reach_of(c, items.len(), gone, flags);
    lemma_changes(s, items, scopes, seen);
    law_full_rebuild_is_syntax(s);
    assert(same_rows(s.edges, syntax_edges(s)));
    assert forall|e: EdgeModel| #[trigger] s.edges.contains(e) implies syntax_edges(s).contains(
        e,
    ) by {}
    assert(is_plain(t)) by {
        assert forall|e: EdgeModel| #[trigger] t.edges.contains(e) implies !store::justified_by(
            "Scip"@,
        )(e) && !store::justified_by("IndexStore"@)(e) by {
            assert(s.edges.contains(e));
        }
    }
    law_full_rebuild_is_syntax(t);
    graph_laws::law_edges_are_distinct(rebuild::resolver_nodes(t), all_calls(t));
    assert(rows::unique::<Edge>(syntax_edges(t)));
    assert(is_tidy(u) && is_plain(u) && syntax_edges(u) == syntax_edges(t) && u.edges == t.edges);
    match reach {
        Reach::Nothing => {
            lemma_pruned(index::persisted(s, items, scopes), files, seen);
            assert(t.nodes == s.nodes && t.edges == s.edges && t.calls == s.calls);
            rows::lemma_kept(t.edges, store_edges::grounded(t.nodes));
            rows::lemma_unique_kept::<Edge>(t.edges, store_edges::grounded(t.nodes));
            assert forall|e: EdgeModel| #[trigger] after.edges.contains(e) == syntax_edges(
                t,
            ).contains(e) by {
                if syntax_edges(t).contains(e) {
                    lemma_syntax_edge(t, e);
                }
            }
        },
        Reach::Wave => {
            let dirty = choose|dirty: Seq<Seq<char>>| #[trigger]
                dirty.to_set() == c.dirty && after == rebuild::wave_rebuilt(
                    u,
                    rebuild::wave_of(u, paths, dirty),
                );
            let wave = rebuild::wave_of(u, paths, dirty);
            assert forall|e: EdgeModel| #[trigger] u.edges.contains(e) implies e.tier
                == ResolutionTier::TreeSitter by {
                assert(s.edges.contains(e));
                lemma_syntax_edge(s, e);
            }
            assert forall|e: EdgeModel|
                !wave.contains(e.src_file) implies #[trigger] u.edges.contains(e) == syntax_edges(
                u,
            ).contains(e) by {
                if paths.contains(e.src_file) {
                    law_wave_reaches_the_callers(u, paths, dirty, e.src_file);
                }
                if is_gone(files, seen, e.src_file) {
                    if syntax_edges(t).contains(e) {
                        lemma_syntax_edge(t, e);
                        let n = choose|n: NodeModel| #[trigger]
                            t.nodes.contains(n) && n.file_path == e.src_file;
                        assert(t.nodes.contains(n));
                    }
                } else {
                    assert(same_in_file(s, t, e.src_file));
                    law_edges_are_local(s, t, e);
                    assert(s.edges.contains(e) == syntax_edges(s).contains(e));
                }
            }
            law_wave_is_enough(u, wave);
            lemma_without_wave_unique(u.edges, wave);
            let left = rebuild::without_wave(u.edges, wave);
            let new = rebuild::wave_edges(u, wave);
            rows::lemma_unique_all_added::<Edge>(left, new);
            rows::lemma_unique_kept::<Edge>(
                rows::all_added::<Edge>(left, new),
                store_edges::grounded(u.nodes),
            );
        },
        Reach::Everything => {
            law_full_rebuild_is_syntax(u);
        },
    }
    assert(same_rows(after.edges, syntax_edges(t)));
    assert(after.nodes == t.nodes && after.calls == t.calls);
    assert(is_tidy(after));
    assert forall|e: EdgeModel| #[trigger] after.edges.contains(e) implies !store::justified_by(
        "Scip"@,
    )(e) && !store::justified_by("IndexStore"@)(e) by {
        assert(syntax_edges(t).contains(e));
        lemma_syntax_edge(t, e);
    }
    law_full_rebuild_is_syntax(after);
}

pub proof fn lemma_same_multiset<M>(a: Seq<M>, b: Seq<M>)
    requires
        same_rows(a, b),
        a.no_duplicates(),
        b.no_duplicates(),
    ensures
        a.to_multiset() == b.to_multiset(),
{
    broadcast use vstd::seq_lib::group_to_multiset_ensures;

    a.lemma_multiset_has_no_duplicates();
    b.lemma_multiset_has_no_duplicates();
    assert forall|x: M| #[trigger] a.to_multiset().count(x) == b.to_multiset().count(x) by {
        assert(a.contains(x) == b.contains(x));
        if a.contains(x) {
            assert(a.to_multiset().count(x) > 0);
            assert(b.to_multiset().count(x) > 0);
        }
    }
    assert(a.to_multiset() =~= b.to_multiset());
}

/// The stored forms of nodes.
pub open spec fn node_forms(nodes: Seq<NodeModel>, form: spec_fn(NodeModel) -> Seq<char>) -> Seq<
    NodeTextModel,
> {
    nodes.map_values(|n: NodeModel| (n.id, form(n)))
}

/// The stored forms of edges.
pub open spec fn edge_forms(edges: Seq<EdgeModel>, form: spec_fn(EdgeModel) -> Seq<char>) -> Seq<
    EdgeTextModel,
> {
    edges.map_values(|e: EdgeModel| (e.key(), form(e)))
}

pub proof fn lemma_edge_forms(
    a: Seq<EdgeModel>,
    b: Seq<EdgeModel>,
    form: spec_fn(EdgeModel) -> Seq<char>,
)
    requires
        same_rows(a, b),
        rows::unique::<Edge>(a),
        rows::unique::<Edge>(b),
    ensures
        edge_forms(a, form).to_multiset() == edge_forms(b, form).to_multiset(),
        digest::keys_unique(edge_forms(a, form)),
{
    let x = edge_forms(a, form);
    let y = edge_forms(b, form);
    assert forall|i: int, j: int| 0 <= i < j < x.len() implies (#[trigger] x[i]).0 != (
    #[trigger] x[j]).0 by {
        assert(a[i].key() != a[j].key());
    }
    assert forall|i: int, j: int| 0 <= i < j < y.len() implies (#[trigger] y[i]).0 != (
    #[trigger] y[j]).0 by {
        assert(b[i].key() != b[j].key());
    }
    assert forall|f: EdgeTextModel| #[trigger] x.contains(f) == y.contains(f) by {
        if x.contains(f) {
            let i = choose|i: int| 0 <= i < x.len() && x[i] == f;
            assert(a.contains(a[i]));
            assert(b.contains(a[i]));
            let j = choose|j: int| 0 <= j < b.len() && b[j] == a[i];
            assert(y[j] == f);
        }
        if y.contains(f) {
            let i = choose|i: int| 0 <= i < y.len() && y[i] == f;
            assert(b.contains(b[i]));
            assert(a.contains(b[i]));
            let j = choose|j: int| 0 <= j < a.len() && a[j] == b[i];
            assert(x[j] == f);
        }
    }
    lemma_same_multiset(x, y);
}

/// After a run the graph has the hash of one that was indexed as a whole,
/// whatever the stored forms of its nodes and edges are.
pub proof fn law_incremental_hashes_as_full(
    s: StoreModel,
    items: Seq<ParsedItem>,
    scopes: Seq<ScopeModel>,
    seen: Set<Seq<char>>,
    flags: Flags,
    ambiguous: Option<bool>,
    after: StoreModel,
    node_form: spec_fn(NodeModel) -> Seq<char>,
    edge_form: spec_fn(EdgeModel) -> Seq<char>,
)
    requires
        is_run(s, items, scopes, seen, flags, ambiguous, after),
    ensures
        ({
            let t = update::changes_of(s, items, scopes, seen).0.store;
            let full = rebuild::full_rebuilt(t, Seq::empty(), Seq::empty());
            digest::graph_hash(
                node_forms(after.nodes, node_form),
                edge_forms(after.edges, edge_form),
            ) == digest::graph_hash(
                node_forms(full.nodes, node_form),
                edge_forms(full.edges, edge_form),
            )
        }),
{
    law_incremental_equals_full(s, items, scopes, seen, flags, ambiguous, after);
    let t = update::changes_of(s, items, scopes, seen).0.store;
    let full = rebuild::full_rebuilt(t, Seq::empty(), Seq::empty());
    lemma_edge_forms(after.edges, full.edges, edge_form);
    let n = node_forms(after.nodes, node_form);
    assert forall|i: int, j: int| 0 <= i < j < n.len() implies (#[trigger] n[i]).0 != (
    #[trigger] n[j]).0 by {
        assert(after.nodes[i].id != after.nodes[j].id);
    }
    digest::law_hash_ignores_row_order(
        n,
        edge_forms(after.edges, edge_form),
        node_forms(full.nodes, node_form),
        edge_forms(full.edges, edge_form),
    );
}

/// After a run the graph has no fault, where the ids of the nodes that were
/// there and of those that came are normalised.
pub proof fn law_incremental_leaves_no_fault(
    s: StoreModel,
    items: Seq<ParsedItem>,
    scopes: Seq<ScopeModel>,
    seen: Set<Seq<char>>,
    flags: Flags,
    ambiguous: Option<bool>,
    after: StoreModel,
)
    requires
        is_run(s, items, scopes, seen, flags, ambiguous, after),
        forall|n: NodeModel| #[trigger] s.nodes.contains(n) ==> !store_edges::odd_id()(n),
        forall|i: int, n: NodeModel|
            0 <= i < items.len() && #[trigger] item_nodes(items[i]).contains(n)
                ==> !store_edges::odd_id()(n),
    ensures
        store_edges::faults(after).len() == 0,
{
    law_incremental_equals_full(s, items, scopes, seen, flags, ambiguous, after);
    lemma_changes(s, items, scopes, seen);
    let t = update::changes_of(s, items, scopes, seen).0.store;
    law_full_rebuild_is_syntax(after);
    let loose = rows::kept(after.edges, store_edges::dangling(after.nodes));
    rows::lemma_kept(after.edges, store_edges::dangling(after.nodes));
    if loose.len() > 0 {
        assert(after.edges.contains(loose[0]));
        assert(syntax_edges(after).contains(loose[0]));
        lemma_syntax_edge(after, loose[0]);
    }
    let bare = rows::kept(after.edges, store_edges::unjustified());
    rows::lemma_kept(after.edges, store_edges::unjustified());
    if bare.len() > 0 {
        assert(after.edges.contains(bare[0]));
        assert(syntax_edges(after).contains(bare[0]));
        lemma_syntax_edge(after, bare[0]);
    }
    let odd = rows::kept(after.nodes, store_edges::odd_id());
    rows::lemma_kept(after.nodes, store_edges::odd_id());
    if odd.len() > 0 {
        assert(t.nodes.contains(odd[0]));
        if !s.nodes.contains(odd[0]) {
            let i = choose|i: int|
                0 <= i < items.len() && item_nodes(#[trigger] items[i]).contains(odd[0]);
            assert(item_nodes(items[i]).contains(odd[0]));
        }
    }
}

proof fn lemma_all_upserted_from(s: Seq<EdgeModel>, ms: Seq<EdgeModel>, e: EdgeModel)
    requires
        rows::all_upserted::<Edge>(s, ms).contains(e),
    ensures
        s.contains(e) || ms.contains(e),
    decreases ms.len(),
{
    if ms.len() > 0 {
        let rest = rows::all_upserted::<Edge>(s, ms.drop_last());
        let all = rows::all_upserted::<Edge>(s, ms);
        let own = rows::has_key::<Edge>(ms.last().key());
        rows::lemma_first_at(rest, own);
        let i = choose|i: int| 0 <= i < all.len() && all[i] == e;
        if e == ms.last() {
            assert(ms[ms.len() - 1] == e);
        } else {
            assert(rest[i] == e);
            lemma_all_upserted_from(s, ms.drop_last(), e);
            if ms.drop_last().contains(e) {
                let k = choose|k: int| 0 <= k < ms.drop_last().len() && ms.drop_last()[k] == e;
                assert(ms[k] == e);
            }
        }
    }
}

/// Whichever way a run brings the edges up to date, none of them ends at a node
/// that is not there.
pub proof fn law_update_leaves_no_dangling_edge(
    c: ChangeModel,
    reach: Reach,
    changed: Seq<Seq<char>>,
    ambiguous: Option<bool>,
    scip: Seq<EdgeModel>,
    indexstore: Seq<EdgeModel>,
    after: StoreModel,
)
    requires
        c.store.wf(),
        update::is_updated(c, reach, changed, ambiguous, scip, indexstore, after),
    ensures
        rows::kept(after.edges, store_edges::dangling(after.nodes)).len() == 0,
{
    let s = update::sticky_setting(c.store, ambiguous);
    match reach {
        Reach::Nothing => {
            store_edges::law_no_edge_dangles(c.store);
        },
        Reach::Wave => {
            let dirty = choose|dirty: Seq<Seq<char>>| #[trigger]
                dirty.to_set() == c.dirty && after == rebuild::wave_rebuilt(
                    s,
                    rebuild::wave_of(s, changed, dirty),
                );
            let wave = rebuild::wave_of(s, changed, dirty);
            store_edges::law_no_edge_dangles(
                StoreModel {
                    edges: rows::all_added::<Edge>(
                        rebuild::without_wave(s.edges, wave),
                        rebuild::wave_edges(s, wave),
                    ),
                    ..s
                },
            );
        },
        Reach::Everything => {
            let nodes = rebuild::resolver_nodes(s);
            let edges = rebuild::full_edges(s, scip, indexstore);
            assert(s.nodes == c.store.nodes);
            assert(s.wf()) by {
                rows::lemma_unique_replaced::<MetaRow>(
                    c.store.meta,
                    MetaRowModel {
                        name: "include_ambiguous"@,
                        value: if ambiguous == Some(true) {
                            "1"@
                        } else {
                            "0"@
                        },
                    },
                );
            }
            lemma_resolver_nodes(s);
            let bad = rows::kept(after.edges, store_edges::dangling(after.nodes));
            rows::lemma_kept(after.edges, store_edges::dangling(after.nodes));
            if bad.len() > 0 {
                assert(after.edges.contains(bad[0]));
                lemma_all_upserted_from(Seq::empty(), edges, bad[0]);
                let i = choose|i: int| 0 <= i < edges.len() && edges[i] == bad[0];
                rows::lemma_kept(
                    rebuild::known_edges(s, scip, indexstore),
                    store_edges::grounded(nodes),
                );
                assert(store_edges::grounded(nodes)(edges[i]));
            }
        },
    }
}

} // verus!
