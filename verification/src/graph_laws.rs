//! What holds of every graph that [`crate::graph`] builds and of every
//! traversal over it.

use vstd::prelude::*;

use crate::graph;
use crate::graph::GraphModel;
use crate::store_edges;
use crate::types;
use crate::types::{
    CallModel, Confidence, EdgeModel, EdgeRelation, MetaModel, NodeLabel, NodeModel, ResolutionTier,
};

verus! {

/// Whether a node with the id is among the nodes.
pub open spec fn has_node(nodes: Seq<NodeModel>, id: Seq<char>) -> bool {
    exists|i: int| 0 <= i < nodes.len() && (#[trigger] nodes[i]).id == id
}

/// Whether `e` is the edge of one of the calls.
pub open spec fn from_call(nodes: Seq<NodeModel>, calls: Seq<CallModel>, e: EdgeModel) -> bool {
    exists|k: int| 0 <= k < calls.len() && graph::call_edge(nodes, #[trigger] calls[k]) == Some(e)
}

/// Whether `e` is the edge by which a file defines one of the nodes.
pub open spec fn from_file(nodes: Seq<NodeModel>, e: EdgeModel) -> bool {
    exists|k: int|
        0 <= k < nodes.len() && (#[trigger] nodes[k]).label != NodeLabel::File && match graph::file_id(
            nodes,
            nodes[k].file_path,
        ) {
            Some(f) => e == graph::defines_edge(f, nodes[k]),
            None => false,
        }
}

proof fn lemma_define_origin(nodes: Seq<NodeModel>, k: nat)
    requires
        k <= nodes.len(),
    ensures
        forall|i: int|
            0 <= i < graph::define_edges(nodes, k).len() ==> from_file(
                nodes,
                #[trigger] graph::define_edges(nodes, k)[i],
            ),
    decreases k,
{
    if k > 0 {
        let done = graph::define_edges(nodes, (k - 1) as nat);
        let now = graph::define_edges(nodes, k);
        lemma_define_origin(nodes, (k - 1) as nat);
        assert forall|i: int| 0 <= i < now.len() implies from_file(nodes, #[trigger] now[i]) by {
            if i < done.len() {
                assert(now[i] == done[i]);
            } else {
                let n = nodes[k - 1];
                assert(now[i] == graph::defines_edge(graph::file_id(nodes, n.file_path)->0, n));
            }
        }
    }
}

proof fn lemma_call_origin(
    nodes: Seq<NodeModel>,
    calls: Seq<CallModel>,
    edges: Seq<EdgeModel>,
    k: nat,
)
    requires
        k <= calls.len(),
    ensures
        edges.len() <= graph::call_edges(nodes, calls, edges, k).len(),
        forall|i: int|
            0 <= i < edges.len() ==> #[trigger] graph::call_edges(nodes, calls, edges, k)[i]
                == edges[i],
        forall|i: int|
            edges.len() <= i < graph::call_edges(nodes, calls, edges, k).len() ==> from_call(
                nodes,
                calls,
                #[trigger] graph::call_edges(nodes, calls, edges, k)[i],
            ),
    decreases k,
{
    if k > 0 {
        let done = graph::call_edges(nodes, calls, edges, (k - 1) as nat);
        let now = graph::call_edges(nodes, calls, edges, k);
        lemma_call_origin(nodes, calls, edges, (k - 1) as nat);
        assert forall|i: int| edges.len() <= i < now.len() implies from_call(
            nodes,
            calls,
            #[trigger] now[i],
        ) by {
            if i < done.len() {
                assert(now[i] == done[i]);
            } else {
                assert(graph::call_edge(nodes, calls[k - 1]) == Some(now[i]));
            }
        }
    }
}

/// Every edge is the defining edge of a node or the edge of a call.
pub proof fn law_edges_have_an_origin(nodes: Seq<NodeModel>, calls: Seq<CallModel>, i: int)
    requires
        0 <= i < graph::built_edges(nodes, calls).len(),
    ensures
        from_file(nodes, graph::built_edges(nodes, calls)[i]) || from_call(
            nodes,
            calls,
            graph::built_edges(nodes, calls)[i],
        ),
{
    let base = graph::define_edges(nodes, nodes.len());
    lemma_define_origin(nodes, nodes.len());
    lemma_call_origin(nodes, calls, base, calls.len());
    if i < base.len() {
        assert(graph::built_edges(nodes, calls)[i] == base[i]);
    }
}

proof fn lemma_node_with_id_is_node(nodes: Seq<NodeModel>, id: Seq<char>)
    ensures
        graph::node_with_id(nodes, id) is Some ==> has_node(nodes, id),
    decreases nodes.len(),
{
    if nodes.len() > 0 {
        if nodes.last().id == id {
            assert(nodes[nodes.len() - 1].id == id);
        } else {
            let t = nodes.drop_last();
            lemma_node_with_id_is_node(t, id);
            if has_node(t, id) {
                let j = choose|j: int| 0 <= j < t.len() && (#[trigger] t[j]).id == id;
                assert(nodes[j].id == id);
            }
        }
    }
}

proof fn lemma_file_id_is_node(nodes: Seq<NodeModel>, path: Seq<char>)
    ensures
        graph::file_id(nodes, path) matches Some(id) ==> has_node(nodes, id),
    decreases nodes.len(),
{
    if nodes.len() > 0 {
        if graph::is_file(nodes.last(), path) {
            assert(nodes[nodes.len() - 1].id == nodes.last().id);
        } else {
            let t = nodes.drop_last();
            lemma_file_id_is_node(t, path);
            if let Some(id) = graph::file_id(t, path) {
                let j = choose|j: int| 0 <= j < t.len() && (#[trigger] t[j]).id == id;
                assert(nodes[j].id == id);
            }
        }
    }
}

/// No edge is a phantom: both of its ends are nodes.
pub proof fn law_no_phantom_edges(nodes: Seq<NodeModel>, calls: Seq<CallModel>, i: int)
    requires
        0 <= i < graph::built_edges(nodes, calls).len(),
    ensures
        has_node(nodes, graph::built_edges(nodes, calls)[i].src),
        has_node(nodes, graph::built_edges(nodes, calls)[i].dst),
{
    let e = graph::built_edges(nodes, calls)[i];
    law_edges_have_an_origin(nodes, calls, i);
    if from_file(nodes, e) {
        let k = choose|k: int|
            0 <= k < nodes.len() && (#[trigger] nodes[k]).label != NodeLabel::File
                && match graph::file_id(nodes, nodes[k].file_path) {
                Some(f) => e == graph::defines_edge(f, nodes[k]),
                None => false,
            };
        lemma_file_id_is_node(nodes, nodes[k].file_path);
        assert(nodes[k].id == e.dst);
    } else {
        let k = choose|k: int|
            0 <= k < calls.len() && graph::call_edge(nodes, #[trigger] calls[k]) == Some(e);
        let c = calls[k];
        lemma_node_with_id_is_node(nodes, c.caller_id);
        let file = graph::node_with_id(nodes, c.caller_id)->0.file_path;
        let id = choose|id: Seq<char>| graph::only_function(nodes, file, c.callee_name, id);
        assert(graph::only_function(nodes, file, c.callee_name, id));
        let j = choose|j: int|
            0 <= j < nodes.len() && graph::is_function(
                #[trigger] nodes[j],
                file,
                c.callee_name,
            ) && nodes[j].id == id;
        assert(nodes[j].id == e.dst);
    }
}

/// A call is never guessed: where a call edge stands, a call site of that
/// caller names the callee, and every function of that name in the caller's
/// file is the callee.
pub proof fn law_calls_are_never_guessed(nodes: Seq<NodeModel>, calls: Seq<CallModel>, i: int)
    requires
        0 <= i < graph::built_edges(nodes, calls).len(),
        graph::built_edges(nodes, calls)[i].relation == EdgeRelation::Calls,
    ensures
        exists|k: int|
            0 <= k < calls.len() && (#[trigger] calls[k]).caller_id == graph::built_edges(
                nodes,
                calls,
            )[i].src && graph::only_function(
                nodes,
                graph::built_edges(nodes, calls)[i].src_file,
                calls[k].callee_name,
                graph::built_edges(nodes, calls)[i].dst,
            ),
{
    let e = graph::built_edges(nodes, calls)[i];
    law_edges_have_an_origin(nodes, calls, i);
    let k = choose|k: int|
        0 <= k < calls.len() && graph::call_edge(nodes, #[trigger] calls[k]) == Some(e);
    let c = calls[k];
    let file = graph::node_with_id(nodes, c.caller_id)->0.file_path;
    let id = choose|id: Seq<char>| graph::only_function(nodes, file, c.callee_name, id);
    assert(graph::only_function(nodes, file, c.callee_name, id));
    assert(calls[k].caller_id == e.src);
}

/// Every call edge says why it is there.
pub proof fn law_calls_are_justified(nodes: Seq<NodeModel>, calls: Seq<CallModel>, i: int)
    requires
        0 <= i < graph::built_edges(nodes, calls).len(),
    ensures
        !store_edges::unjustified()(graph::built_edges(nodes, calls)[i]),
{
    law_edges_have_an_origin(nodes, calls, i);
    let e = graph::built_edges(nodes, calls)[i];
    if from_call(nodes, calls, e) {
        let tag = graph::same_file_tag();
        assert(e.metadata == tag);
        assert(tag[0].0 == "justification"@);
    }
}

/// An ambiguous name is dropped: where two functions of one name in one file
/// have different ids, no call of that name resolves there.
pub proof fn law_ambiguous_names_are_dropped(
    nodes: Seq<NodeModel>,
    file: Seq<char>,
    name: Seq<char>,
    i: int,
    j: int,
)
    requires
        0 <= i < nodes.len(),
        0 <= j < nodes.len(),
        graph::is_function(nodes[i], file, name),
        graph::is_function(nodes[j], file, name),
        nodes[i].id != nodes[j].id,
    ensures
        graph::resolve(nodes, file, name) is None,
{
    assert forall|id: Seq<char>| !graph::only_function(nodes, file, name, id) by {
        if graph::only_function(nodes, file, name, id) {
            assert(nodes[i].id == id);
            assert(nodes[j].id == id);
        }
    }
}

/// Whether no two edges have the same key.
pub open spec fn keys_distinct(edges: Seq<EdgeModel>) -> bool {
    forall|i: int, j: int|
        0 <= i < j < edges.len() ==> (#[trigger] edges[i]).key() != (#[trigger] edges[j]).key()
}

proof fn lemma_add_once_distinct(edges: Seq<EdgeModel>, e: EdgeModel)
    requires
        keys_distinct(edges),
    ensures
        keys_distinct(graph::add_once(edges, e)),
{
    let now = graph::add_once(edges, e);
    assert forall|i: int, j: int| 0 <= i < j < now.len() implies (#[trigger] now[i]).key() != (
    #[trigger] now[j]).key() by {
        if j < edges.len() {
            assert(now[i] == edges[i] && now[j] == edges[j]);
        } else {
            assert(now[i] == edges[i]);
        }
    }
}

proof fn lemma_define_distinct(nodes: Seq<NodeModel>, k: nat)
    ensures
        keys_distinct(graph::define_edges(nodes, k)),
    decreases k,
{
    if k > 0 {
        lemma_define_distinct(nodes, (k - 1) as nat);
        let n = nodes[k - 1];
        if let Some(f) = graph::file_id(nodes, n.file_path) {
            lemma_add_once_distinct(
                graph::define_edges(nodes, (k - 1) as nat),
                graph::defines_edge(f, n),
            );
        }
    }
}

proof fn lemma_call_distinct(
    nodes: Seq<NodeModel>,
    calls: Seq<CallModel>,
    edges: Seq<EdgeModel>,
    k: nat,
)
    requires
        keys_distinct(edges),
    ensures
        keys_distinct(graph::call_edges(nodes, calls, edges, k)),
    decreases k,
{
    if k > 0 {
        lemma_call_distinct(nodes, calls, edges, (k - 1) as nat);
        if let Some(e) = graph::call_edge(nodes, calls[k - 1]) {
            lemma_add_once_distinct(graph::call_edges(nodes, calls, edges, (k - 1) as nat), e);
        }
    }
}

/// No edge stands twice: repeated calls make one edge.
pub proof fn law_edges_are_distinct(nodes: Seq<NodeModel>, calls: Seq<CallModel>)
    ensures
        keys_distinct(graph::built_edges(nodes, calls)),
{
    lemma_define_distinct(nodes, nodes.len());
    lemma_call_distinct(nodes, calls, graph::define_edges(nodes, nodes.len()), calls.len());
}

proof fn lemma_call_kept(
    nodes: Seq<NodeModel>,
    calls: Seq<CallModel>,
    edges: Seq<EdgeModel>,
    k: nat,
    c: int,
)
    requires
        0 <= c < k <= calls.len(),
        graph::call_edge(nodes, calls[c]) is Some,
    ensures
        graph::has_key(
            graph::call_edges(nodes, calls, edges, k),
            graph::call_edge(nodes, calls[c])->0.key(),
        ),
    decreases k,
{
    let e = graph::call_edge(nodes, calls[c])->0;
    let done = graph::call_edges(nodes, calls, edges, (k - 1) as nat);
    let now = graph::call_edges(nodes, calls, edges, k);
    if c < k - 1 {
        lemma_call_kept(nodes, calls, edges, (k - 1) as nat, c);
        let i = choose|i: int| 0 <= i < done.len() && (#[trigger] done[i]).key() == e.key();
        assert(now[i] == done[i]);
    } else if !graph::has_key(done, e.key()) {
        assert(now[done.len() as int] == e);
    }
}

/// A call that names exactly one function of its file is never lost: an edge
/// from its caller to that function is there.
pub proof fn law_unique_calls_resolve(nodes: Seq<NodeModel>, calls: Seq<CallModel>, c: int)
    requires
        0 <= c < calls.len(),
        graph::call_edge(nodes, calls[c]) is Some,
    ensures
        graph::has_key(
            graph::built_edges(nodes, calls),
            graph::call_edge(nodes, calls[c])->0.key(),
        ),
{
    lemma_call_kept(nodes, calls, graph::define_edges(nodes, nodes.len()), calls.len(), c);
}

proof fn lemma_incoming(edges: Seq<(nat, nat, Seq<char>)>, n: nat, x: nat)
    ensures
        graph::incoming(edges, n).contains(x) == graph::linked(edges, x, n),
    decreases edges.len(),
{
    if edges.len() > 0 {
        let t = edges.drop_last();
        lemma_incoming(t, n, x);
        let all = graph::incoming(edges, n);
        let rest = graph::incoming(t, n);
        if graph::linked(t, x, n) {
            let i = choose|i: int| 0 <= i < t.len() && (#[trigger] t[i]).0 == x && t[i].1 == n;
            assert(edges[i] == t[i]);
        }
        if graph::linked(edges, x, n) {
            let i = choose|i: int|
                0 <= i < edges.len() && (#[trigger] edges[i]).0 == x && edges[i].1 == n;
            if i < t.len() {
                assert(t[i] == edges[i]);
            }
        }
        if edges.last().1 == n {
            assert(edges[edges.len() - 1].0 == all[0]);
            if rest.contains(x) {
                let j = choose|j: int| 0 <= j < rest.len() && rest[j] == x;
                assert(all[j + 1] == x);
            }
            if all.contains(x) && all[0] != x {
                let j = choose|j: int| 0 <= j < all.len() && all[j] == x;
                assert(rest[j - 1] == x);
            }
        }
    }
}

proof fn lemma_take_new(found: Seq<nat>, seen: Seq<nat>)
    requires
        seen.no_duplicates(),
    ensures
        graph::take_new(found, seen).no_duplicates(),
        seen.len() <= graph::take_new(found, seen).len(),
        graph::take_new(found, seen).take(seen.len() as int) == seen,
        forall|x: nat| #[trigger]
            graph::take_new(found, seen).contains(x) == (seen.contains(x) || found.contains(x)),
    decreases found.len(),
{
    if found.len() == 0 {
        assert(seen.take(seen.len() as int) =~= seen);
    } else {
        let t = found.drop_last();
        lemma_take_new(t, seen);
        let rest = graph::take_new(t, seen);
        let now = graph::take_new(found, seen);
        assert(now.take(seen.len() as int) =~= rest.take(seen.len() as int));
        assert forall|x: nat| #[trigger] now.contains(x) == (seen.contains(x) || found.contains(
            x,
        )) by {
            assert(rest.contains(x) == (seen.contains(x) || t.contains(x)));
            if found.contains(x) {
                let i = choose|i: int| 0 <= i < found.len() && found[i] == x;
                if i < t.len() {
                    assert(t[i] == x);
                }
            }
            if t.contains(x) {
                let i = choose|i: int| 0 <= i < t.len() && t[i] == x;
                assert(found[i] == x);
            }
            assert(found[found.len() - 1] == found.last());
            if !rest.contains(found.last()) {
                assert(now[rest.len() as int] == found.last());
                if rest.contains(x) {
                    let i = choose|i: int| 0 <= i < rest.len() && rest[i] == x;
                    assert(now[i] == x);
                }
                if now.contains(x) {
                    let i = choose|i: int| 0 <= i < now.len() && now[i] == x;
                    if i < rest.len() {
                        assert(rest[i] == x);
                    }
                }
            }
        }
        assert(now.no_duplicates());
    }
}

/// Whether one of the first `k` nodes of `frontier` has an edge from `x`.
spec fn feeds(edges: Seq<(nat, nat, Seq<char>)>, x: nat, frontier: Seq<nat>, k: nat) -> bool {
    exists|j: int| 0 <= j < k && graph::linked(edges, x, #[trigger] frontier[j])
}

proof fn lemma_expand(
    edges: Seq<(nat, nat, Seq<char>)>,
    frontier: Seq<nat>,
    seen: Seq<nat>,
    k: nat,
)
    requires
        seen.no_duplicates(),
        k <= frontier.len(),
    ensures
        graph::expand(edges, frontier, seen, k).no_duplicates(),
        seen.len() <= graph::expand(edges, frontier, seen, k).len(),
        graph::expand(edges, frontier, seen, k).take(seen.len() as int) == seen,
        forall|x: nat| #[trigger]
            graph::expand(edges, frontier, seen, k).contains(x) == (seen.contains(x) || feeds(
                edges,
                x,
                frontier,
                k,
            )),
    decreases k,
{
    if k == 0 {
        assert(seen.take(seen.len() as int) =~= seen);
    } else {
        let rest = graph::expand(edges, frontier, seen, (k - 1) as nat);
        let now = graph::expand(edges, frontier, seen, k);
        lemma_expand(edges, frontier, seen, (k - 1) as nat);
        lemma_take_new(graph::incoming(edges, frontier[k - 1]), rest);
        assert(now.take(rest.len() as int).take(seen.len() as int) =~= now.take(seen.len() as int));
        assert forall|x: nat| #[trigger] now.contains(x) == (seen.contains(x) || feeds(
            edges,
            x,
            frontier,
            k,
        )) by {
            lemma_incoming(edges, frontier[k - 1], x);
            assert(rest.contains(x) == (seen.contains(x) || feeds(
                edges,
                x,
                frontier,
                (k - 1) as nat,
            )));
            if feeds(edges, x, frontier, k) {
                let j = choose|j: int|
                    0 <= j < k && graph::linked(edges, x, #[trigger] frontier[j]);
                if j < k - 1 {
                    assert(feeds(edges, x, frontier, (k - 1) as nat));
                }
            }
            if feeds(edges, x, frontier, (k - 1) as nat) {
                let j = choose|j: int|
                    0 <= j < k - 1 && graph::linked(edges, x, #[trigger] frontier[j]);
                assert(feeds(edges, x, frontier, k));
            }
            if graph::linked(edges, x, frontier[k - 1]) {
                assert(feeds(edges, x, frontier, k));
            }
        }
    }
}

/// Whether a walk of at most `d` edges leads from `x` to `t`.
pub open spec fn reaches(edges: Seq<(nat, nat, Seq<char>)>, x: nat, t: nat, d: nat) -> bool {
    exists|w: Seq<nat>| #[trigger] graph::leads(edges, w, x, t) && w.len() <= d + 1
}

proof fn lemma_reaches_step(edges: Seq<(nat, nat, Seq<char>)>, x: nat, y: nat, t: nat, d: nat)
    requires
        graph::linked(edges, x, y),
        reaches(edges, y, t, d),
    ensures
        reaches(edges, x, t, d + 1),
{
    let w = choose|w: Seq<nat>| #[trigger] graph::leads(edges, w, y, t) && w.len() <= d + 1;
    let v = seq![x] + w;
    assert forall|i: int| 0 <= i < v.len() - 1 implies graph::linked(
        edges,
        #[trigger] v[i],
        v[i + 1],
    ) by {
        if i > 0 {
            assert(v[i] == w[i - 1]);
            assert(v[i + 1] == w[i - 1 + 1]);
            assert(graph::linked(edges, w[i - 1], w[i - 1 + 1]));
        } else {
            assert(v[1] == w[0]);
        }
    }
    assert(v.last() == w.last());
    assert(graph::leads(edges, v, x, t));
}

proof fn lemma_reaches_split(edges: Seq<(nat, nat, Seq<char>)>, x: nat, t: nat, d: nat)
    requires
        reaches(edges, x, t, d),
        x != t,
    ensures
        d > 0,
        exists|y: nat| #[trigger]
            graph::linked(edges, x, y) && reaches(edges, y, t, (d - 1) as nat),
{
    let w = choose|w: Seq<nat>| #[trigger] graph::leads(edges, w, x, t) && w.len() <= d + 1;
    assert(w.len() > 1);
    assert(graph::linked(edges, w[0], w[0int + 1]));
    let v = w.drop_first();
    assert forall|i: int| 0 <= i < v.len() - 1 implies graph::linked(
        edges,
        #[trigger] v[i],
        v[i + 1],
    ) by {
        assert(v[i] == w[i + 1]);
        assert(v[i + 1] == w[i + 1 + 1]);
        assert(graph::linked(edges, w[i + 1], w[i + 1 + 1]));
    }
    assert(v.last() == w.last());
    assert(graph::leads(edges, v, w[1], t));
    assert(reaches(edges, w[1], t, (d - 1) as nat));
}

proof fn lemma_reaches_more(edges: Seq<(nat, nat, Seq<char>)>, x: nat, t: nat, d: nat)
    requires
        reaches(edges, x, t, d),
    ensures
        reaches(edges, x, t, d + 1),
{
    let w = choose|w: Seq<nat>| #[trigger] graph::leads(edges, w, x, t) && w.len() <= d + 1;
    assert(graph::leads(edges, w, x, t) && w.len() <= d + 1 + 1);
}

/// Whether `seen` is what reaches `t` in `d` steps, and what feeds its first
/// `from` members is in it.
spec fn level(
    edges: Seq<(nat, nat, Seq<char>)>,
    seen: Seq<nat>,
    from: nat,
    t: nat,
    d: nat,
) -> bool {
    &&& seen.no_duplicates()
    &&& seen.len() > 0 && seen[0] == t
    &&& from <= seen.len()
    &&& forall|x: nat| #[trigger] seen.contains(x) == reaches(edges, x, t, d)
    &&& forall|x: nat| #[trigger] feeds(edges, x, seen, from) ==> seen.contains(x)
}

proof fn lemma_level_step(
    edges: Seq<(nat, nat, Seq<char>)>,
    seen: Seq<nat>,
    from: nat,
    t: nat,
    d: nat,
)
    requires
        level(edges, seen, from, t, d),
    ensures
        ({
            let f = seen.skip(from as int);
            level(edges, graph::expand(edges, f, seen, f.len()), seen.len(), t, d + 1)
        }),
{
    let f = seen.skip(from as int);
    let now = graph::expand(edges, f, seen, f.len());
    lemma_expand(edges, f, seen, f.len());
    assert(now[0] == now.take(seen.len() as int)[0]);
    assert forall|x: nat| #[trigger] now.contains(x) == reaches(edges, x, t, d + 1) by {
        assert(seen.contains(x) == reaches(edges, x, t, d));
        if reaches(edges, x, t, d) {
            lemma_reaches_more(edges, x, t, d);
        }
        if feeds(edges, x, f, f.len()) {
            let j = choose|j: int| 0 <= j < f.len() && graph::linked(edges, x, #[trigger] f[j]);
            assert(seen[from + j] == f[j]);
            assert(seen.contains(f[j]));
            lemma_reaches_step(edges, x, f[j], t, d);
        }
        if reaches(edges, x, t, d + 1) {
            if x == t {
                assert(seen[0] == x);
            } else {
                lemma_reaches_split(edges, x, t, d + 1);
                let y = choose|y: nat| #[trigger]
                    graph::linked(edges, x, y) && reaches(edges, y, t, d);
                assert(seen.contains(y));
                let q = choose|q: int| 0 <= q < seen.len() && seen[q] == y;
                if q < from {
                    assert(graph::linked(edges, x, seen[q]));
                    assert(feeds(edges, x, seen, from));
                } else {
                    assert(f[q - from] == y);
                    assert(feeds(edges, x, f, f.len()));
                }
            }
        }
    }
    assert forall|x: nat| #[trigger] feeds(edges, x, now, seen.len()) implies now.contains(x) by {
        let j = choose|j: int| 0 <= j < seen.len() && graph::linked(edges, x, #[trigger] now[j]);
        assert(now.take(seen.len() as int)[j] == seen[j]);
        assert(seen.contains(seen[j]));
        lemma_reaches_step(edges, x, seen[j], t, d);
        assert(reaches(edges, x, t, d + 1));
    }
}

proof fn lemma_level_closed(
    edges: Seq<(nat, nat, Seq<char>)>,
    seen: Seq<nat>,
    t: nat,
    d: nat,
    more: nat,
    x: nat,
)
    requires
        level(edges, seen, seen.len(), t, d),
    ensures
        seen.contains(x) == reaches(edges, x, t, d + more),
    decreases more,
{
    if more > 0 {
        lemma_level_step(edges, seen, seen.len(), t, d);
        let f = seen.skip(seen.len() as int);
        assert(f.len() == 0);
        assert(graph::expand(edges, f, seen, 0) == seen);
        lemma_level_closed(edges, seen, t, d + 1, (more - 1) as nat, x);
    }
}

proof fn lemma_spread(
    edges: Seq<(nat, nat, Seq<char>)>,
    seen: Seq<nat>,
    from: nat,
    t: nat,
    d: nat,
    depth: nat,
)
    requires
        level(edges, seen, from, t, d),
    ensures
        graph::spread(edges, seen, from, depth).no_duplicates(),
        graph::spread(edges, seen, from, depth).len() > 0,
        graph::spread(edges, seen, from, depth)[0] == t,
        forall|x: nat| #[trigger]
            graph::spread(edges, seen, from, depth).contains(x) == reaches(edges, x, t, d + depth),
    decreases depth,
{
    if depth > 0 {
        if from >= seen.len() {
            assert forall|x: nat| #[trigger] seen.contains(x) == reaches(
                edges,
                x,
                t,
                d + depth,
            ) by {
                lemma_level_closed(edges, seen, t, d, depth, x);
            }
        } else {
            lemma_level_step(edges, seen, from, t, d);
            let f = seen.skip(from as int);
            let next = graph::expand(edges, f, seen, f.len());
            lemma_spread(edges, next, seen.len(), t, d + 1, (depth - 1) as nat);
            assert forall|x: nat| #[trigger]
                graph::spread(edges, seen, from, depth).contains(x) == reaches(
                    edges,
                    x,
                    t,
                    d + depth,
                ) by {
                assert(graph::spread(edges, next, seen.len(), (depth - 1) as nat).contains(x)
                    == reaches(edges, x, t, d + 1 + (depth - 1) as nat));
            }
        }
    }
}

/// The blast radius of `t` is exactly what reaches `t` over at most `depth`
/// edges, `t` itself left out, and nothing stands in it twice.
pub proof fn law_blast_radius_is_reverse_reach(
    edges: Seq<(nat, nat, Seq<char>)>,
    t: nat,
    depth: nat,
    x: nat,
)
    ensures
        graph::spread(edges, seq![t], 0, depth).skip(1).no_duplicates(),
        graph::spread(edges, seq![t], 0, depth).skip(1).contains(x) == (x != t && reaches(
            edges,
            x,
            t,
            depth,
        )),
{
    let first = seq![t];
    lemma_radius_holds(edges, t, depth, x);
    let all = graph::spread(edges, first, 0, depth);
    let rest = all.skip(1);
    assert(all[0] == t) by {
        lemma_spread_extends(edges, first, 0, depth);
        assert(all.take(1)[0] == all[0]);
    }
    if all.contains(x) && x != t {
        let i = choose|i: int| 0 <= i < all.len() && all[i] == x;
        assert(rest[i - 1] == x);
    }
    if rest.contains(x) {
        let i = choose|i: int| 0 <= i < rest.len() && rest[i] == x;
        assert(all[i + 1] == x);
        assert(all[0] == t);
    }
    assert forall|i: int, j: int| 0 <= i < rest.len() && 0 <= j < rest.len() && i != j implies rest[i]
        != rest[j] by {
        assert(all[i + 1] != all[j + 1]);
    }
}

proof fn lemma_spread_extends(
    edges: Seq<(nat, nat, Seq<char>)>,
    seen: Seq<nat>,
    from: nat,
    depth: nat,
)
    requires
        seen.no_duplicates(),
    ensures
        graph::spread(edges, seen, from, depth).len() >= seen.len(),
        graph::spread(edges, seen, from, depth).take(seen.len() as int) == seen,
    decreases depth,
{
    if depth == 0 || from >= seen.len() {
        assert(seen.take(seen.len() as int) =~= seen);
    } else {
        let f = seen.skip(from as int);
        let next = graph::expand(edges, f, seen, f.len());
        lemma_expand(edges, f, seen, f.len());
        lemma_spread_extends(edges, next, seen.len(), (depth - 1) as nat);
        let all = graph::spread(edges, seen, from, depth);
        assert(all.take(seen.len() as int) =~= all.take(next.len() as int).take(seen.len() as int));
    }
}

proof fn lemma_spread_front(
    edges: Seq<(nat, nat, Seq<char>)>,
    seen: Seq<nat>,
    from: nat,
    small: nat,
    large: nat,
)
    requires
        seen.no_duplicates(),
        small <= large,
    ensures
        ({
            let a = graph::spread(edges, seen, from, small);
            let b = graph::spread(edges, seen, from, large);
            a.len() <= b.len() && b.take(a.len() as int) == a
        }),
    decreases small,
{
    if small == 0 || from >= seen.len() {
        lemma_spread_extends(edges, seen, from, large);
    } else {
        let f = seen.skip(from as int);
        let next = graph::expand(edges, f, seen, f.len());
        lemma_expand(edges, f, seen, f.len());
        lemma_spread_front(edges, next, seen.len(), (small - 1) as nat, (large - 1) as nat);
    }
}

/// A smaller depth gives the front of the blast radius that a larger one gives.
/// A depth of zero gives none, and neither does a node that is not there.
pub proof fn law_blast_radius_is_a_front(
    m: GraphModel,
    target: Seq<char>,
    small: nat,
    large: nat,
)
    requires
        small <= large,
    ensures
        graph::radius_of(m, target, small).len() <= graph::radius_of(m, target, large).len(),
        graph::radius_of(m, target, small) == graph::radius_of(m, target, large).take(
            graph::radius_of(m, target, small).len() as int,
        ),
        graph::radius_of(m, target, 0).len() == 0,
        !m.index.contains_key(target) ==> graph::radius_of(m, target, large).len() == 0,
{
    if m.index.contains_key(target) {
        let first = seq![m.index[target]];
        lemma_spread_front(m.edges, first, 0, small, large);
        lemma_spread_extends(m.edges, first, 0, small);
        let a = graph::spread(m.edges, first, 0, small);
        let b = graph::spread(m.edges, first, 0, large);
        assert forall|i: int| 0 <= i < a.len() implies a[i] == #[trigger] b[i] by {
            assert(b.take(a.len() as int)[i] == b[i]);
        }
        assert(graph::radius_of(m, target, small) =~= graph::radius_of(m, target, large).take(
            graph::radius_of(m, target, small).len() as int,
        ));
    } else {
        assert(graph::radius_of(m, target, small) =~= graph::radius_of(m, target, large).take(0));
    }
}

proof fn lemma_reaches_grows(edges: Seq<(nat, nat, Seq<char>)>, x: nat, t: nat, d: nat, e: nat)
    requires
        reaches(edges, x, t, d),
        d <= e,
    ensures
        reaches(edges, x, t, e),
{
    let w = choose|w: Seq<nat>| #[trigger] graph::leads(edges, w, x, t) && w.len() <= d + 1;
    assert(graph::leads(edges, w, x, t) && w.len() <= e + 1);
}

proof fn lemma_radius_holds(edges: Seq<(nat, nat, Seq<char>)>, t: nat, depth: nat, x: nat)
    ensures
        graph::spread(edges, seq![t], 0, depth).contains(x) == reaches(edges, x, t, depth),
        graph::spread(edges, seq![t], 0, depth).no_duplicates(),
        graph::spread(edges, seq![t], 0, depth).len() > 0,
{
    let first = seq![t];
    assert forall|y: nat| #[trigger] first.contains(y) == reaches(edges, y, t, 0) by {
        assert(first[0] == t);
        if y == t {
            assert(graph::leads(edges, seq![t], t, t));
            assert(reaches(edges, y, t, 0));
        } else if reaches(edges, y, t, 0) {
            lemma_reaches_split(edges, y, t, 0);
        }
    }
    assert(level(edges, first, 0, t, 0));
    lemma_spread(edges, first, 0, t, 0, depth);
    assert(graph::spread(edges, first, 0, depth).contains(x) == reaches(edges, x, t, 0 + depth));
}

/// The blast radius has the nearest first: what stands earlier in it reaches the
/// node over as few edges as what stands later, or over fewer.
pub proof fn law_blast_radius_is_nearest_first(
    edges: Seq<(nat, nat, Seq<char>)>,
    t: nat,
    depth: nat,
    i: int,
    j: int,
    d: nat,
)
    requires
        0 <= i < j < graph::spread(edges, seq![t], 0, depth).skip(1).len(),
        reaches(edges, graph::spread(edges, seq![t], 0, depth).skip(1)[j], t, d),
    ensures
        reaches(edges, graph::spread(edges, seq![t], 0, depth).skip(1)[i], t, d),
{
    let all = graph::spread(edges, seq![t], 0, depth);
    let x = all[i + 1];
    let y = all[j + 1];
    lemma_radius_holds(edges, t, depth, x);
    assert(all.contains(x));
    if d >= depth {
        lemma_reaches_grows(edges, x, t, depth, d);
    } else {
        let near = graph::spread(edges, seq![t], 0, d);
        lemma_spread_front(edges, seq![t], 0, d, depth);
        lemma_radius_holds(edges, t, d, y);
        let k = choose|k: int| 0 <= k < near.len() && near[k] == y;
        assert(all.take(near.len() as int)[k] == all[k]);
        assert(k == j + 1);
        assert(all.take(near.len() as int)[i + 1] == x);
        assert(near.contains(x));
        lemma_radius_holds(edges, t, d, x);
    }
}

/// Whether the ids of nodes are different.
pub open spec fn ids_apart(nodes: Seq<NodeModel>) -> bool {
    forall|i: int, j: int|
        0 <= i < j < nodes.len() ==> (#[trigger] nodes[i]).id != (#[trigger] nodes[j]).id
}

/// Whether an edge leads from one node to another.
pub open spec fn edge_between(
    nodes: Seq<NodeModel>,
    edges: Seq<EdgeModel>,
    a: Seq<char>,
    b: Seq<char>,
) -> bool {
    has_node(nodes, a) && has_node(nodes, b) && exists|e: EdgeModel| #[trigger]
        edges.contains(e) && e.src == a && e.dst == b
}

/// Whether a list of ids leads from `a` to `b`, from each over an edge to the
/// next.
pub open spec fn id_walk(
    nodes: Seq<NodeModel>,
    edges: Seq<EdgeModel>,
    w: Seq<Seq<char>>,
    a: Seq<char>,
    b: Seq<char>,
) -> bool {
    w.len() > 0 && w[0] == a && w.last() == b && forall|i: int|
        0 <= i < w.len() - 1 ==> edge_between(nodes, edges, #[trigger] w[i], w[i + 1])
}

/// Whether `b` can be reached from `a` over at most `d` edges.
pub open spec fn is_within(
    nodes: Seq<NodeModel>,
    edges: Seq<EdgeModel>,
    a: Seq<char>,
    b: Seq<char>,
    d: nat,
) -> bool {
    exists|w: Seq<Seq<char>>| #[trigger] id_walk(nodes, edges, w, a, b) && w.len() <= d + 1
}

/// The place of an id is that of a node with it.
pub proof fn lemma_place(nodes: Seq<NodeModel>, id: Seq<char>)
    ensures
        match graph::index_of(nodes, id) {
            Some(i) => i < nodes.len() && nodes[i as int].id == id,
            None => !has_node(nodes, id),
        },
    decreases nodes.len(),
{
    if nodes.len() > 0 {
        let d = nodes.drop_last();
        lemma_place(d, id);
        if nodes.last().id != id && graph::index_of(d, id) is None {
            if has_node(nodes, id) {
                let i = choose|i: int| 0 <= i < nodes.len() && (#[trigger] nodes[i]).id == id;
                assert(d[i].id == id);
            }
        }
    }
}

proof fn lemma_own_place(nodes: Seq<NodeModel>, x: nat)
    requires
        ids_apart(nodes),
        x < nodes.len(),
    ensures
        graph::index_of(nodes, nodes[x as int].id) == Some(x),
{
    let id = nodes[x as int].id;
    lemma_place(nodes, id);
    assert(has_node(nodes, id));
    let i = graph::index_of(nodes, id)->0;
    if i < x {
        assert(nodes[i as int].id != nodes[x as int].id);
    } else if x < i {
        assert(nodes[x as int].id != nodes[i as int].id);
    }
}

proof fn lemma_linked_by_id(nodes: Seq<NodeModel>, edges: Seq<EdgeModel>, x: nat, y: nat)
    ensures
        graph::linked(graph::loaded_edges(nodes, edges), x, y) == (exists|e: EdgeModel| #[trigger]
            edges.contains(e) && graph::index_of(nodes, e.src) == Some(x) && graph::index_of(
                nodes,
                e.dst,
            ) == Some(y)),
    decreases edges.len(),
{
    let all = graph::loaded_edges(nodes, edges);
    if edges.len() > 0 {
        let d = edges.drop_last();
        let last = edges.last();
        let rest = graph::loaded_edges(nodes, d);
        lemma_linked_by_id(nodes, d, x, y);
        assert(edges[edges.len() - 1] == last);
        assert(edges.contains(last));
        assert forall|e: EdgeModel| #[trigger] d.contains(e) implies edges.contains(e) by {
            let i = choose|i: int| 0 <= i < d.len() && d[i] == e;
            assert(edges[i] == e);
        }
        if graph::linked(rest, x, y) {
            let i = choose|i: int|
                0 <= i < rest.len() && (#[trigger] rest[i]).0 == x && rest[i].1 == y;
            assert(all[i] == rest[i]);
        }
        if graph::linked(all, x, y) && !graph::linked(rest, x, y) {
            let i = choose|i: int|
                0 <= i < all.len() && (#[trigger] all[i]).0 == x && all[i].1 == y;
            if i < rest.len() {
                assert(rest[i] == all[i]);
            }
        }
        if exists|e: EdgeModel| #[trigger]
            edges.contains(e) && graph::index_of(nodes, e.src) == Some(x) && graph::index_of(
                nodes,
                e.dst,
            ) == Some(y) {
            let e = choose|e: EdgeModel| #[trigger]
                edges.contains(e) && graph::index_of(nodes, e.src) == Some(x) && graph::index_of(
                    nodes,
                    e.dst,
                ) == Some(y);
            let i = choose|i: int| 0 <= i < edges.len() && edges[i] == e;
            if i < d.len() {
                assert(d[i] == e);
                assert(d.contains(e));
            } else {
                assert(all[rest.len() as int] == (x, y, last.relation.text()));
            }
        }
    } else {
        assert(all.len() == 0);
    }
}

proof fn lemma_linked_is_edge(nodes: Seq<NodeModel>, edges: Seq<EdgeModel>, x: nat, y: nat)
    requires
        ids_apart(nodes),
    ensures
        graph::linked(graph::loaded_edges(nodes, edges), x, y) == (x < nodes.len() && y
            < nodes.len() && edge_between(nodes, edges, nodes[x as int].id, nodes[y as int].id)),
{
    lemma_linked_by_id(nodes, edges, x, y);
    if graph::linked(graph::loaded_edges(nodes, edges), x, y) {
        let e = choose|e: EdgeModel| #[trigger]
            edges.contains(e) && graph::index_of(nodes, e.src) == Some(x) && graph::index_of(
                nodes,
                e.dst,
            ) == Some(y);
        lemma_place(nodes, e.src);
        lemma_place(nodes, e.dst);
        assert(edges.contains(e) && e.src == nodes[x as int].id && e.dst == nodes[y as int].id);
    }
    if x < nodes.len() && y < nodes.len() && edge_between(
        nodes,
        edges,
        nodes[x as int].id,
        nodes[y as int].id,
    ) {
        lemma_own_place(nodes, x);
        lemma_own_place(nodes, y);
    }
}

proof fn lemma_reach_by_id(
    nodes: Seq<NodeModel>,
    edges: Seq<EdgeModel>,
    x: nat,
    t: nat,
    d: nat,
)
    requires
        ids_apart(nodes),
        x < nodes.len(),
        t < nodes.len(),
    ensures
        reaches(graph::loaded_edges(nodes, edges), x, t, d) == is_within(
            nodes,
            edges,
            nodes[x as int].id,
            nodes[t as int].id,
            d,
        ),
{
    let places = graph::loaded_edges(nodes, edges);
    let (a, b) = (nodes[x as int].id, nodes[t as int].id);
    if reaches(places, x, t, d) {
        let w = choose|w: Seq<nat>| #[trigger] graph::leads(places, w, x, t) && w.len() <= d + 1;
        let v = w.map_values(|i: nat| nodes[i as int].id);
        assert forall|i: int| 0 <= i < v.len() - 1 implies edge_between(
            nodes,
            edges,
            #[trigger] v[i],
            v[i + 1],
        ) by {
            assert(graph::linked(places, w[i], w[i + 1]));
            lemma_linked_is_edge(nodes, edges, w[i], w[i + 1]);
        }
        assert(id_walk(nodes, edges, v, a, b) && v.len() <= d + 1);
    }
    if is_within(nodes, edges, a, b, d) {
        let v = choose|v: Seq<Seq<char>>| #[trigger]
            id_walk(nodes, edges, v, a, b) && v.len() <= d + 1;
        let w = v.map_values(|id: Seq<char>| graph::index_of(nodes, id)->0);
        lemma_own_place(nodes, x);
        lemma_own_place(nodes, t);
        assert forall|i: int| 0 <= i < w.len() - 1 implies graph::linked(
            places,
            #[trigger] w[i],
            w[i + 1],
        ) by {
            assert(edge_between(nodes, edges, v[i], v[i + 1]));
            lemma_place(nodes, v[i]);
            lemma_place(nodes, v[i + 1]);
            lemma_linked_is_edge(nodes, edges, w[i], w[i + 1]);
        }
        assert(graph::leads(places, w, x, t) && w.len() <= d + 1);
    }
}

/// The places in a blast radius are those of nodes.
proof fn lemma_radius_in_range(
    nodes: Seq<NodeModel>,
    edges: Seq<EdgeModel>,
    t: nat,
    depth: nat,
    y: nat,
)
    requires
        ids_apart(nodes),
        t < nodes.len(),
        graph::spread(graph::loaded_edges(nodes, edges), seq![t], 0, depth).contains(y),
    ensures
        y < nodes.len(),
{
    let places = graph::loaded_edges(nodes, edges);
    lemma_radius_holds(places, t, depth, y);
    if y != t {
        lemma_reaches_split(places, y, t, depth);
        let z = choose|z: nat| #[trigger]
            graph::linked(places, y, z) && reaches(places, z, t, (depth - 1) as nat);
        lemma_linked_is_edge(nodes, edges, y, z);
    }
}

/// Of nodes with different ids, the blast radius of a node has just those from
/// which it can be reached over at least one edge and at most `depth`, each once
/// and without the node itself, and those that need fewer edges come first.
pub proof fn law_blast_radius_of_nodes(
    nodes: Seq<NodeModel>,
    edges: Seq<EdgeModel>,
    target: Seq<char>,
    depth: nat,
)
    requires
        ids_apart(nodes),
    ensures
        ({
            let r = graph::radius_of(graph::loaded(nodes, edges), target, depth);
            &&& r.no_duplicates()
            &&& forall|id: Seq<char>| #[trigger]
                r.contains(id) == (has_node(nodes, id) && has_node(nodes, target) && id != target
                    && is_within(nodes, edges, id, target, depth))
            &&& forall|i: int, j: int, d: nat|
                0 <= i < j < r.len() && #[trigger] is_within(nodes, edges, r[j], target, d)
                    ==> #[trigger] is_within(nodes, edges, r[i], target, d)
        }),
{
    let m = graph::loaded(nodes, edges);
    let r = graph::radius_of(m, target, depth);
    lemma_place(nodes, target);
    if m.index.contains_key(target) {
        let t = m.index[target];
        let places = m.edges;
        let rest = graph::spread(places, seq![t], 0, depth).skip(1);
        assert(nodes[t as int].id == target);
        assert(has_node(nodes, target));
        law_blast_radius_is_reverse_reach(places, t, depth, t);
        lemma_radius_holds(places, t, depth, t);
        assert forall|k: int| 0 <= k < rest.len() implies rest[k] < nodes.len() && r[k]
            == nodes[#[trigger] rest[k] as int].id && rest[k] != t by {
            let all = graph::spread(places, seq![t], 0, depth);
            assert(all[k + 1] == rest[k]);
            assert(all.contains(rest[k]));
            lemma_radius_in_range(nodes, edges, t, depth, rest[k]);
            lemma_own_place(nodes, rest[k]);
            law_blast_radius_is_reverse_reach(places, t, depth, rest[k]);
            assert(rest.contains(rest[k]));
        }
        assert forall|i: int, j: int|
            0 <= i < r.len() && 0 <= j < r.len() && i != j implies r[i] != r[j] by {
            assert(rest[i] != rest[j]);
            lemma_own_place(nodes, rest[i]);
            lemma_own_place(nodes, rest[j]);
        }
        assert forall|id: Seq<char>| #[trigger] r.contains(id) == (has_node(nodes, id) && has_node(
            nodes,
            target,
        ) && id != target && is_within(nodes, edges, id, target, depth)) by {
            if r.contains(id) {
                let k = choose|k: int| 0 <= k < r.len() && r[k] == id;
                let x = rest[k];
                assert(rest.contains(x));
                law_blast_radius_is_reverse_reach(places, t, depth, x);
                lemma_reach_by_id(nodes, edges, x, t, depth);
                lemma_own_place(nodes, x);
                lemma_own_place(nodes, t);
                assert(nodes[x as int].id == id);
            }
            if has_node(nodes, id) && id != target && is_within(nodes, edges, id, target, depth) {
                lemma_place(nodes, id);
                let x = graph::index_of(nodes, id)->0;
                lemma_reach_by_id(nodes, edges, x, t, depth);
                law_blast_radius_is_reverse_reach(places, t, depth, x);
                let k = choose|k: int| 0 <= k < rest.len() && rest[k] == x;
                assert(r[k] == nodes[rest[k] as int].id);
            }
        }
        assert forall|i: int, j: int, d: nat|
            0 <= i < j < r.len() && #[trigger] is_within(
                nodes,
                edges,
                r[j],
                target,
                d,
            ) implies #[trigger] is_within(nodes, edges, r[i], target, d) by {
            assert(r[i] == nodes[rest[i] as int].id && r[j] == nodes[rest[j] as int].id);
            lemma_reach_by_id(nodes, edges, rest[j], t, d);
            lemma_reach_by_id(nodes, edges, rest[i], t, d);
            law_blast_radius_is_nearest_first(places, t, depth, i, j, d);
        }
    } else {
        assert(r.len() == 0);
    }
}

/// Whether a call is clear: a node makes it, and in the file of that node just
/// one function has the called name, or functions that share one id.
pub open spec fn is_clear_call(
    nodes: Seq<NodeModel>,
    c: CallModel,
    caller: NodeModel,
    callee: NodeModel,
) -> bool {
    &&& nodes.contains(caller) && caller.id == c.caller_id
    &&& nodes.contains(callee) && callee.label == NodeLabel::Function && callee.name
        == c.callee_name && callee.file_path == caller.file_path
    &&& forall|m: NodeModel| #[trigger]
        nodes.contains(m) && m.label == NodeLabel::Function && m.name == c.callee_name
            && m.file_path == caller.file_path ==> m.id == callee.id
}

/// The node with an id is one of the nodes; there is none where no node has it.
pub proof fn lemma_found_by_id(nodes: Seq<NodeModel>, id: Seq<char>)
    ensures
        match graph::node_with_id(nodes, id) {
            Some(n) => nodes.contains(n) && n.id == id,
            None => forall|n: NodeModel| #[trigger] nodes.contains(n) ==> n.id != id,
        },
    decreases nodes.len(),
{
    if nodes.len() > 0 {
        let d = nodes.drop_last();
        lemma_found_by_id(d, id);
        assert(nodes[nodes.len() - 1] == nodes.last());
        assert forall|n: NodeModel| #[trigger] nodes.contains(n) implies n == nodes.last()
            || d.contains(n) by {
            let i = choose|i: int| 0 <= i < nodes.len() && nodes[i] == n;
            if i < d.len() {
                assert(d[i] == n);
            }
        }
        if let Some(n) = graph::node_with_id(d, id) {
            let i = choose|i: int| 0 <= i < d.len() && d[i] == n;
            assert(nodes[i] == n);
        }
    }
}

/// Of nodes with different ids, two with one id are the same.
pub proof fn lemma_same_node(nodes: Seq<NodeModel>, a: NodeModel, b: NodeModel)
    requires
        ids_apart(nodes),
        nodes.contains(a),
        nodes.contains(b),
        a.id == b.id,
    ensures
        a == b,
{
    let i = choose|i: int| 0 <= i < nodes.len() && nodes[i] == a;
    let j = choose|j: int| 0 <= j < nodes.len() && nodes[j] == b;
    if i < j {
        assert(nodes[i].id != nodes[j].id);
    } else if j < i {
        assert(nodes[j].id != nodes[i].id);
    }
}

proof fn lemma_clear(
    nodes: Seq<NodeModel>,
    c: CallModel,
    caller: NodeModel,
    callee: NodeModel,
)
    requires
        ids_apart(nodes),
        is_clear_call(nodes, c, caller, callee),
    ensures
        graph::call_edge(nodes, c) matches Some(e) && e.src == c.caller_id && e.dst == callee.id
            && e.relation == EdgeRelation::Calls,
{
    lemma_found_by_id(nodes, c.caller_id);
    lemma_same_node(nodes, caller, graph::node_with_id(nodes, c.caller_id)->0);
    let (file, name) = (caller.file_path, c.callee_name);
    let k = choose|k: int| 0 <= k < nodes.len() && nodes[k] == callee;
    assert(graph::is_function(nodes[k], file, name));
    assert forall|i: int|
        0 <= i < nodes.len() && graph::is_function(
            #[trigger] nodes[i],
            file,
            name,
        ) implies nodes[i].id == callee.id by {
        assert(nodes.contains(nodes[i]));
    }
    assert(graph::only_function(nodes, file, name, callee.id));
    let r = choose|id: Seq<char>| graph::only_function(nodes, file, name, id);
    assert(graph::only_function(nodes, file, name, r));
    assert(nodes[k].id == r);
}

/// Of nodes with different ids, a call leads from one to another just where a
/// clear call does: every clear call has an edge, and every edge of a call is
/// that of a clear one, with the file and the line of the call and why it
/// resolved.
pub proof fn law_call_edges_are_the_clear_calls(nodes: Seq<NodeModel>, calls: Seq<CallModel>)
    requires
        ids_apart(nodes),
    ensures
        forall|c: CallModel, caller: NodeModel, callee: NodeModel|
            calls.contains(c) && #[trigger] is_clear_call(nodes, c, caller, callee) ==> exists|
                e: EdgeModel,
            | #[trigger]
                graph::built_edges(nodes, calls).contains(e) && e.relation == EdgeRelation::Calls
                    && e.src == caller.id && e.dst == callee.id,
        forall|e: EdgeModel| #[trigger]
            graph::built_edges(nodes, calls).contains(e) && e.relation == EdgeRelation::Calls
                ==> exists|c: CallModel, caller: NodeModel, callee: NodeModel|
                calls.contains(c) && #[trigger] is_clear_call(nodes, c, caller, callee) && e == (
                EdgeModel {
                    src: caller.id,
                    dst: callee.id,
                    relation: EdgeRelation::Calls,
                    tier: ResolutionTier::TreeSitter,
                    confidence: Confidence::Inferred,
                    src_file: caller.file_path,
                    src_line: c.line,
                    metadata: seq![("justification"@, MetaModel::Text("SameFileUnique"@))],
                }),
{
    let all = graph::built_edges(nodes, calls);
    assert forall|c: CallModel, caller: NodeModel, callee: NodeModel|
        calls.contains(c) && #[trigger] is_clear_call(nodes, c, caller, callee) implies exists|
        e: EdgeModel,
    | #[trigger]
        all.contains(e) && e.relation == EdgeRelation::Calls && e.src == caller.id && e.dst
            == callee.id by {
        lemma_clear(nodes, c, caller, callee);
        let k = choose|k: int| 0 <= k < calls.len() && calls[k] == c;
        law_unique_calls_resolve(nodes, calls, k);
        let key = graph::call_edge(nodes, c)->0.key();
        let i = choose|i: int| 0 <= i < all.len() && (#[trigger] all[i]).key() == key;
        assert(all.contains(all[i]));
    }
    assert forall|e: EdgeModel| #[trigger]
        all.contains(e) && e.relation == EdgeRelation::Calls implies exists|
        c: CallModel,
        caller: NodeModel,
        callee: NodeModel,
    |
        calls.contains(c) && #[trigger] is_clear_call(nodes, c, caller, callee) && e == (
        EdgeModel {
            src: caller.id,
            dst: callee.id,
            relation: EdgeRelation::Calls,
            tier: ResolutionTier::TreeSitter,
            confidence: Confidence::Inferred,
            src_file: caller.file_path,
            src_line: c.line,
            metadata: seq![("justification"@, MetaModel::Text("SameFileUnique"@))],
        }) by {
        let i = choose|i: int| 0 <= i < all.len() && all[i] == e;
        law_edges_have_an_origin(nodes, calls, i);
        let k = choose|k: int|
            0 <= k < calls.len() && graph::call_edge(nodes, #[trigger] calls[k]) == Some(e);
        let c = calls[k];
        lemma_found_by_id(nodes, c.caller_id);
        let caller = graph::node_with_id(nodes, c.caller_id)->0;
        let id = choose|id: Seq<char>|
            graph::only_function(nodes, caller.file_path, c.callee_name, id);
        assert(graph::only_function(nodes, caller.file_path, c.callee_name, id));
        let j = choose|j: int|
            0 <= j < nodes.len() && graph::is_function(
                #[trigger] nodes[j],
                caller.file_path,
                c.callee_name,
            ) && nodes[j].id == id;
        let callee = nodes[j];
        assert forall|m: NodeModel| #[trigger]
            nodes.contains(m) && m.label == NodeLabel::Function && m.name == c.callee_name
                && m.file_path == caller.file_path implies m.id == callee.id by {
            let q = choose|q: int| 0 <= q < nodes.len() && nodes[q] == m;
            assert(graph::is_function(nodes[q], caller.file_path, c.callee_name));
        }
        assert(calls.contains(c));
        assert(is_clear_call(nodes, c, caller, callee));
    }
}

proof fn lemma_found_file(nodes: Seq<NodeModel>, path: Seq<char>)
    ensures
        match graph::file_id(nodes, path) {
            Some(id) => exists|f: NodeModel| #[trigger]
                nodes.contains(f) && f.label == NodeLabel::File && f.file_path == path && f.id
                    == id,
            None => forall|f: NodeModel| #[trigger]
                nodes.contains(f) && f.label == NodeLabel::File ==> f.file_path != path,
        },
    decreases nodes.len(),
{
    if nodes.len() > 0 {
        let d = nodes.drop_last();
        lemma_found_file(d, path);
        assert(nodes[nodes.len() - 1] == nodes.last());
        assert(nodes.contains(nodes.last()));
        assert forall|n: NodeModel| #[trigger] nodes.contains(n) implies n == nodes.last()
            || d.contains(n) by {
            let i = choose|i: int| 0 <= i < nodes.len() && nodes[i] == n;
            if i < d.len() {
                assert(d[i] == n);
            }
        }
        assert forall|n: NodeModel| #[trigger] d.contains(n) implies nodes.contains(n) by {
            let i = choose|i: int| 0 <= i < d.len() && d[i] == n;
            assert(nodes[i] == n);
        }
    }
}

proof fn lemma_define_kept(nodes: Seq<NodeModel>, k: nat, c: int)
    requires
        0 <= c < k <= nodes.len(),
        nodes[c].label != NodeLabel::File,
        graph::file_id(nodes, nodes[c].file_path) is Some,
    ensures
        graph::has_key(
            graph::define_edges(nodes, k),
            graph::defines_edge(
                graph::file_id(nodes, nodes[c].file_path)->0,
                nodes[c],
            ).key(),
        ),
    decreases k,
{
    let e = graph::defines_edge(graph::file_id(nodes, nodes[c].file_path)->0, nodes[c]);
    let done = graph::define_edges(nodes, (k - 1) as nat);
    let now = graph::define_edges(nodes, k);
    if c < k - 1 {
        lemma_define_kept(nodes, (k - 1) as nat, c);
        let i = choose|i: int| 0 <= i < done.len() && (#[trigger] done[i]).key() == e.key();
        assert(now[i] == done[i]);
    } else if !graph::has_key(done, e.key()) {
        assert(now[done.len() as int] == e);
    } else {
        assert(now == done);
    }
}

/// A file defines each node that has its path and is no file, and nothing else;
/// an edge is that of a definition or that of a call.
pub proof fn law_files_define_their_symbols(nodes: Seq<NodeModel>, calls: Seq<CallModel>)
    ensures
        forall|e: EdgeModel| #[trigger]
            graph::built_edges(nodes, calls).contains(e) ==> e.relation == EdgeRelation::Calls
                || e.relation == EdgeRelation::Defines,
        forall|e: EdgeModel| #[trigger]
            graph::built_edges(nodes, calls).contains(e) && e.relation == EdgeRelation::Defines
                ==> exists|f: NodeModel, n: NodeModel| #[trigger]
                nodes.contains(f) && #[trigger] nodes.contains(n) && f.label == NodeLabel::File
                    && n.label != NodeLabel::File && f.file_path == n.file_path && e.src == f.id
                    && e.dst == n.id && e.src_file == n.file_path && e.src_line == n.line_start,
        forall|f: NodeModel, n: NodeModel| #[trigger]
            nodes.contains(f) && #[trigger] nodes.contains(n) && f.label == NodeLabel::File
                && n.label != NodeLabel::File && f.file_path == n.file_path && (forall|
                g: NodeModel,
            | #[trigger]
                nodes.contains(g) && g.label == NodeLabel::File && g.file_path == f.file_path
                    ==> g.id == f.id) ==> exists|e: EdgeModel| #[trigger]
                graph::built_edges(nodes, calls).contains(e) && e.relation
                    == EdgeRelation::Defines && e.src == f.id && e.dst == n.id,
{
    let all = graph::built_edges(nodes, calls);
    let base = graph::define_edges(nodes, nodes.len());
    lemma_call_origin(nodes, calls, base, calls.len());
    assert forall|e: EdgeModel| #[trigger] all.contains(e) implies (e.relation
        == EdgeRelation::Calls || e.relation == EdgeRelation::Defines) && (e.relation
        == EdgeRelation::Defines ==> exists|f: NodeModel, n: NodeModel| #[trigger]
        nodes.contains(f) && #[trigger] nodes.contains(n) && f.label == NodeLabel::File && n.label
            != NodeLabel::File && f.file_path == n.file_path && e.src == f.id && e.dst == n.id
            && e.src_file == n.file_path && e.src_line == n.line_start) by {
        let i = choose|i: int| 0 <= i < all.len() && all[i] == e;
        law_edges_have_an_origin(nodes, calls, i);
        if from_file(nodes, e) {
            let k = choose|k: int|
                0 <= k < nodes.len() && (#[trigger] nodes[k]).label != NodeLabel::File
                    && match graph::file_id(nodes, nodes[k].file_path) {
                    Some(f) => e == graph::defines_edge(f, nodes[k]),
                    None => false,
                };
            lemma_found_file(nodes, nodes[k].file_path);
            assert(nodes.contains(nodes[k]));
        }
    }
    assert forall|f: NodeModel, n: NodeModel| #[trigger]
        nodes.contains(f) && #[trigger] nodes.contains(n) && f.label == NodeLabel::File && n.label
            != NodeLabel::File && f.file_path == n.file_path && (forall|g: NodeModel| #[trigger]
            nodes.contains(g) && g.label == NodeLabel::File && g.file_path == f.file_path ==> g.id
                == f.id) implies exists|e: EdgeModel| #[trigger]
        all.contains(e) && e.relation == EdgeRelation::Defines && e.src == f.id && e.dst
            == n.id by {
        lemma_found_file(nodes, n.file_path);
        let k = choose|k: int| 0 <= k < nodes.len() && nodes[k] == n;
        lemma_define_kept(nodes, nodes.len(), k);
        let key = graph::defines_edge(graph::file_id(nodes, n.file_path)->0, n).key();
        let i = choose|i: int| 0 <= i < base.len() && (#[trigger] base[i]).key() == key;
        assert(all[i] == base[i]);
        assert(all.contains(all[i]));
    }
}

proof fn lemma_outgoing(
    edges: Seq<(nat, nat, Seq<char>)>,
    n: nat,
    relation: Seq<char>,
    x: nat,
)
    ensures
        graph::outgoing(edges, n, relation).contains(x) == edges.contains((n, x, relation)),
    decreases edges.len(),
{
    if edges.len() > 0 {
        let d = edges.drop_last();
        let rest = graph::outgoing(d, n, relation);
        let all = graph::outgoing(edges, n, relation);
        lemma_outgoing(d, n, relation, x);
        assert(edges[edges.len() - 1] == edges.last());
        assert(edges.contains((n, x, relation)) == (edges.last() == (n, x, relation) || d.contains(
            (n, x, relation),
        ))) by {
            if edges.contains((n, x, relation)) {
                let i = choose|i: int| 0 <= i < edges.len() && edges[i] == (n, x, relation);
                if i < d.len() {
                    assert(d[i] == (n, x, relation));
                }
            }
            if d.contains((n, x, relation)) {
                let i = choose|i: int| 0 <= i < d.len() && d[i] == (n, x, relation);
                assert(edges[i] == (n, x, relation));
            }
        }
        if edges.last().0 == n && edges.last().2 == relation {
            assert(all[0] == edges.last().1);
            if rest.contains(x) {
                let i = choose|i: int| 0 <= i < rest.len() && rest[i] == x;
                assert(all[i + 1] == x);
            }
            if all.contains(x) {
                let i = choose|i: int| 0 <= i < all.len() && all[i] == x;
                if i > 0 {
                    assert(rest[i - 1] == x);
                }
            }
        }
    }
}

proof fn lemma_loaded_has(
    nodes: Seq<NodeModel>,
    edges: Seq<EdgeModel>,
    x: nat,
    y: nat,
    relation: Seq<char>,
)
    ensures
        graph::loaded_edges(nodes, edges).contains((x, y, relation)) == (exists|e: EdgeModel|
         #[trigger]
            edges.contains(e) && graph::index_of(nodes, e.src) == Some(x) && graph::index_of(
                nodes,
                e.dst,
            ) == Some(y) && e.relation.text() == relation),
    decreases edges.len(),
{
    let all = graph::loaded_edges(nodes, edges);
    let t = (x, y, relation);
    if edges.len() > 0 {
        let d = edges.drop_last();
        let last = edges.last();
        let rest = graph::loaded_edges(nodes, d);
        lemma_loaded_has(nodes, d, x, y, relation);
        assert(edges[edges.len() - 1] == last);
        assert(edges.contains(last));
        assert forall|e: EdgeModel| #[trigger] edges.contains(e) implies e == last || d.contains(
            e,
        ) by {
            let i = choose|i: int| 0 <= i < edges.len() && edges[i] == e;
            if i < d.len() {
                assert(d[i] == e);
            }
        }
        assert forall|e: EdgeModel| #[trigger] d.contains(e) implies edges.contains(e) by {
            let i = choose|i: int| 0 <= i < d.len() && d[i] == e;
            assert(edges[i] == e);
        }
        if rest.contains(t) {
            let i = choose|i: int| 0 <= i < rest.len() && rest[i] == t;
            assert(all[i] == t);
        }
        if all.contains(t) && !rest.contains(t) {
            let i = choose|i: int| 0 <= i < all.len() && all[i] == t;
            if i < rest.len() {
                assert(rest[i] == t);
            }
        }
        if graph::index_of(nodes, last.src) == Some(x) && graph::index_of(nodes, last.dst)
            == Some(y) && last.relation.text() == relation {
            assert(all[rest.len() as int] == t);
        }
    } else {
        assert(all.len() == 0);
    }
}

/// Of nodes with different ids, what a node calls are the nodes to which an edge
/// of a call leads from it.
pub proof fn law_callees_are_called(
    nodes: Seq<NodeModel>,
    edges: Seq<EdgeModel>,
    of: Seq<char>,
    id: Seq<char>,
)
    requires
        ids_apart(nodes),
        has_node(nodes, of),
    ensures
        ({
            let m = graph::loaded(nodes, edges);
            &&& m.index.contains_key(of)
            &&& graph::ids_at(m, graph::outgoing(m.edges, m.index[of], "Calls"@)).contains(id)
                == (has_node(nodes, id) && exists|e: EdgeModel| #[trigger]
                edges.contains(e) && e.relation == EdgeRelation::Calls && e.src == of && e.dst
                    == id)
        }),
{
    let m = graph::loaded(nodes, edges);
    lemma_place(nodes, of);
    let x = m.index[of];
    let out = graph::outgoing(m.edges, x, "Calls"@);
    let r = graph::ids_at(m, out);
    assert forall|e: EdgeModel| e.relation.text() == "Calls"@ implies #[trigger] e.relation
        == EdgeRelation::Calls by {
        types::law_edge_relation_names_distinct(e.relation, EdgeRelation::Calls);
    }
    if r.contains(id) {
        let k = choose|k: int| 0 <= k < r.len() && r[k] == id;
        let y = out[k];
        assert(out.contains(y));
        lemma_outgoing(m.edges, x, "Calls"@, y);
        lemma_loaded_has(nodes, edges, x, y, "Calls"@);
        let e = choose|e: EdgeModel| #[trigger]
            edges.contains(e) && graph::index_of(nodes, e.src) == Some(x) && graph::index_of(
                nodes,
                e.dst,
            ) == Some(y) && e.relation.text() == "Calls"@;
        lemma_place(nodes, e.src);
        lemma_place(nodes, e.dst);
        lemma_own_place(nodes, y);
        assert(m.ids[y as int] == nodes[y as int].id);
        assert(e.relation == EdgeRelation::Calls);
    }
    if has_node(nodes, id) && exists|e: EdgeModel| #[trigger]
        edges.contains(e) && e.relation == EdgeRelation::Calls && e.src == of && e.dst == id {
        let e = choose|e: EdgeModel| #[trigger]
            edges.contains(e) && e.relation == EdgeRelation::Calls && e.src == of && e.dst == id;
        lemma_place(nodes, id);
        let y = graph::index_of(nodes, id)->0;
        lemma_own_place(nodes, y);
        lemma_loaded_has(nodes, edges, x, y, "Calls"@);
        lemma_outgoing(m.edges, x, "Calls"@, y);
        let k = choose|k: int| 0 <= k < out.len() && out[k] == y;
        assert(r[k] == m.ids[y as int]);
    }
}

proof fn lemma_walk_by_id(
    nodes: Seq<NodeModel>,
    edges: Seq<EdgeModel>,
    w: Seq<nat>,
    x: nat,
    t: nat,
)
    requires
        ids_apart(nodes),
        x < nodes.len(),
        t < nodes.len(),
        graph::leads(graph::loaded_edges(nodes, edges), w, x, t),
    ensures
        id_walk(
            nodes,
            edges,
            graph::ids_at(graph::loaded(nodes, edges), w),
            nodes[x as int].id,
            nodes[t as int].id,
        ),
{
    let m = graph::loaded(nodes, edges);
    let v = graph::ids_at(m, w);
    assert forall|i: int| 0 <= i < w.len() implies #[trigger] w[i] < nodes.len() && v[i]
        == nodes[w[i] as int].id by {
        if i < w.len() - 1 {
            assert(graph::linked(m.edges, w[i], w[i + 1]));
            lemma_linked_is_edge(nodes, edges, w[i], w[i + 1]);
        }
        lemma_own_place(nodes, w[i]);
    }
    assert forall|i: int| 0 <= i < v.len() - 1 implies edge_between(
        nodes,
        edges,
        #[trigger] v[i],
        v[i + 1],
    ) by {
        assert(graph::linked(m.edges, w[i], w[i + 1]));
        lemma_linked_is_edge(nodes, edges, w[i], w[i + 1]);
        assert(w[i + 1] < nodes.len());
    }
}

/// Of nodes with different ids, a path between two of them goes over edges in
/// their direction from the first to the second, and no other is shorter.
pub proof fn law_shortest_path_follows_the_edges(
    nodes: Seq<NodeModel>,
    edges: Seq<EdgeModel>,
    a: Seq<char>,
    b: Seq<char>,
    w: Seq<nat>,
)
    requires
        ids_apart(nodes),
        has_node(nodes, a),
        has_node(nodes, b),
    ensures
        ({
            let m = graph::loaded(nodes, edges);
            let path = graph::ids_at(m, w);
            &&& graph::is_shortest(m.edges, w, m.index[a], m.index[b]) ==> id_walk(
                nodes,
                edges,
                path,
                a,
                b,
            ) && forall|v: Seq<Seq<char>>| #[trigger]
                id_walk(nodes, edges, v, a, b) ==> path.len() <= v.len()
            &&& (forall|v: Seq<nat>| !#[trigger] graph::leads(m.edges, v, m.index[a], m.index[b]))
                ==> forall|v: Seq<Seq<char>>| !#[trigger] id_walk(nodes, edges, v, a, b)
        }),
{
    let m = graph::loaded(nodes, edges);
    let path = graph::ids_at(m, w);
    lemma_place(nodes, a);
    lemma_place(nodes, b);
    let (x, t) = (m.index[a], m.index[b]);
    assert forall|v: Seq<Seq<char>>| #[trigger] id_walk(nodes, edges, v, a, b) implies exists|
        u: Seq<nat>,
    | #[trigger] graph::leads(m.edges, u, x, t) && u.len() <= v.len() by {
        let d = (v.len() - 1) as nat;
        assert(is_within(nodes, edges, a, b, d));
        lemma_reach_by_id(nodes, edges, x, t, d);
        let u = choose|u: Seq<nat>| #[trigger] graph::leads(m.edges, u, x, t) && u.len() <= d + 1;
        assert(graph::leads(m.edges, u, x, t) && u.len() <= v.len());
    }
    if graph::is_shortest(m.edges, w, x, t) {
        lemma_walk_by_id(nodes, edges, w, x, t);
        assert forall|v: Seq<Seq<char>>| #[trigger] id_walk(
            nodes,
            edges,
            v,
            a,
            b,
        ) implies path.len() <= v.len() by {
            let u = choose|u: Seq<nat>| #[trigger]
                graph::leads(m.edges, u, x, t) && u.len() <= v.len();
            assert(w.len() <= u.len());
        }
    }
}

} // verus!
