//! What is drawn of a graph and listed in a report, and what a question about
//! code is given.

use vstd::prelude::*;
use vstd::string::*;

use crate::explorer;
use crate::llm;
use crate::llm::ServerModel;
use crate::order;
use crate::query;
use crate::report;
use crate::rows;
use crate::text;
use crate::types::{EdgeModel, EdgeRelation, NodeLabel, NodeModel};
use crate::viz;
use crate::viz::ScoredModel;
use crate::words;

verus! {

pub proof fn lemma_hub_order()
    ensures
        order::is_order(viz::hub_order()),
{
    let before = viz::hub_order();
    assert forall|a: ScoredModel, b: ScoredModel| #[trigger] before(a, b) implies !before(b, a) by {
        order::lemma_text_asymmetric(a.node.id, b.node.id);
    }
    assert forall|a: ScoredModel, b: ScoredModel, c: ScoredModel|
        #![trigger before(a, b), before(a, c)]
        #![trigger before(a, b), before(c, b)]
        before(a, b) implies before(a, c) || before(c, b) by {
        if a.score == b.score && a.score == c.score {
            order::lemma_text_between(a.node.id, b.node.id, c.node.id);
        }
    }
}

/// What is drawn are the symbols, which are neither files nor documents: those
/// with the highest page rank first, as many as are asked for, or all where none
/// are.
pub proof fn law_central_symbols_are_drawn(nodes: Seq<NodeModel>, limit: nat)
    ensures
        ({
            let r = explorer::drawn_nodes(nodes, limit);
            &&& limit > 0 ==> r.len() <= limit
            &&& forall|s: ScoredModel| #[trigger]
                r.contains(s) ==> nodes.contains(s.node) && s.score == s.node.pagerank
                    && s.node.label != NodeLabel::File && s.node.label != NodeLabel::Document
            &&& forall|i: int, j: int|
                0 <= i < j < r.len() ==> (#[trigger] r[i]).score >= (#[trigger] r[j]).score
            &&& limit == 0 || r.len() < limit ==> forall|n: NodeModel| #[trigger]
                nodes.contains(n) && n.label != NodeLabel::File && n.label != NodeLabel::Document
                    ==> r.contains(ScoredModel { node: n, score: n.pagerank })
        }),
{
    let found = rows::kept(nodes, explorer::symbols());
    let g = explorer::by_rank();
    let all = found.map_values(g);
    let before = viz::hub_order();
    let sorted = order::arranged(all, before);
    let r = explorer::drawn_nodes(nodes, limit);
    rows::lemma_kept(nodes, explorer::symbols());
    lemma_hub_order();
    order::law_arranged(all, before);
    order::lemma_same_items(all, before);
    assert forall|i: int| 0 <= i < r.len() implies #[trigger] r[i] == sorted[i] by {}
    assert forall|s: ScoredModel| #[trigger] r.contains(s) implies nodes.contains(s.node) && s.score
        == s.node.pagerank && s.node.label != NodeLabel::File && s.node.label
        != NodeLabel::Document by {
        let i = choose|i: int| 0 <= i < r.len() && r[i] == s;
        assert(sorted.contains(sorted[i]));
        assert(all.contains(s));
        let k = choose|k: int| 0 <= k < all.len() && all[k] == s;
        assert(s == g(found[k]));
        assert(found.contains(found[k]));
    }
    assert forall|i: int, j: int| 0 <= i < j < r.len() implies (#[trigger] r[i]).score >= (
    #[trigger] r[j]).score by {
        assert(!before(sorted[j], sorted[i]));
    }
    if limit == 0 || r.len() < limit {
        assert(r =~= sorted);
        assert forall|n: NodeModel| #[trigger]
            nodes.contains(n) && n.label != NodeLabel::File && n.label
                != NodeLabel::Document implies r.contains(
            ScoredModel { node: n, score: n.pagerank },
        ) by {
            assert(found.contains(n));
            let k = choose|k: int| 0 <= k < found.len() && found[k] == n;
            assert(all[k] == g(n));
            assert(all.contains(g(n)));
            assert(sorted.contains(g(n)));
        }
    }
}

/// The relations that are drawn, each with its number.
pub open spec fn is_drawn_as(r: EdgeRelation, k: nat) -> bool {
    ||| k == 0 && r == EdgeRelation::Calls
    ||| k == 1 && r == EdgeRelation::Inherits
    ||| k == 2 && r == EdgeRelation::Implements
    ||| k == 3 && r == EdgeRelation::HttpCalls
    ||| k == 4 && r == EdgeRelation::Tests
}

proof fn lemma_place_in(picked: Seq<ScoredModel>, id: Seq<char>)
    ensures
        match explorer::place_in(picked, id) {
            Some(k) => k < picked.len() && picked[k as int].node.id == id,
            None => forall|k: int| 0 <= k < picked.len() ==> (#[trigger] picked[k]).node.id != id,
        },
    decreases picked.len(),
{
    if picked.len() > 0 {
        let d = picked.drop_last();
        lemma_place_in(d, id);
        if picked.last().node.id != id {
            assert forall|k: int| 0 <= k < d.len() implies #[trigger] d[k] == picked[k] by {}
            if explorer::place_in(d, id) is None {
                assert forall|k: int| 0 <= k < picked.len() implies (#[trigger] picked[k]).node.id
                    != id by {
                    if k < d.len() {
                        assert(d[k].node.id != id);
                    }
                }
            }
        }
    }
}

/// Of symbols with different ids, an edge is drawn from the one to the other just
/// where one of a relation that is drawn leads from it to the other.
pub proof fn law_edges_are_drawn_between_symbols(
    picked: Seq<ScoredModel>,
    edges: Seq<EdgeModel>,
    s: nat,
    t: nat,
    k: nat,
)
    requires
        s < picked.len(),
        t < picked.len(),
        forall|i: int, j: int|
            0 <= i < j < picked.len() ==> (#[trigger] picked[i]).node.id != (
            #[trigger] picked[j]).node.id,
    ensures
        explorer::drawn_edges(picked, edges).contains((s, t, k)) <==> exists|e: EdgeModel|
         #[trigger]
            edges.contains(e) && is_drawn_as(e.relation, k) && e.src == picked[s as int].node.id
                && e.dst == picked[t as int].node.id,
    decreases edges.len(),
{
    let all = explorer::drawn_edges(picked, edges);
    let x = (s, t, k);
    if edges.len() > 0 {
        let d = edges.drop_last();
        let last = edges.last();
        let rest = explorer::drawn_edges(picked, d);
        law_edges_are_drawn_between_symbols(picked, d, s, t, k);
        assert(edges[edges.len() - 1] == last);
        assert(edges.contains(last));
        assert forall|e: EdgeModel| #[trigger] edges.contains(e) implies e == last || d.contains(
            e,
        ) by {
            let i = choose|i: int| 0 <= i < edges.len() && edges[i] == e;
            if i < d.len() {
                assert(d[i] == e);
            }
        }
        assert forall|e: EdgeModel| #[trigger] d.contains(e) implies edges.contains(e) by {
            let i = choose|i: int| 0 <= i < d.len() && d[i] == e;
            assert(edges[i] == e);
        }
        lemma_place_in(picked, last.src);
        lemma_place_in(picked, last.dst);
        assert((explorer::drawn_edge(picked, last) == Some(x)) == (is_drawn_as(last.relation, k)
            && last.src == picked[s as int].node.id && last.dst == picked[t as int].node.id)) by {
            if last.src == picked[s as int].node.id {
                let a = explorer::place_in(picked, last.src);
                assert(a is Some);
                assert(picked[a->0 as int].node.id == picked[s as int].node.id);
                assert(a->0 == s);
            }
            if last.dst == picked[t as int].node.id {
                let b = explorer::place_in(picked, last.dst);
                assert(b is Some);
                assert(picked[b->0 as int].node.id == picked[t as int].node.id);
                assert(b->0 == t);
            }
        }
        if rest.contains(x) {
            let i = choose|i: int| 0 <= i < rest.len() && rest[i] == x;
            assert(all[i] == x);
        }
        if explorer::drawn_edge(picked, last) == Some(x) {
            assert(all[rest.len() as int] == x);
        }
        if all.contains(x) {
            let i = choose|i: int| 0 <= i < all.len() && all[i] == x;
            if i < rest.len() {
                assert(rest[i] == x);
                assert(rest.contains(x));
            }
        }
    }
}

/// The functions worth a look are those that are called: the report has ten of
/// them at most, those first that are called most often for how complex they
/// are.
pub proof fn law_hot_functions_come_first(nodes: Seq<NodeModel>)
    ensures
        ({
            let r = rows::limited(
                order::arranged(rows::kept(nodes, report::is_hot()), report::heat_order()),
                10,
            );
            &&& r.len() <= 10
            &&& forall|n: NodeModel| #[trigger]
                r.contains(n) ==> nodes.contains(n) && (n.label == NodeLabel::Function || n.label
                    == NodeLabel::Method) && viz::meta_number(n, "fan_in"@) > 0
            &&& forall|i: int, j: int|
                0 <= i < j < r.len() ==> viz::meta_number(#[trigger] r[i], "fan_in"@) * (1
                    + viz::meta_number(r[i], "complexity"@)) >= viz::meta_number(
                    #[trigger] r[j],
                    "fan_in"@,
                ) * (1 + viz::meta_number(r[j], "complexity"@))
        }),
{
    let found = rows::kept(nodes, report::is_hot());
    let before = report::heat_order();
    let sorted = order::arranged(found, before);
    let r = rows::limited(sorted, 10);
    rows::lemma_kept(nodes, report::is_hot());
    assert(order::is_order(before)) by {
        assert forall|a: NodeModel, b: NodeModel| #[trigger] before(a, b) implies !before(b, a) by {
            order::lemma_text_asymmetric(a.id, b.id);
        }
        assert forall|a: NodeModel, b: NodeModel, c: NodeModel|
            #![trigger before(a, b), before(a, c)]
            #![trigger before(a, b), before(c, b)]
            before(a, b) implies before(a, c) || before(c, b) by {
            if report::heat(a) == report::heat(b) && report::heat(a) == report::heat(c) {
                order::lemma_text_between(a.id, b.id, c.id);
            }
        }
    }
    order::law_arranged(found, before);
    order::lemma_same_items(found, before);
    assert forall|n: NodeModel| report::heat(n) == #[trigger] viz::meta_number(n, "fan_in"@) * (1
        + viz::meta_number(n, "complexity"@)) by {
        let (a, b) = (viz::meta_number(n, "fan_in"@) as int, 1 + viz::meta_number(n, "complexity"@));
        assert(a * b >= 0) by (nonlinear_arith)
            requires
                a >= 0,
                b >= 0,
        ;
    }
    assert forall|n: NodeModel| #[trigger] r.contains(n) implies nodes.contains(n) && (n.label
        == NodeLabel::Function || n.label == NodeLabel::Method) && viz::meta_number(n, "fan_in"@)
        > 0 by {
        let i = choose|i: int| 0 <= i < r.len() && r[i] == n;
        assert(sorted[i] == n);
        assert(sorted.contains(n));
        assert(found.contains(n));
        let (a, b) = (viz::meta_number(n, "fan_in"@) as int, 1 + viz::meta_number(n, "complexity"@));
        assert(report::heat(n) > 0);
        assert(a * b > 0 ==> a > 0) by (nonlinear_arith)
            requires
                a >= 0,
                b >= 0,
        ;
    }
    assert forall|i: int, j: int| 0 <= i < j < r.len() implies viz::meta_number(
        #[trigger] r[i],
        "fan_in"@,
    ) * (1 + viz::meta_number(r[i], "complexity"@)) >= viz::meta_number(
        #[trigger] r[j],
        "fan_in"@,
    ) * (1 + viz::meta_number(r[j], "complexity"@)) by {
        assert(r[i] == sorted[i] && r[j] == sorted[j]);
        assert(!before(sorted[j], sorted[i]));
        assert(report::heat(r[i]) >= report::heat(r[j]));
    }
}

/// The lines of a symbol are those from its first to its last: one at least, and
/// no more than are wanted or there are. There are none where the text does not
/// reach so far.
pub proof fn law_lines_of_a_symbol(content: Seq<char>, start: u32, end: u32, most: nat)
    requires
        1 <= start <= end,
    ensures
        ({
            let lines = text::lines(content);
            let s = start - 1;
            let n = if end - s < most {
                end - s
            } else {
                most as int
            };
            let e = if n < 1 {
                s + 1
            } else if s + n < lines.len() {
                s + n
            } else {
                lines.len() as int
            };
            query::snippet_of(content, start, end, most) == (if s >= lines.len() {
                None
            } else {
                Some(text::join(lines.subrange(s, e), "\n"@))
            })
        }),
{
}

/// The model that is talked to is the one that is asked for. Where none is, it is
/// the first that is there to talk to; one that embeds or ranks is taken only
/// where there is no other.
pub proof fn law_model_to_talk_to(models: Seq<Seq<char>>, default: Seq<char>, m: Seq<char>, k: int)
    ensures
        llm::chat_model(models, Some(m), default) == m,
        models.len() == 0 ==> llm::chat_model(models, None, default) == default,
        models.len() > 0 && (forall|j: int|
            0 <= j < models.len() ==> text::has_text(
                words::lowercase(#[trigger] models[j]),
                "embed"@,
            ) || text::has_text(words::lowercase(models[j]), "rerank"@)) ==> llm::chat_model(
            models,
            None,
            default,
        ) == models[0],
        0 <= k < models.len() && !text::has_text(words::lowercase(models[k]), "embed"@)
            && !text::has_text(words::lowercase(models[k]), "rerank"@) && (forall|j: int|
            0 <= j < k ==> text::has_text(words::lowercase(#[trigger] models[j]), "embed"@)
                || text::has_text(words::lowercase(models[j]), "rerank"@)) ==> llm::chat_model(
            models,
            None,
            default,
        ) == models[k],
        llm::embedding_model(models, Some(m)) == Some(m),
        0 <= k < models.len() && text::has_text(words::lowercase(models[k]), "embed"@) && (forall|
            j: int,
        | 0 <= j < k ==> !text::has_text(words::lowercase(#[trigger] models[j]), "embed"@))
            ==> llm::embedding_model(models, None) == Some(models[k]),
        (forall|j: int|
            0 <= j < models.len() ==> !text::has_text(
                words::lowercase(#[trigger] models[j]),
                "embed"@,
            )) ==> llm::embedding_model(models, None) is None,
{
    rows::lemma_first_at(models, llm::is_chat());
    rows::lemma_first_at(models, llm::is_embedder());
    if 0 <= k < models.len() && !text::has_text(words::lowercase(models[k]), "embed"@)
        && !text::has_text(words::lowercase(models[k]), "rerank"@) && (forall|j: int|
        0 <= j < k ==> text::has_text(words::lowercase(#[trigger] models[j]), "embed"@)
            || text::has_text(words::lowercase(models[j]), "rerank"@)) {
        assert(llm::is_chat()(models[k]));
        assert forall|j: int| 0 <= j < k implies !llm::is_chat()(#[trigger] models[j]) by {}
        rows::lemma_first_is(models, llm::is_chat(), k);
    }
    if 0 <= k < models.len() && text::has_text(words::lowercase(models[k]), "embed"@) && (forall|
        j: int,
    | 0 <= j < k ==> !text::has_text(words::lowercase(#[trigger] models[j]), "embed"@)) {
        assert(llm::is_embedder()(models[k]));
        assert forall|j: int| 0 <= j < k implies !llm::is_embedder()(#[trigger] models[j]) by {}
        rows::lemma_first_is(models, llm::is_embedder(), k);
    }
}

/// A server is asked where it takes no key or where its key is there, in the
/// order in which they stand.
pub proof fn law_servers_are_asked_with_their_keys(
    servers: Seq<ServerModel>,
    keys: Seq<bool>,
    k: nat,
)
    requires
        k <= servers.len(),
    ensures
        ({
            let r = llm::probes(servers, keys, k);
            &&& forall|i: nat| #[trigger]
                r.contains(i) <==> i < k && (servers[i as int].api_key_env is None || keys[i as int])
            &&& forall|a: int, b: int| 0 <= a < b < r.len() ==> #[trigger] r[a] < #[trigger] r[b]
        }),
    decreases k,
{
    let r = llm::probes(servers, keys, k);
    if k > 0 {
        let b = llm::probes(servers, keys, (k - 1) as nat);
        law_servers_are_asked_with_their_keys(servers, keys, (k - 1) as nat);
        if servers[k - 1].api_key_env is None || keys[k - 1] {
            assert(r[b.len() as int] == k - 1);
            assert forall|i: nat| #[trigger] r.contains(i) <==> i < k && (servers[i as int].api_key_env
                is None || keys[i as int]) by {
                if r.contains(i) {
                    let q = choose|q: int| 0 <= q < r.len() && r[q] == i;
                    if q < b.len() {
                        assert(b[q] == i);
                        assert(b.contains(i));
                    }
                }
                if b.contains(i) {
                    let q = choose|q: int| 0 <= q < b.len() && b[q] == i;
                    assert(r[q] == i);
                }
            }
            assert forall|x: int, y: int| 0 <= x < y < r.len() implies #[trigger] r[x]
                < #[trigger] r[y] by {
                assert(b.contains(b[x]));
                if y < b.len() {
                    assert(r[x] == b[x] && r[y] == b[y]);
                }
            }
        }
    }
}

} // verus!
