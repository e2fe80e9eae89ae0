//! What the lists that an agent asks for hold.

use vstd::prelude::*;
use vstd::string::*;

use crate::answer_laws;
use crate::changes;
use crate::changes::{ChangeFault, ChangeKind, ChangeModel};
use crate::graph;
use crate::order;
use crate::review;
use crate::review_laws;
use crate::rows;
use crate::store;
use crate::store::StoreModel;
use crate::store_queries;
use crate::tables::CallRowModel;
use crate::text;
use crate::tools_lists;
use crate::tools_lists::{ContextModel, TouchedModel};
use crate::types;
use crate::types::{NodeLabel, NodeModel};

verus! {

proof fn lemma_name_order()
    ensures
        order::is_order(tools_lists::name_order()),
{
    let before = tools_lists::name_order();
    assert forall|a: NodeModel, b: NodeModel| #[trigger] before(a, b) implies !before(b, a) by {
        order::lemma_text_asymmetric(a.name, b.name);
    }
    assert forall|a: NodeModel, b: NodeModel, c: NodeModel|
        #![trigger before(a, b), before(a, c)]
        #![trigger before(a, b), before(c, b)]
        before(a, b) implies before(a, c) || before(c, b) by {
        order::lemma_text_between(a.name, b.name, c.name);
    }
}

proof fn lemma_kept_in_order(
    s: Seq<NodeModel>,
    test: spec_fn(NodeModel) -> bool,
    before: spec_fn(NodeModel, NodeModel) -> bool,
)
    requires
        order::is_arranged(s, before),
    ensures
        order::is_arranged(rows::kept(s, test), before),
    decreases s.len(),
{
    if s.len() > 0 {
        let d = s.drop_last();
        assert forall|i: int, j: int| 0 <= i < j < d.len() implies !before(
            #[trigger] d[j],
            #[trigger] d[i],
        ) by {
            assert(d[i] == s[i] && d[j] == s[j]);
        }
        lemma_kept_in_order(d, test, before);
        rows::lemma_kept(d, test);
        let k = rows::kept(d, test);
        let all = rows::kept(s, test);
        assert forall|i: int, j: int| 0 <= i < j < all.len() implies !before(
            #[trigger] all[j],
            #[trigger] all[i],
        ) by {
            if j < k.len() {
                assert(all[i] == k[i] && all[j] == k[j]);
            } else {
                assert(all[i] == k[i] && all[j] == s[s.len() - 1]);
                assert(d.contains(k[i]));
                let m = choose|m: int| 0 <= m < d.len() && d[m] == k[i];
                assert(s[m] == k[i]);
            }
        }
    }
}

/// The routes that are asked for are the nodes of routes whose path begins as
/// asked and whose method is the one asked for, by name. Each tells its method,
/// its path, its handler and where it stands.
pub proof fn law_routes_are_those_asked_for(
    s: StoreModel,
    prefix: Option<Seq<char>>,
    method: Option<Seq<char>>,
)
    ensures
        ({
            let r = tools_lists::wanted_routes(s, prefix, method);
            &&& forall|n: NodeModel| #[trigger]
                r.contains(n) <==> s.nodes.contains(n) && n.label == NodeLabel::Route && (
                prefix matches Some(p) ==> p.is_prefix_of(
                    tools_lists::route_of()(n).path,
                )) && (method matches Some(m) ==> tools_lists::route_of()(n).method
                    == text::upper(m))
            &&& forall|i: int, j: int|
                0 <= i < j < r.len() ==> !text::text_less(
                    (#[trigger] r[j]).name,
                    (#[trigger] r[i]).name,
                )
            &&& forall|n: NodeModel| #[trigger]
                r.contains(n) ==> ({
                    let x = tools_lists::route_of()(n);
                    &&& x.file == n.file_path && x.line == n.line_start
                    &&& types::meta_text(n.metadata, "path"@) matches Some(t) ==> x.path == t
                    &&& types::meta_text(n.metadata, "method"@) matches Some(t) ==> x.method == t
                    &&& types::meta_text(n.metadata, "handler"@) matches Some(t) ==> x.handler == t
                })
        }),
{
    let before = tools_lists::name_order();
    let label = store::node_labelled(NodeLabel::Route);
    let found = rows::kept(s.nodes, label);
    let sorted = order::arranged(found, before);
    let want = tools_lists::is_wanted(prefix, method);
    let r = rows::kept(sorted, want);
    rows::lemma_kept(s.nodes, label);
    rows::lemma_kept(sorted, want);
    lemma_name_order();
    order::law_arranged(found, before);
    order::lemma_same_items(found, before);
    lemma_kept_in_order(sorted, want, before);
    assert forall|i: int, j: int| 0 <= i < j < r.len() implies !text::text_less(
        (#[trigger] r[j]).name,
        (#[trigger] r[i]).name,
    ) by {
        assert(!before(r[j], r[i]));
    }
}

/// A page of a list is what stands in it from a place on, up to a number.
pub proof fn law_page_is_a_part<M>(s: Seq<M>, offset: nat, limit: nat)
    ensures
        ({
            let p = tools_lists::page(s, offset, limit);
            &&& p.len() == (if offset >= s.len() {
                0
            } else if s.len() - offset < limit {
                (s.len() - offset) as nat
            } else {
                limit
            })
            &&& forall|i: int| 0 <= i < p.len() ==> #[trigger] p[i] == s[offset + i]
        }),
{
}

/// What an agent is told of a symbol that a diff touches: how many call sites
/// have its name, and whether it is tested. Ten call sites without a test are a
/// high risk, and fewer than three, or fewer than ten with a test, a low one.
pub proof fn law_touched_symbol_is_weighed(s: StoreModel, n: NodeModel)
    ensures
        ({
            let t = tools_lists::touched(s)(n);
            &&& t.name == n.name && t.file == n.file_path && t.line == n.line_start
            &&& t.fan_in == rows::kept(
                s.calls,
                |c: CallRowModel| c.call.callee_name == n.name,
            ).len()
            &&& t.tested == store_queries::is_tested(s, n.name)
            &&& t.risk == "HIGH"@ <==> t.fan_in >= 10 && !t.tested
            &&& t.risk == "low"@ <==> t.fan_in < 3 || (t.fan_in < 10 && t.tested)
            &&& t.risk == "MED"@ || t.risk == "HIGH"@ || t.risk == "low"@
            &&& tools_lists::weight(t) == (if t.tested {
                t.fan_in
            } else {
                3 * t.fan_in
            })
        }),
{
    reveal_strlit("HIGH");
    reveal_strlit("MED");
    reveal_strlit("low");
    assert("HIGH"@.len() == 4 && "MED"@.len() == 3 && "low"@.len() == 3);
    assert("MED"@[0] == 'M' && "low"@[0] == 'l');
    let b = |c: CallRowModel| c.call.callee_name == n.name;
    assert forall|c: CallRowModel| #[trigger] store_queries::calls_naming(n.name)(c) == b(c) by {}
    answer_laws::lemma_kept_same(s.calls, store_queries::calls_naming(n.name), b);
}

proof fn lemma_symbols_of_files(s: StoreModel, files: Seq<Seq<char>>, k: nat, n: NodeModel)
    requires
        k <= files.len(),
    ensures
        tools_lists::symbols_of_files(s, files, k).contains(n) <==> s.nodes.contains(n)
            && review_laws::is_symbol(n) && files.take(k as int).contains(n.file_path),
    decreases k,
{
    let all = tools_lists::symbols_of_files(s, files, k);
    if k > 0 {
        let rest = tools_lists::symbols_of_files(s, files, (k - 1) as nat);
        let part = review::file_symbols(s, files[k - 1]);
        let d = files.take(k - 1);
        let f = files.take(k as int);
        lemma_symbols_of_files(s, files, (k - 1) as nat, n);
        answer_laws::law_symbols_of_a_file(s, files[k - 1]);
        assert(all == rest + part);
        assert(f =~= d.push(files[k - 1]));
        assert(f[k - 1] == files[k - 1]);
        assert(f.contains(n.file_path) == (d.contains(n.file_path) || n.file_path == files[k - 1])) by {
            if d.contains(n.file_path) {
                let i = choose|i: int| 0 <= i < d.len() && d[i] == n.file_path;
                assert(f[i] == n.file_path);
            }
            if f.contains(n.file_path) {
                let i = choose|i: int| 0 <= i < f.len() && f[i] == n.file_path;
                if i < d.len() {
                    assert(d[i] == n.file_path);
                }
            }
        }
        if all.contains(n) {
            let i = choose|i: int| 0 <= i < all.len() && all[i] == n;
            if i < rest.len() {
                assert(rest[i] == n);
                assert(rest.contains(n));
            } else {
                assert(part[i - rest.len()] == n);
                assert(part.contains(n));
            }
        }
        if rest.contains(n) {
            let i = choose|i: int| 0 <= i < rest.len() && rest[i] == n;
            assert(all[i] == n);
        }
        if part.contains(n) {
            let i = choose|i: int| 0 <= i < part.len() && part[i] == n;
            assert(all[rest.len() + i] == n);
        }
    } else {
        assert(files.take(0) =~= Seq::empty());
    }
}

/// An agent is told of at most forty symbols of the changed files, those first
/// that weigh most; and of all of them where there are fewer.
pub proof fn law_changes_are_the_heaviest(s: StoreModel, files: Seq<Seq<char>>)
    ensures
        ({
            let r = rows::limited(
                order::arranged(
                    tools_lists::symbols_of_files(s, files, files.len()).map_values(
                        tools_lists::touched(s),
                    ),
                    tools_lists::weight_order(),
                ),
                40,
            );
            &&& r.len() <= 40
            &&& forall|t: TouchedModel| #[trigger]
                r.contains(t) ==> exists|n: NodeModel| #[trigger]
                    s.nodes.contains(n) && review_laws::is_symbol(n) && files.contains(n.file_path)
                        && t == tools_lists::touched(s)(n)
            &&& forall|i: int, j: int|
                0 <= i < j < r.len() ==> tools_lists::weight(#[trigger] r[i])
                    >= tools_lists::weight(#[trigger] r[j])
            &&& r.len() < 40 ==> forall|n: NodeModel| #[trigger]
                s.nodes.contains(n) && review_laws::is_symbol(n) && files.contains(n.file_path)
                    ==> r.contains(tools_lists::touched(s)(n))
        }),
{
    let syms = tools_lists::symbols_of_files(s, files, files.len());
    let g = tools_lists::touched(s);
    let all = syms.map_values(g);
    let before = tools_lists::weight_order();
    let sorted = order::arranged(all, before);
    let r = rows::limited(sorted, 40);
    assert(files.take(files.len() as int) =~= files);
    assert(order::is_order(before));
    order::law_arranged(all, before);
    order::lemma_same_items(all, before);
    assert forall|t: TouchedModel| #[trigger] r.contains(t) implies exists|n: NodeModel|
     #[trigger]
        s.nodes.contains(n) && review_laws::is_symbol(n) && files.contains(n.file_path) && t == g(
            n,
        ) by {
        let i = choose|i: int| 0 <= i < r.len() && r[i] == t;
        assert(sorted[i] == t);
        assert(sorted.contains(t));
        assert(all.contains(t));
        let k = choose|k: int| 0 <= k < all.len() && all[k] == t;
        assert(t == g(syms[k]));
        assert(syms.contains(syms[k]));
        lemma_symbols_of_files(s, files, files.len(), syms[k]);
        assert(s.nodes.contains(syms[k]));
    }
    assert forall|i: int, j: int| 0 <= i < j < r.len() implies tools_lists::weight(#[trigger] r[i])
        >= tools_lists::weight(#[trigger] r[j]) by {
        assert(r[i] == sorted[i] && r[j] == sorted[j]);
        assert(!before(sorted[j], sorted[i]));
    }
    if r.len() < 40 {
        assert forall|n: NodeModel| #[trigger]
            s.nodes.contains(n) && review_laws::is_symbol(n) && files.contains(
                n.file_path,
            ) implies r.contains(g(n)) by {
            lemma_symbols_of_files(s, files, files.len(), n);
            assert(syms.contains(n));
            let k = choose|k: int| 0 <= k < syms.len() && syms[k] == n;
            assert(all[k] == g(n));
            assert(all.contains(g(n)));
            assert(sorted.contains(g(n)));
            assert(r =~= sorted);
        }
    }
}

/// Whether a ranked id is that of a symbol.
pub open spec fn is_ranked_symbol(nodes: Seq<NodeModel>, ranked: Seq<Seq<char>>, k: int) -> bool {
    graph::node_with_id(nodes, ranked[k]) matches Some(n) && n.label != NodeLabel::File
}

/// Whether a row tells of a ranked symbol.
pub open spec fn tells_of(
    nodes: Seq<NodeModel>,
    ranked: Seq<Seq<char>>,
    contents: Seq<Option<Seq<char>>>,
    row: ContextModel,
) -> bool {
    graph::node_with_id(nodes, ranked[row.rank as int]) matches Some(n) && n.label
        != NodeLabel::File && row.name == n.name && row.label == n.label && row.file == n.file_path
        && row.line == n.line_start && row.snippet == tools_lists::signature_of(
        contents[row.rank as int],
        n.line_start,
    )
}

/// The context of a task has symbols in the order of their ranks, and none is
/// passed over: it has each that stands before the last one it has, and where it
/// is not full, each there is.
pub proof fn law_context_takes_the_best(
    nodes: Seq<NodeModel>,
    ranked: Seq<Seq<char>>,
    contents: Seq<Option<Seq<char>>>,
    budget: nat,
    k: nat,
)
    requires
        k <= ranked.len(),
    ensures
        ({
            let c = tools_lists::context_of(nodes, ranked, contents, budget, k);
            &&& forall|i: int|
                0 <= i < c.rows.len() ==> (#[trigger] c.rows[i]).rank < k && tells_of(
                    nodes,
                    ranked,
                    contents,
                    c.rows[i],
                )
            &&& forall|i: int, j: int|
                0 <= i < j < c.rows.len() ==> (#[trigger] c.rows[i]).rank < (
                #[trigger] c.rows[j]).rank
            &&& forall|q: int|
                0 <= q < k && #[trigger] is_ranked_symbol(nodes, ranked, q) && (!c.full || (
                c.rows.len() > 0 && q <= c.rows.last().rank)) ==> has_rank(c.rows, q)
            &&& c.full ==> exists|q: int|
                0 <= q < k && #[trigger] is_ranked_symbol(nodes, ranked, q) && c.used
                    + tools_lists::cost_of(
                    graph::node_with_id(nodes, ranked[q])->0,
                    tools_lists::signature_of(
                        contents[q],
                        graph::node_with_id(nodes, ranked[q])->0.line_start,
                    ),
                ) > budget
        }),
    decreases k,
{
    if k > 0 {
        let b = tools_lists::context_of(nodes, ranked, contents, budget, (k - 1) as nat);
        let c = tools_lists::context_of(nodes, ranked, contents, budget, k);
        law_context_takes_the_best(nodes, ranked, contents, budget, (k - 1) as nat);
        if c.rows.len() > b.rows.len() {
            assert(c.rows.drop_last() =~= b.rows);
            assert forall|i: int| 0 <= i < b.rows.len() implies c.rows[i]
                == #[trigger] b.rows[i] by {}
            assert forall|q: int| #[trigger] has_rank(b.rows, q) implies has_rank(c.rows, q) by {
                let i = choose|i: int| 0 <= i < b.rows.len() && (#[trigger] b.rows[i]).rank == q;
                assert(c.rows[i].rank == q);
            }
            assert(c.rows[c.rows.len() - 1].rank == k - 1);
            assert(has_rank(c.rows, k - 1));
            assert forall|q: int|
                0 <= q < k && #[trigger] is_ranked_symbol(nodes, ranked, q) implies has_rank(
                c.rows,
                q,
            ) by {
                if q < k - 1 {
                    assert(has_rank(b.rows, q));
                }
            }
        } else {
            assert(c.rows == b.rows);
            if c.full && !b.full {
                assert(is_ranked_symbol(nodes, ranked, k - 1));
            }
            if b.full {
                let q = choose|q: int|
                    0 <= q < k - 1 && #[trigger] is_ranked_symbol(nodes, ranked, q) && b.used
                        + tools_lists::cost_of(
                        graph::node_with_id(nodes, ranked[q])->0,
                        tools_lists::signature_of(
                            contents[q],
                            graph::node_with_id(nodes, ranked[q])->0.line_start,
                        ),
                    ) > budget;
                assert(is_ranked_symbol(nodes, ranked, q));
            }
        }
    }
}

/// Whether a row has a rank.
pub open spec fn has_rank(found: Seq<ContextModel>, q: int) -> bool {
    exists|i: int| 0 <= i < found.len() && (#[trigger] found[i]).rank == q
}

/// A status begins with the letter of what happened: added, modified or of
/// another type, deleted, renamed or copied. A rename and a copy name the old
/// path and then the new one. No other letter is understood.
pub proof fn law_statuses_by_letter(
    letter: char,
    more: Seq<char>,
    path: Seq<char>,
    to: Seq<char>,
    rest: Seq<Seq<char>>,
)
    ensures
        ({
            let status = seq![letter] + more;
            let one = changes::first_change(seq![status, path] + rest);
            let two = changes::first_change(seq![status, path, to] + rest);
            &&& letter == 'A' ==> one == Ok::<(ChangeModel, nat), ChangeFault>(
                (ChangeModel { kind: ChangeKind::Added, path, old_path: None }, 2),
            )
            &&& (letter == 'M' || letter == 'T') ==> one == Ok::<(ChangeModel, nat), ChangeFault>(
                (ChangeModel { kind: ChangeKind::Modified, path, old_path: None }, 2),
            )
            &&& letter == 'D' ==> one == Ok::<(ChangeModel, nat), ChangeFault>(
                (ChangeModel { kind: ChangeKind::Deleted, path, old_path: None }, 2),
            )
            &&& letter == 'R' ==> two == Ok::<(ChangeModel, nat), ChangeFault>(
                (ChangeModel { kind: ChangeKind::Renamed, path: to, old_path: Some(path) }, 3),
            )
            &&& letter == 'C' ==> two == Ok::<(ChangeModel, nat), ChangeFault>(
                (ChangeModel { kind: ChangeKind::Copied, path: to, old_path: Some(path) }, 3),
            )
            &&& letter != 'A' && letter != 'M' && letter != 'T' && letter != 'D' && letter != 'R'
                && letter != 'C' ==> one == Err::<(ChangeModel, nat), ChangeFault>(
                ChangeFault::Unrecognized(status),
            )
        }),
{
    let status = seq![letter] + more;
    let one = seq![status, path] + rest;
    let two = seq![status, path, to] + rest;
    assert(status[0] == letter);
    assert(one[0] == status && one[1] == path);
    assert(two[0] == status && two[1] == path && two[2] == to);
}

} // verus!
