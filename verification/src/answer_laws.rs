//! What the answers to questions about symbols say of the rows that are stored.

use vstd::prelude::*;
use vstd::string::*;

use crate::graph;
use crate::graph_laws;
use crate::like;
use crate::order;
use crate::query;
use crate::rows;
use crate::snapshot;
use crate::store::StoreModel;
use crate::store_edges;
use crate::store_lists;
use crate::store_queries;
use crate::tables::{CallRowModel, ImportRowModel};
use crate::text;
use crate::tools;
use crate::tools::CallersModel;
use crate::types::{Confidence, EdgeModel, EdgeRelation, Node, NodeLabel, NodeModel};
use crate::usage;
use crate::words;

verus! {

/// Whether a text ends in another, whatever the case of ASCII letters.
pub open spec fn ends_as(s: Seq<char>, end: Seq<char>) -> bool {
    s.len() >= end.len() && text::lower(s).skip(s.len() - end.len()) == text::lower(end)
}

proof fn lemma_like_plain(s: Seq<char>, w: Seq<char>)
    requires
        forall|i: int| 0 <= i < w.len() ==> #[trigger] w[i] != '%' && w[i] != '_',
    ensures
        like::like(s, w) == (text::lower(s) == text::lower(w)),
    decreases w.len(),
{
    if w.len() == 0 {
        assert(text::lower(s).len() == s.len());
        if s.len() == 0 {
            assert(text::lower(s) =~= text::lower(w));
        }
    } else {
        let d = w.drop_first();
        assert forall|i: int| 0 <= i < d.len() implies #[trigger] d[i] != '%' && d[i] != '_' by {
            assert(d[i] == w[i + 1]);
        }
        assert(w[0] != '%');
        if s.len() > 0 {
            lemma_like_plain(s.drop_first(), d);
            assert(text::lower(s.drop_first()) =~= text::lower(s).drop_first());
            assert(text::lower(d) =~= text::lower(w).drop_first());
            assert(text::lower(s)[0] == text::lower_char(s[0]));
            assert(text::lower(w)[0] == text::lower_char(w[0]));
            if text::lower(s).drop_first() == text::lower(w).drop_first() && text::lower(s)[0]
                == text::lower(w)[0] {
                assert(text::lower(s) =~= seq![text::lower(s)[0]] + text::lower(s).drop_first());
                assert(text::lower(w) =~= seq![text::lower(w)[0]] + text::lower(w).drop_first());
            }
        } else {
            assert(text::lower(s).len() == 0);
            assert(text::lower(w).len() > 0);
        }
    }
}

/// A pattern with a wildcard in front asks how a text ends.
pub proof fn law_wildcard_in_front(s: Seq<char>, w: Seq<char>)
    requires
        forall|i: int| 0 <= i < w.len() ==> #[trigger] w[i] != '%' && w[i] != '_',
    ensures
        like::like(s, seq!['%'] + w) == ends_as(s, w),
    decreases s.len(),
{
    let p = seq!['%'] + w;
    assert(p.drop_first() =~= w);
    lemma_like_plain(s, w);
    assert(text::lower(s).len() == s.len() && text::lower(w).len() == w.len());
    if s.len() == w.len() {
        assert(text::lower(s).skip(0) =~= text::lower(s));
    }
    if s.len() > 0 {
        let d = s.drop_first();
        law_wildcard_in_front(d, w);
        assert(text::lower(d) =~= text::lower(s).drop_first());
        if d.len() >= w.len() {
            assert(text::lower(d).skip(d.len() - w.len()) =~= text::lower(s).skip(
                s.len() - w.len(),
            ));
        }
    }
}

/// Whether a path is that of a file of TypeScript or JavaScript.
pub open spec fn is_web_file(path: Seq<char>) -> bool {
    ends_as(path, ".ts"@) || ends_as(path, ".tsx"@) || ends_as(path, ".js"@) || ends_as(
        path,
        ".jsx"@,
    ) || ends_as(path, ".mjs"@)
}

/// The files of TypeScript and JavaScript are told by how they end.
pub proof fn lemma_script(path: Seq<char>)
    ensures
        store_queries::is_script(path) == is_web_file(path),
{
    reveal_strlit(".ts");
    reveal_strlit(".tsx");
    reveal_strlit(".js");
    reveal_strlit(".jsx");
    reveal_strlit(".mjs");
    reveal_strlit("%.ts");
    reveal_strlit("%.tsx");
    reveal_strlit("%.js");
    reveal_strlit("%.jsx");
    reveal_strlit("%.mjs");
    assert("%.ts"@ =~= seq!['%'] + ".ts"@);
    assert("%.tsx"@ =~= seq!['%'] + ".tsx"@);
    assert("%.js"@ =~= seq!['%'] + ".js"@);
    assert("%.jsx"@ =~= seq!['%'] + ".jsx"@);
    assert("%.mjs"@ =~= seq!['%'] + ".mjs"@);
    law_wildcard_in_front(path, ".ts"@);
    law_wildcard_in_front(path, ".tsx"@);
    law_wildcard_in_front(path, ".js"@);
    law_wildcard_in_front(path, ".jsx"@);
    law_wildcard_in_front(path, ".mjs"@);
}

/// Whether an import of the same file of TypeScript or JavaScript gives the
/// called name, or the name that the call goes through, a package from outside.
pub open spec fn is_of_a_package(s: StoreModel, c: CallRowModel) -> bool {
    exists|i: ImportRowModel| #[trigger]
        s.imports.contains(i) && i.file_path == c.file_path && is_web_file(i.file_path) && (i.name
            == c.call.callee_name || c.call.receiver == Some(i.name)) && (i.module.len() == 0 || (
        i.module[0] != '.' && i.module[0] != '/' && i.module[0] != '#'))
}

/// Whether a function, a method or a class has the name.
pub open spec fn is_defined(s: StoreModel, name: Seq<char>) -> bool {
    exists|n: NodeModel| #[trigger]
        s.nodes.contains(n) && n.name == name && (n.label == NodeLabel::Function || n.label
            == NodeLabel::Method || n.label == NodeLabel::Class)
}

/// Whether an edge of a call that is not ambiguous leads from a caller to a node
/// with a name.
pub open spec fn is_answered(s: StoreModel, caller: Seq<char>, name: Seq<char>) -> bool {
    exists|e: EdgeModel, n: NodeModel| #[trigger]
        s.edges.contains(e) && #[trigger] s.nodes.contains(n) && e.relation == EdgeRelation::Calls
            && e.src == caller && e.dst == n.id && n.name == name && e.confidence
            != Confidence::Ambiguous
}

proof fn lemma_package(s: StoreModel, c: CallRowModel)
    ensures
        store_queries::external_bound(s, c) == is_of_a_package(s, c),
{
    let marks = seq!['.', '/', '#'];
    rows::lemma_any(s.imports, store_queries::import_binds(c));
    assert(marks[0] == '.' && marks[1] == '/' && marks[2] == '#');
    assert forall|i: ImportRowModel| #[trigger] s.imports.contains(i) implies (
    store_queries::import_binds(c)(i) == (i.file_path == c.file_path && is_web_file(i.file_path)
        && (i.name == c.call.callee_name || c.call.receiver == Some(i.name)) && (i.module.len() == 0
        || (i.module[0] != '.' && i.module[0] != '/' && i.module[0] != '#')))) by {
        lemma_script(i.file_path);
        if i.module.len() > 0 && marks.contains(i.module[0]) {
            let k = choose|k: int| 0 <= k < marks.len() && marks[k] == i.module[0];
            assert(k == 0 || k == 1 || k == 2);
        }
    }
}

proof fn lemma_answered(s: StoreModel, caller: Seq<char>, name: Seq<char>)
    ensures
        store_queries::has_sure_call(s, caller, name) == is_answered(s, caller, name),
{
    let p = |e: EdgeModel|
        e.src == caller && e.relation == EdgeRelation::Calls && e.confidence
            != Confidence::Ambiguous && store_queries::is_named(s.nodes, e.dst, name);
    rows::lemma_any(s.edges, p);
    assert forall|e: EdgeModel| store_queries::is_named(s.nodes, #[trigger] e.dst, name) == (exists|
        n: NodeModel,
    | #[trigger] s.nodes.contains(n) && n.id == e.dst && n.name == name) by {
        rows::lemma_any(s.nodes, |n: NodeModel| n.id == e.dst && n.name == name);
    }
    if is_answered(s, caller, name) {
        let (e, n) = choose|e: EdgeModel, n: NodeModel| #[trigger]
            s.edges.contains(e) && #[trigger] s.nodes.contains(n) && e.relation
                == EdgeRelation::Calls && e.src == caller && e.dst == n.id && n.name == name
                && e.confidence != Confidence::Ambiguous;
        assert(store_queries::is_named(s.nodes, e.dst, name));
        assert(s.edges.contains(e) && p(e));
    }
    if store_queries::has_sure_call(s, caller, name) {
        let e = choose|e: EdgeModel| #[trigger] s.edges.contains(e) && p(e);
        assert(store_queries::is_named(s.nodes, e.dst, name));
    }
}

proof fn lemma_defined(s: StoreModel, c: CallRowModel)
    ensures
        store_queries::no_definition(s, c) == !is_defined(s, c.call.callee_name),
{
    rows::lemma_any(s.nodes, store_queries::defines(c.call.callee_name));
}

/// The coverage of the callers of a name counts the call sites with that name
/// that are not those of a package; resolved are those whose caller has an edge
/// to a node with the name.
pub proof fn law_callers_coverage_counts(s: StoreModel, name: Seq<char>)
    ensures
        rows::kept(s.calls, store_queries::caller_sites(s, name)) == rows::kept(
            s.calls,
            |c: CallRowModel| c.call.callee_name == name && !is_of_a_package(s, c),
        ),
        rows::kept(s.calls, store_queries::resolved_caller_sites(s, name)) == rows::kept(
            s.calls,
            |c: CallRowModel|
                c.call.callee_name == name && !is_of_a_package(s, c) && is_answered(
                    s,
                    c.call.caller_id,
                    name,
                ),
        ),
{
    let a = |c: CallRowModel| c.call.callee_name == name && !is_of_a_package(s, c);
    let b = |c: CallRowModel|
        c.call.callee_name == name && !is_of_a_package(s, c) && is_answered(
            s,
            c.call.caller_id,
            name,
        );
    assert forall|c: CallRowModel| #[trigger] store_queries::caller_sites(s, name)(c) == a(c) by {
        lemma_package(s, c);
    }
    assert forall|c: CallRowModel| #[trigger]
        store_queries::resolved_caller_sites(s, name)(c) == b(c) by {
        lemma_package(s, c);
        lemma_answered(s, c.call.caller_id, name);
    }
    lemma_kept_same(s.calls, store_queries::caller_sites(s, name), a);
    lemma_kept_same(s.calls, store_queries::resolved_caller_sites(s, name), b);
}

/// Tests that pass the same items keep the same.
pub proof fn lemma_kept_same<M>(s: Seq<M>, p: spec_fn(M) -> bool, q: spec_fn(M) -> bool)
    requires
        forall|x: M| #[trigger] p(x) == q(x),
    ensures
        rows::kept(s, p) == rows::kept(s, q),
    decreases s.len(),
{
    if s.len() > 0 {
        lemma_kept_same(s.drop_last(), p, q);
        assert(p(s.last()) == q(s.last()));
    }
}

/// The coverage of what a caller calls counts its call sites of names that are
/// defined and not those of a package; resolved are those whose name the caller
/// has an edge to.
pub proof fn law_callees_coverage_counts(s: StoreModel, caller: Seq<char>)
    ensures
        rows::kept(s.calls, store_queries::callee_sites(s, caller)) == rows::kept(
            s.calls,
            |c: CallRowModel|
                c.call.caller_id == caller && is_defined(s, c.call.callee_name)
                    && !is_of_a_package(s, c),
        ),
        rows::kept(s.calls, store_queries::resolved_callee_sites(s, caller)) == rows::kept(
            s.calls,
            |c: CallRowModel|
                c.call.caller_id == caller && is_defined(s, c.call.callee_name)
                    && !is_of_a_package(s, c) && is_answered(s, caller, c.call.callee_name),
        ),
        rows::kept(s.calls, store_queries::unresolvable(s)) == rows::kept(
            s.calls,
            |c: CallRowModel| is_of_a_package(s, c) || !is_defined(s, c.call.callee_name),
        ),
{
    let a = |c: CallRowModel|
        c.call.caller_id == caller && is_defined(s, c.call.callee_name) && !is_of_a_package(s, c);
    let b = |c: CallRowModel|
        c.call.caller_id == caller && is_defined(s, c.call.callee_name) && !is_of_a_package(s, c)
            && is_answered(s, caller, c.call.callee_name);
    let u = |c: CallRowModel| is_of_a_package(s, c) || !is_defined(s, c.call.callee_name);
    assert forall|c: CallRowModel| #[trigger] store_queries::callee_sites(s, caller)(c) == a(c) by {
        lemma_package(s, c);
        lemma_defined(s, c);
    }
    assert forall|c: CallRowModel| #[trigger]
        store_queries::resolved_callee_sites(s, caller)(c) == b(c) by {
        lemma_package(s, c);
        lemma_defined(s, c);
        lemma_answered(s, caller, c.call.callee_name);
    }
    assert forall|c: CallRowModel| #[trigger] store_queries::unresolvable(s)(c) == u(c) by {
        lemma_package(s, c);
        lemma_defined(s, c);
    }
    lemma_kept_same(s.calls, store_queries::callee_sites(s, caller), a);
    lemma_kept_same(s.calls, store_queries::resolved_callee_sites(s, caller), b);
    lemma_kept_same(s.calls, store_queries::unresolvable(s), u);
}

/// What a coverage says of two counts: what is missing is the difference, and
/// an answer may be incomplete just where something is missing.
pub proof fn law_coverage_states_what_is_missing(resolved: nat, total: nat)
    requires
        resolved <= total <= usize::MAX,
    ensures
        ({
            let c = store_queries::coverage_of(resolved, total);
            &&& c.resolved == resolved && c.total_call_sites == total
            &&& c.resolved + c.dropped == c.total_call_sites
            &&& c.may_be_incomplete <==> c.dropped > 0
        }),
{
}

/// A name counts as tested where an edge of a test leads to a node with it, or a
/// call site in a test file names it.
pub proof fn law_tested_has_a_test(s: StoreModel, name: Seq<char>)
    ensures
        store_queries::is_tested(s, name) <==> (exists|e: EdgeModel, n: NodeModel| #[trigger]
            s.edges.contains(e) && #[trigger] s.nodes.contains(n) && e.relation
                == EdgeRelation::Tests && e.dst == n.id && n.name == name) || (exists|
            c: CallRowModel,
        | #[trigger]
            s.calls.contains(c) && c.call.callee_name == name && words::test_path(c.file_path)),
{
    let p = |e: EdgeModel|
        e.relation == EdgeRelation::Tests && store_queries::is_named(s.nodes, e.dst, name);
    rows::lemma_any(s.edges, p);
    rows::lemma_any(
        s.calls,
        |c: CallRowModel| c.call.callee_name == name && words::test_path(c.file_path),
    );
    assert forall|e: EdgeModel| store_queries::is_named(s.nodes, #[trigger] e.dst, name) == (exists|
        n: NodeModel,
    | #[trigger] s.nodes.contains(n) && n.id == e.dst && n.name == name) by {
        rows::lemma_any(s.nodes, |n: NodeModel| n.id == e.dst && n.name == name);
    }
    if exists|e: EdgeModel, n: NodeModel| #[trigger]
        s.edges.contains(e) && #[trigger] s.nodes.contains(n) && e.relation == EdgeRelation::Tests
            && e.dst == n.id && n.name == name {
        let (e, n) = choose|e: EdgeModel, n: NodeModel| #[trigger]
            s.edges.contains(e) && #[trigger] s.nodes.contains(n) && e.relation
                == EdgeRelation::Tests && e.dst == n.id && n.name == name;
        assert(store_queries::is_named(s.nodes, e.dst, name));
        assert(s.edges.contains(e) && p(e));
    }
    if rows::any(s.edges, p) {
        let e = choose|e: EdgeModel| #[trigger] s.edges.contains(e) && p(e);
        assert(store_queries::is_named(s.nodes, e.dst, name));
    }
}

/// The symbols of a file are its functions, methods and types, from the first
/// line to the last.
pub proof fn law_symbols_of_a_file(s: StoreModel, file: Seq<char>)
    ensures
        ({
            let r = order::arranged(
                rows::kept(s.nodes, store_queries::symbol_in(file)),
                store_queries::line_order(),
            );
            &&& forall|n: NodeModel| #[trigger]
                r.contains(n) <==> s.nodes.contains(n) && n.file_path == file && (n.label
                    == NodeLabel::Function || n.label == NodeLabel::Method || n.label
                    == NodeLabel::Class || n.label == NodeLabel::Interface || n.label
                    == NodeLabel::Enum || n.label == NodeLabel::Type)
            &&& forall|i: int, j: int|
                0 <= i < j < r.len() ==> (#[trigger] r[i]).line_start <= (
                #[trigger] r[j]).line_start
        }),
{
    let found = rows::kept(s.nodes, store_queries::symbol_in(file));
    let before = store_queries::line_order();
    rows::lemma_kept(s.nodes, store_queries::symbol_in(file));
    order::lemma_same_items(found, before);
    assert(order::is_order(before));
    order::law_arranged(found, before);
    let r = order::arranged(found, before);
    assert forall|i: int, j: int| 0 <= i < j < r.len() implies (#[trigger] r[i]).line_start <= (
    #[trigger] r[j]).line_start by {
        assert(!before(r[j], r[i]));
    }
}

/// Whether a list has the sources of the calls to a node, each once.
pub open spec fn are_sources(edges: Seq<EdgeModel>, id: Seq<char>, l: Seq<Seq<char>>) -> bool {
    &&& l.no_duplicates()
    &&& forall|a: Seq<char>| #[trigger]
        l.contains(a) <==> exists|e: EdgeModel| #[trigger]
            edges.contains(e) && e.relation == EdgeRelation::Calls && e.src == a && e.dst == id
}

/// The number of callers of a node is that of the different sources of calls to
/// it.
pub proof fn law_callers_are_counted_once(edges: Seq<EdgeModel>, id: Seq<char>)
    ensures
        exists|l: Seq<Seq<char>>| #[trigger]
            are_sources(edges, id, l) && store_queries::caller_count(edges, id) == l.len(),
{
    let found = rows::kept(edges, store_queries::calls_to(id));
    let all = found.map_values(|e: EdgeModel| e.src);
    let l = rows::distinct(all);
    rows::lemma_kept(edges, store_queries::calls_to(id));
    rows::lemma_distinct(all);
    assert forall|a: Seq<char>| #[trigger] l.contains(a) <==> exists|e: EdgeModel| #[trigger]
        edges.contains(e) && e.relation == EdgeRelation::Calls && e.src == a && e.dst == id by {
        if l.contains(a) {
            let k = choose|k: int| 0 <= k < all.len() && all[k] == a;
            assert(found.contains(found[k]));
            assert(edges.contains(found[k]));
        }
        if exists|e: EdgeModel| #[trigger]
            edges.contains(e) && e.relation == EdgeRelation::Calls && e.src == a && e.dst == id {
            let e = choose|e: EdgeModel| #[trigger]
                edges.contains(e) && e.relation == EdgeRelation::Calls && e.src == a && e.dst == id;
            assert(found.contains(e));
            let k = choose|k: int| 0 <= k < found.len() && found[k] == e;
            assert(all[k] == a);
        }
    }
    assert(are_sources(edges, id, l));
}

proof fn lemma_id_order()
    ensures
        order::is_order(store_edges::id_order()),
{
    let before = store_edges::id_order();
    assert forall|a: NodeModel, b: NodeModel| #[trigger] before(a, b) implies !before(b, a) by {
        order::lemma_text_asymmetric(a.id, b.id);
    }
    assert forall|a: NodeModel, b: NodeModel, c: NodeModel|
        #![trigger before(a, b), before(a, c)]
        #![trigger before(a, b), before(c, b)]
        before(a, b) implies before(a, c) || before(c, b) by {
        order::lemma_text_between(a.id, b.id, c.id);
    }
}

/// The nodes that a graph is made of are those that are stored, in the order of
/// their ids.
proof fn lemma_snapshot_nodes(s: StoreModel)
    requires
        rows::unique::<Node>(s.nodes),
    ensures
        graph_laws::ids_apart(snapshot::snapshot_nodes(s)),
        forall|m: NodeModel| #[trigger]
            s.nodes.contains(m) ==> snapshot::snapshot_nodes(s).contains(
                store_edges::light_node()(m),
            ),
        forall|x: NodeModel| #[trigger]
            snapshot::snapshot_nodes(s).contains(x) ==> exists|m: NodeModel| #[trigger]
                s.nodes.contains(m) && x == store_edges::light_node()(m),
        forall|i: int, j: int|
            0 <= i < j < snapshot::snapshot_nodes(s).len() ==> text::text_less(
                (#[trigger] snapshot::snapshot_nodes(s)[i]).id,
                (#[trigger] snapshot::snapshot_nodes(s)[j]).id,
            ),
{
    let f = store_edges::light_node();
    let before = store_edges::id_order();
    let light = s.nodes.map_values(f);
    let nodes = snapshot::snapshot_nodes(s);
    lemma_id_order();
    order::law_arranged(light, before);
    order::lemma_same_items(light, before);
    let at = order::lemma_arranged_stable(light, before);
    assert forall|i: int, j: int| 0 <= i < j < nodes.len() implies (#[trigger] nodes[i]).id != (
    #[trigger] nodes[j]).id by {
        assert(nodes[i] == light[at[i]] && nodes[j] == light[at[j]]);
        assert(at[i] != at[j]);
        let (p, q) = (at[i], at[j]);
        if p < q {
            assert(<Node as rows::Keyed>::key(s.nodes[p]) != <Node as rows::Keyed>::key(
                s.nodes[q],
            ));
        } else {
            assert(<Node as rows::Keyed>::key(s.nodes[q]) != <Node as rows::Keyed>::key(
                s.nodes[p],
            ));
        }
    }
    assert forall|m: NodeModel| #[trigger] s.nodes.contains(m) implies nodes.contains(f(m)) by {
        let k = choose|k: int| 0 <= k < s.nodes.len() && s.nodes[k] == m;
        assert(light[k] == f(m));
        assert(light.contains(f(m)));
    }
    assert forall|x: NodeModel| #[trigger] nodes.contains(x) implies exists|m: NodeModel|
     #[trigger]
        s.nodes.contains(m) && x == f(m) by {
        assert(light.contains(x));
        let k = choose|k: int| 0 <= k < light.len() && light[k] == x;
        assert(s.nodes.contains(s.nodes[k]) && x == f(s.nodes[k]));
    }
    assert forall|i: int, j: int| 0 <= i < j < nodes.len() implies text::text_less(
        (#[trigger] nodes[i]).id,
        (#[trigger] nodes[j]).id,
    ) by {
        assert(!before(nodes[j], nodes[i]));
        order::lemma_text_total(nodes[i].id, nodes[j].id);
    }
}

/// A graph has the edges that are stored, without what they carry besides.
proof fn lemma_snapshot_edges(s: StoreModel)
    ensures
        forall|e: EdgeModel| #[trigger]
            s.edges.contains(e) ==> snapshot::snapshot_edges(s).contains(
                store_edges::light_edge()(e),
            ),
        forall|x: EdgeModel| #[trigger]
            snapshot::snapshot_edges(s).contains(x) ==> exists|e: EdgeModel| #[trigger]
                s.edges.contains(e) && x == store_edges::light_edge()(e),
{
    let f = store_edges::light_edge();
    let light = s.edges.map_values(f);
    order::lemma_same_items(light, store_edges::edge_order());
    assert forall|e: EdgeModel| #[trigger]
        s.edges.contains(e) implies snapshot::snapshot_edges(s).contains(f(e)) by {
        let k = choose|k: int| 0 <= k < s.edges.len() && s.edges[k] == e;
        assert(light[k] == f(e));
        assert(light.contains(f(e)));
    }
    assert forall|x: EdgeModel| #[trigger] snapshot::snapshot_edges(s).contains(x) implies exists|
        e: EdgeModel,
    | #[trigger] s.edges.contains(e) && x == f(e) by {
        assert(light.contains(x));
        let k = choose|k: int| 0 <= k < light.len() && light[k] == x;
        assert(s.edges.contains(s.edges[k]) && x == f(s.edges[k]));
    }
}

/// Whether a node is the one that a name means: of those with the name the one
/// with the least id.
pub open spec fn is_meant(s: StoreModel, name: Seq<char>, n: NodeModel) -> bool {
    &&& s.nodes.contains(n) && n.name == name
    &&& forall|m: NodeModel| #[trigger]
        s.nodes.contains(m) && m.name == name && m.id != n.id ==> text::text_less(n.id, m.id)
}

proof fn lemma_meant(s: StoreModel, name: Seq<char>, n: NodeModel)
    requires
        rows::unique::<Node>(s.nodes),
        is_meant(s, name, n),
    ensures
        rows::first(snapshot::snapshot_nodes(s), query::named(name)) == Some(
            store_edges::light_node()(n),
        ),
{
    let nodes = snapshot::snapshot_nodes(s);
    let x = store_edges::light_node()(n);
    lemma_snapshot_nodes(s);
    assert(nodes.contains(x));
    let k = choose|k: int| 0 <= k < nodes.len() && nodes[k] == x;
    assert forall|j: int| 0 <= j < k implies !query::named(name)(#[trigger] nodes[j]) by {
        if nodes[j].name == name {
            assert(nodes.contains(nodes[j]));
            let m = choose|m: NodeModel| #[trigger]
                s.nodes.contains(m) && nodes[j] == store_edges::light_node()(m);
            assert(text::text_less(nodes[j].id, nodes[k].id));
            order::lemma_text_asymmetric(m.id, n.id);
        }
    }
    rows::lemma_first_is(nodes, query::named(name), k);
}

proof fn lemma_no_meant(s: StoreModel, name: Seq<char>)
    requires
        rows::unique::<Node>(s.nodes),
        forall|m: NodeModel| #[trigger] s.nodes.contains(m) ==> m.name != name,
    ensures
        rows::first(snapshot::snapshot_nodes(s), query::named(name)) is None,
{
    let nodes = snapshot::snapshot_nodes(s);
    lemma_snapshot_nodes(s);
    assert forall|j: int| 0 <= j < nodes.len() implies !query::named(name)(
        #[trigger] nodes[j],
    ) by {
        assert(nodes.contains(nodes[j]));
    }
    rows::lemma_first_is(nodes, query::named(name), nodes.len() as int);
}

proof fn lemma_nodes_at(nodes: Seq<NodeModel>, ids: Seq<Seq<char>>, x: NodeModel)
    ensures
        snapshot::nodes_at(nodes, ids).contains(x) == (exists|id: Seq<char>| #[trigger]
            ids.contains(id) && graph::node_with_id(nodes, id) == Some(x)),
    decreases ids.len(),
{
    if ids.len() > 0 {
        let d = ids.drop_last();
        let rest = snapshot::nodes_at(nodes, d);
        let all = snapshot::nodes_at(nodes, ids);
        lemma_nodes_at(nodes, d, x);
        assert(ids[ids.len() - 1] == ids.last());
        assert(ids.contains(ids.last()));
        assert forall|id: Seq<char>| #[trigger] ids.contains(id) implies id == ids.last()
            || d.contains(id) by {
            let i = choose|i: int| 0 <= i < ids.len() && ids[i] == id;
            if i < d.len() {
                assert(d[i] == id);
            }
        }
        assert forall|id: Seq<char>| #[trigger] d.contains(id) implies ids.contains(id) by {
            let i = choose|i: int| 0 <= i < d.len() && d[i] == id;
            assert(ids[i] == id);
        }
        if rest.contains(x) {
            let i = choose|i: int| 0 <= i < rest.len() && rest[i] == x;
            assert(all[i] == x);
        }
        if graph::node_with_id(nodes, ids.last()) == Some(x) {
            assert(all[rest.len() as int] == x);
        }
        if all.contains(x) {
            let i = choose|i: int| 0 <= i < all.len() && all[i] == x;
            if i < rest.len() {
                assert(rest[i] == x);
            }
        }
    }
}

/// What a name calls: the nodes to which an edge of a call leads from the node
/// that the name means, and none where nothing has the name.
pub proof fn law_callees_of_a_name(s: StoreModel, name: Seq<char>)
    requires
        rows::unique::<Node>(s.nodes),
    ensures
        ({
            let nodes = snapshot::snapshot_nodes(s);
            let r = snapshot::callees_of(
                s,
                nodes,
                graph::loaded(nodes, snapshot::snapshot_edges(s)),
                name,
            ).callees;
            &&& (forall|m: NodeModel| #[trigger] s.nodes.contains(m) ==> m.name != name) ==> r.len()
                == 0
            &&& forall|n: NodeModel, m: NodeModel| #[trigger]
                is_meant(s, name, n) && #[trigger] s.nodes.contains(m) ==> (r.contains(
                    store_edges::light_node()(m),
                ) <==> exists|e: EdgeModel| #[trigger]
                    s.edges.contains(e) && e.relation == EdgeRelation::Calls && e.src == n.id
                        && e.dst == m.id)
            &&& forall|x: NodeModel| #[trigger]
                r.contains(x) ==> exists|m: NodeModel| #[trigger]
                    s.nodes.contains(m) && x.id == m.id && x.name == m.name && x.label == m.label
                        && x.file_path == m.file_path && x.line_start == m.line_start
        }),
{
    let nodes = snapshot::snapshot_nodes(s);
    let edges = snapshot::snapshot_edges(s);
    let g = graph::loaded(nodes, edges);
    let r = snapshot::callees_of(s, nodes, g, name).callees;
    let f = store_edges::light_node();
    lemma_snapshot_nodes(s);
    lemma_snapshot_edges(s);
    if forall|m: NodeModel| #[trigger] s.nodes.contains(m) ==> m.name != name {
        lemma_no_meant(s, name);
    }
    assert forall|n: NodeModel, m: NodeModel| #[trigger]
        is_meant(s, name, n) && #[trigger] s.nodes.contains(m) implies (r.contains(f(m))
        <==> exists|e: EdgeModel| #[trigger]
        s.edges.contains(e) && e.relation == EdgeRelation::Calls && e.src == n.id && e.dst
            == m.id) by {
        lemma_meant(s, name, n);
        let ids = graph::ids_at(g, graph::outgoing(g.edges, g.index[n.id], "Calls"@));
        assert(nodes.contains(f(n)) && nodes.contains(f(m)));
        let k = choose|k: int| 0 <= k < nodes.len() && nodes[k] == f(n);
        assert(nodes[k].id == n.id);
        let q = choose|q: int| 0 <= q < nodes.len() && nodes[q] == f(m);
        assert(nodes[q].id == m.id);
        graph_laws::law_callees_are_called(nodes, edges, n.id, m.id);
        lemma_nodes_at(nodes, ids, f(m));
        graph_laws::lemma_found_by_id(nodes, m.id);
        graph_laws::lemma_same_node(nodes, graph::node_with_id(nodes, m.id)->0, f(m));
        if r.contains(f(m)) {
            let id = choose|id: Seq<char>| #[trigger]
                ids.contains(id) && graph::node_with_id(nodes, id) == Some(f(m));
            graph_laws::lemma_found_by_id(nodes, id);
            let x = choose|x: EdgeModel| #[trigger]
                edges.contains(x) && x.relation == EdgeRelation::Calls && x.src == n.id && x.dst
                    == m.id;
            let e = choose|e: EdgeModel| #[trigger]
                s.edges.contains(e) && x == store_edges::light_edge()(e);
            assert(s.edges.contains(e));
        }
        if exists|e: EdgeModel| #[trigger]
            s.edges.contains(e) && e.relation == EdgeRelation::Calls && e.src == n.id && e.dst
                == m.id {
            let e = choose|e: EdgeModel| #[trigger]
                s.edges.contains(e) && e.relation == EdgeRelation::Calls && e.src == n.id && e.dst
                    == m.id;
            assert(edges.contains(store_edges::light_edge()(e)));
            assert(ids.contains(m.id));
        }
    }
    assert forall|x: NodeModel| #[trigger] r.contains(x) implies exists|m: NodeModel| #[trigger]
        s.nodes.contains(m) && x.id == m.id && x.name == m.name && x.label == m.label
            && x.file_path == m.file_path && x.line_start == m.line_start by {
        let n = rows::first(nodes, query::named(name))->0;
        let ids = if g.index.contains_key(n.id) {
            graph::ids_at(g, graph::outgoing(g.edges, g.index[n.id], "Calls"@))
        } else {
            Seq::empty()
        };
        lemma_nodes_at(nodes, ids, x);
        let id = choose|id: Seq<char>| #[trigger]
            ids.contains(id) && graph::node_with_id(nodes, id) == Some(x);
        graph_laws::lemma_found_by_id(nodes, id);
        let m = choose|m: NodeModel| #[trigger] s.nodes.contains(m) && x == f(m);
        assert(s.nodes.contains(m));
    }
}

proof fn lemma_same_links(s: StoreModel, a: Seq<char>, b: Seq<char>)
    requires
        rows::unique::<Node>(s.nodes),
    ensures
        graph_laws::has_node(snapshot::snapshot_nodes(s), a) == graph_laws::has_node(s.nodes, a),
        graph_laws::edge_between(
            snapshot::snapshot_nodes(s),
            snapshot::snapshot_edges(s),
            a,
            b,
        ) == graph_laws::edge_between(s.nodes, s.edges, a, b),
{
    lemma_snapshot_edges(s);
    lemma_same_ids(s, a);
    lemma_same_ids(s, b);
    let edges = snapshot::snapshot_edges(s);
    if exists|e: EdgeModel| #[trigger] edges.contains(e) && e.src == a && e.dst == b {
        let x = choose|x: EdgeModel| #[trigger] edges.contains(x) && x.src == a && x.dst == b;
        let e = choose|e: EdgeModel| #[trigger]
            s.edges.contains(e) && x == store_edges::light_edge()(e);
        assert(s.edges.contains(e) && e.src == a && e.dst == b);
    }
    if exists|e: EdgeModel| #[trigger] s.edges.contains(e) && e.src == a && e.dst == b {
        let e = choose|e: EdgeModel| #[trigger] s.edges.contains(e) && e.src == a && e.dst == b;
        assert(edges.contains(store_edges::light_edge()(e)));
    }
}

proof fn lemma_same_ids(s: StoreModel, a: Seq<char>)
    requires
        rows::unique::<Node>(s.nodes),
    ensures
        graph_laws::has_node(snapshot::snapshot_nodes(s), a) == graph_laws::has_node(s.nodes, a),
{
    let nodes = snapshot::snapshot_nodes(s);
    lemma_snapshot_nodes(s);
    if graph_laws::has_node(nodes, a) {
        let k = choose|k: int| 0 <= k < nodes.len() && (#[trigger] nodes[k]).id == a;
        assert(nodes.contains(nodes[k]));
        let m = choose|m: NodeModel| #[trigger]
            s.nodes.contains(m) && nodes[k] == store_edges::light_node()(m);
        let j = choose|j: int| 0 <= j < s.nodes.len() && s.nodes[j] == m;
        assert(s.nodes[j].id == a);
    }
    if graph_laws::has_node(s.nodes, a) {
        let j = choose|j: int| 0 <= j < s.nodes.len() && (#[trigger] s.nodes[j]).id == a;
        assert(s.nodes.contains(s.nodes[j]));
        let x = store_edges::light_node()(s.nodes[j]);
        assert(nodes.contains(x));
        let k = choose|k: int| 0 <= k < nodes.len() && nodes[k] == x;
        assert(nodes[k].id == a);
    }
}

proof fn lemma_same_walk(s: StoreModel, w: Seq<Seq<char>>, a: Seq<char>, b: Seq<char>)
    requires
        rows::unique::<Node>(s.nodes),
    ensures
        graph_laws::id_walk(
            snapshot::snapshot_nodes(s),
            snapshot::snapshot_edges(s),
            w,
            a,
            b,
        ) == graph_laws::id_walk(s.nodes, s.edges, w, a, b),
{
    let nodes = snapshot::snapshot_nodes(s);
    let edges = snapshot::snapshot_edges(s);
    assert forall|i: int| 0 <= i < w.len() - 1 implies graph_laws::edge_between(
        nodes,
        edges,
        #[trigger] w[i],
        w[i + 1],
    ) == graph_laws::edge_between(s.nodes, s.edges, w[i], w[i + 1]) by {
        lemma_same_links(s, w[i], w[i + 1]);
    }
}

proof fn lemma_same_within(s: StoreModel, a: Seq<char>, b: Seq<char>, d: nat)
    requires
        rows::unique::<Node>(s.nodes),
    ensures
        graph_laws::is_within(
            snapshot::snapshot_nodes(s),
            snapshot::snapshot_edges(s),
            a,
            b,
            d,
        ) == graph_laws::is_within(s.nodes, s.edges, a, b, d),
{
    let nodes = snapshot::snapshot_nodes(s);
    let edges = snapshot::snapshot_edges(s);
    assert forall|w: Seq<Seq<char>>| #[trigger]
        graph_laws::id_walk(nodes, edges, w, a, b) == graph_laws::id_walk(
            s.nodes,
            s.edges,
            w,
            a,
            b,
        ) by {
        lemma_same_walk(s, w, a, b);
    }
    if graph_laws::is_within(s.nodes, s.edges, a, b, d) {
        let w = choose|w: Seq<Seq<char>>| #[trigger]
            graph_laws::id_walk(s.nodes, s.edges, w, a, b) && w.len() <= d + 1;
        assert(graph_laws::id_walk(nodes, edges, w, a, b));
    }
}

/// A trace goes over stored edges, in their direction, from the node that the
/// first name means to the one that the second means, and no other way is
/// shorter; it is empty where there is no way.
pub proof fn law_trace_follows_the_edges(
    s: StoreModel,
    from: Seq<char>,
    to: Seq<char>,
    a: NodeModel,
    b: NodeModel,
    path: Seq<Seq<char>>,
)
    requires
        rows::unique::<Node>(s.nodes),
        is_meant(s, from, a),
        is_meant(s, to, b),
    ensures
        ({
            let nodes = snapshot::snapshot_nodes(s);
            let g = graph::loaded(nodes, snapshot::snapshot_edges(s));
            &&& rows::first(nodes, query::named(from)) matches Some(x) && x.id == a.id
            &&& rows::first(nodes, query::named(to)) matches Some(y) && y.id == b.id
            &&& snapshot::is_trace(g, a.id, b.id, path) ==> if exists|w: Seq<Seq<char>>| #[trigger]
                graph_laws::id_walk(s.nodes, s.edges, w, a.id, b.id) {
                graph_laws::id_walk(s.nodes, s.edges, path, a.id, b.id) && forall|
                    w: Seq<Seq<char>>,
                | #[trigger]
                    graph_laws::id_walk(s.nodes, s.edges, w, a.id, b.id) ==> path.len() <= w.len()
            } else {
                path.len() == 0
            }
        }),
{
    let nodes = snapshot::snapshot_nodes(s);
    let edges = snapshot::snapshot_edges(s);
    let g = graph::loaded(nodes, edges);
    lemma_meant(s, from, a);
    lemma_meant(s, to, b);
    lemma_snapshot_nodes(s);
    lemma_has_light(s, a);
    lemma_has_light(s, b);
    assert forall|w: Seq<Seq<char>>| #[trigger]
        graph_laws::id_walk(nodes, edges, w, a.id, b.id) == graph_laws::id_walk(
            s.nodes,
            s.edges,
            w,
            a.id,
            b.id,
        ) by {
        lemma_same_walk(s, w, a.id, b.id);
    }
    if snapshot::is_trace(g, a.id, b.id, path) {
        graph_laws::law_shortest_path_follows_the_edges(nodes, edges, a.id, b.id, Seq::empty());
        if exists|w: Seq<nat>| #[trigger] graph::leads(g.edges, w, g.index[a.id], g.index[b.id]) {
            let w = choose|w: Seq<nat>| #[trigger]
                graph::is_shortest(g.edges, w, g.index[a.id], g.index[b.id]) && path
                    == graph::ids_at(g, w);
            graph_laws::law_shortest_path_follows_the_edges(nodes, edges, a.id, b.id, w);
            assert(graph_laws::id_walk(nodes, edges, path, a.id, b.id));
            assert forall|v: Seq<Seq<char>>| #[trigger]
                graph_laws::id_walk(s.nodes, s.edges, v, a.id, b.id) implies path.len()
                <= v.len() by {
                assert(graph_laws::id_walk(nodes, edges, v, a.id, b.id));
            }
        } else {
            assert forall|v: Seq<Seq<char>>|
                !#[trigger] graph_laws::id_walk(s.nodes, s.edges, v, a.id, b.id) by {
                assert(!graph_laws::id_walk(nodes, edges, v, a.id, b.id));
            }
        }
    }
}

proof fn lemma_has_light(s: StoreModel, n: NodeModel)
    requires
        rows::unique::<Node>(s.nodes),
        s.nodes.contains(n),
    ensures
        graph_laws::has_node(snapshot::snapshot_nodes(s), n.id),
        graph::loaded(
            snapshot::snapshot_nodes(s),
            snapshot::snapshot_edges(s),
        ).index.contains_key(n.id),
{
    let nodes = snapshot::snapshot_nodes(s);
    lemma_snapshot_nodes(s);
    let x = store_edges::light_node()(n);
    assert(nodes.contains(x));
    let k = choose|k: int| 0 <= k < nodes.len() && nodes[k] == x;
    assert(nodes[k].id == n.id);
    graph_laws::lemma_place(nodes, n.id);
}

/// Whether ids are those of the nodes from which `target` can be reached over at
/// least one edge and at most five, the nearest first.
pub open spec fn are_dependents(s: StoreModel, target: Seq<char>, ids: Seq<Seq<char>>) -> bool {
    &&& ids.no_duplicates()
    &&& forall|id: Seq<char>| #[trigger]
        ids.contains(id) <==> graph_laws::has_node(s.nodes, id) && id != target
            && graph_laws::is_within(s.nodes, s.edges, id, target, 5)
    &&& forall|i: int, j: int, d: nat|
        0 <= i < j < ids.len() && #[trigger] graph_laws::is_within(
            s.nodes,
            s.edges,
            ids[j],
            target,
            d,
        ) ==> #[trigger] graph_laws::is_within(s.nodes, s.edges, ids[i], target, d)
}

/// What a change of a name may reach: the symbols that depend on the node that
/// the name means, over at most five edges, the nearest first; two hundred of
/// them are shown, and all are counted.
pub proof fn law_blast_radius_of_a_name(s: StoreModel, name: Seq<char>, n: NodeModel)
    requires
        rows::unique::<Node>(s.nodes),
        is_meant(s, name, n),
    ensures
        ({
            let nodes = snapshot::snapshot_nodes(s);
            let r = snapshot::blast_of(
                s,
                nodes,
                graph::loaded(nodes, snapshot::snapshot_edges(s)),
                name,
            );
            exists|ids: Seq<Seq<char>>| #[trigger]
                are_dependents(s, n.id, ids) && r.total_affected == ids.len() && r.affected.len()
                    == (if ids.len() < 200 {
                    ids.len()
                } else {
                    200
                }) && forall|i: int|
                    0 <= i < r.affected.len() ==> exists|m: NodeModel| #[trigger]
                        s.nodes.contains(m) && m.id == ids[i] && #[trigger] r.affected[i]
                            == snapshot::ReachedModel::Symbol(m.name, m.file_path, m.line_start)
        }),
{
    let nodes = snapshot::snapshot_nodes(s);
    let edges = snapshot::snapshot_edges(s);
    let g = graph::loaded(nodes, edges);
    let r = snapshot::blast_of(s, nodes, g, name);
    let ids = graph::radius_of(g, n.id, 5);
    lemma_meant(s, name, n);
    lemma_snapshot_nodes(s);
    lemma_has_light(s, n);
    graph_laws::law_blast_radius_of_nodes(nodes, edges, n.id, 5);
    assert forall|id: Seq<char>| #[trigger] ids.contains(id) <==> graph_laws::has_node(s.nodes, id)
        && id != n.id && graph_laws::is_within(s.nodes, s.edges, id, n.id, 5) by {
        lemma_same_ids(s, id);
        lemma_same_within(s, id, n.id, 5);
    }
    assert forall|i: int, j: int, d: nat|
        0 <= i < j < ids.len() && #[trigger] graph_laws::is_within(
            s.nodes,
            s.edges,
            ids[j],
            n.id,
            d,
        ) implies #[trigger] graph_laws::is_within(s.nodes, s.edges, ids[i], n.id, d) by {
        lemma_same_within(s, ids[j], n.id, d);
        lemma_same_within(s, ids[i], n.id, d);
    }
    assert(are_dependents(s, n.id, ids));
    let shown = rows::limited(ids, 200);
    assert(r.affected == shown.map_values(snapshot::reached(nodes)));
    assert forall|i: int| 0 <= i < r.affected.len() implies exists|m: NodeModel| #[trigger]
        s.nodes.contains(m) && m.id == ids[i] && #[trigger] r.affected[i]
            == snapshot::ReachedModel::Symbol(m.name, m.file_path, m.line_start) by {
        assert(shown[i] == ids[i]);
        assert(ids.contains(ids[i]));
        lemma_same_ids(s, ids[i]);
        graph_laws::lemma_found_by_id(nodes, ids[i]);
        let k = choose|k: int| 0 <= k < nodes.len() && (#[trigger] nodes[k]).id == ids[i];
        assert(nodes.contains(nodes[k]));
        let x = graph::node_with_id(nodes, ids[i])->0;
        let m = choose|m: NodeModel| #[trigger]
            s.nodes.contains(m) && x == store_edges::light_node()(m);
        assert(r.affected[i] == snapshot::reached(nodes)(ids[i]));
        assert(s.nodes.contains(m));
    }
}

proof fn lemma_definition_order()
    ensures
        order::is_order(usage::definition_order()),
{
    let before = usage::definition_order();
    assert forall|a: (NodeModel, nat), b: (NodeModel, nat)| #[trigger]
        before(a, b) implies !before(b, a) by {
        order::lemma_text_asymmetric(a.0.file_path, b.0.file_path);
    }
    assert forall|a: (NodeModel, nat), b: (NodeModel, nat), c: (NodeModel, nat)|
        #![trigger before(a, b), before(a, c)]
        #![trigger before(a, b), before(c, b)]
        before(a, b) implies before(a, c) || before(c, b) by {
        if a.1 == b.1 && a.1 == c.1 {
            order::lemma_text_between(a.0.file_path, b.0.file_path, c.0.file_path);
        }
    }
}

proof fn lemma_likelihood(files: Seq<Seq<char>>)
    ensures
        order::is_order(tools::likelihood(files)),
{
    let before = tools::likelihood(files);
    assert forall|a: (NodeModel, nat), b: (NodeModel, nat)| #[trigger]
        before(a, b) implies !before(b, a) by {
        order::lemma_text_asymmetric(a.0.file_path, b.0.file_path);
    }
    assert forall|a: (NodeModel, nat), b: (NodeModel, nat), c: (NodeModel, nat)|
        #![trigger before(a, b), before(a, c)]
        #![trigger before(a, b), before(c, b)]
        before(a, b) implies before(a, c) || before(c, b) by {
        if a.1 == b.1 && a.1 == c.1 && tools::votes(files, a.0.file_path) == tools::votes(
            files,
            b.0.file_path,
        ) && tools::votes(files, a.0.file_path) == tools::votes(files, c.0.file_path) {
            order::lemma_text_between(a.0.file_path, b.0.file_path, c.0.file_path);
        }
    }
}

/// Whether a node is a function or a method with a name.
pub open spec fn is_definition_of(s: StoreModel, name: Seq<char>, n: NodeModel) -> bool {
    s.nodes.contains(n) && n.name == name && (n.label == NodeLabel::Function || n.label
        == NodeLabel::Method)
}

/// The definitions of a name are the functions and methods that have it, each
/// with the number of its callers, and those with more callers come first.
pub proof fn law_definitions_of_a_name(s: StoreModel, name: Seq<char>)
    ensures
        ({
            let r = tools::definitions(s, name);
            &&& forall|n: NodeModel, k: nat| #[trigger]
                r.contains((n, k)) <==> is_definition_of(s, name, n) && k
                    == store_queries::caller_count(s.edges, n.id)
            &&& forall|i: int, j: int|
                0 <= i < j < r.len() ==> (#[trigger] r[i]).1 >= (#[trigger] r[j]).1
        }),
{
    let found = rows::kept(s.nodes, usage::callable_named(name));
    let f = usage::with_callers(s.edges);
    let all = found.map_values(f);
    let before = usage::definition_order();
    let r = tools::definitions(s, name);
    rows::lemma_kept(s.nodes, usage::callable_named(name));
    order::lemma_same_items(all, before);
    lemma_definition_order();
    order::law_arranged(all, before);
    assert forall|n: NodeModel, k: nat| #[trigger] r.contains((n, k)) <==> is_definition_of(
        s,
        name,
        n,
    ) && k == store_queries::caller_count(s.edges, n.id) by {
        if r.contains((n, k)) {
            assert(all.contains((n, k)));
            let i = choose|i: int| 0 <= i < all.len() && all[i] == (n, k);
            assert(f(found[i]) == (n, k));
            assert(found.contains(found[i]));
        }
        if is_definition_of(s, name, n) && k == store_queries::caller_count(s.edges, n.id) {
            assert(found.contains(n));
            let i = choose|i: int| 0 <= i < found.len() && found[i] == n;
            assert(all[i] == (n, k));
            assert(all.contains((n, k)));
        }
    }
    assert forall|i: int, j: int| 0 <= i < j < r.len() implies (#[trigger] r[i]).1 >= (
    #[trigger] r[j]).1 by {
        assert(!before(r[j], r[i]));
    }
}

/// Who calls something: of a definition that is pinned, those from which a call
/// leads to it. Of a name that two functions or methods have, nobody is named,
/// but each of them is, with the number of its callers, the most called first.
/// Of another name, those from which a call leads to a node with it.
pub proof fn law_callers_are_never_mixed(
    s: StoreModel,
    name: Seq<char>,
    pin: Option<Seq<char>>,
    documents: Seq<Seq<char>>,
)
    ensures
        match tools::callers_answer(s, name, pin, documents) {
            CallersModel::Pinned(callers) => pin is Some && forall|n: NodeModel| #[trigger]
                callers.contains(n) <==> s.nodes.contains(n) && exists|e: EdgeModel| #[trigger]
                    s.edges.contains(e) && e.relation == EdgeRelation::Calls && e.src == n.id
                        && e.dst == pin->0,
            CallersModel::Ambiguous(candidates, _, _) => pin is None && candidates.len() > 1 && (
            forall|n: NodeModel, k: nat| #[trigger]
                candidates.contains((n, k)) <==> is_definition_of(s, name, n) && k
                    == store_queries::caller_count(s.edges, n.id)) && forall|i: int, j: int|
                0 <= i < j < candidates.len() ==> (#[trigger] candidates[i]).1 >= (
                #[trigger] candidates[j]).1,
            CallersModel::Resolved(callers, _, files, _, _) => pin is None && (forall|
                m: NodeModel,
                n: NodeModel,
            | #[trigger]
                is_definition_of(s, name, m) && #[trigger] is_definition_of(s, name, n) ==> m == n)
                && (forall|n: NodeModel| #[trigger]
                callers.contains(n) <==> s.nodes.contains(n) && exists|
                    e: EdgeModel,
                    m: NodeModel,
                | #[trigger]
                    s.edges.contains(e) && #[trigger] s.nodes.contains(m) && e.relation
                        == EdgeRelation::Calls && e.src == n.id && e.dst == m.id && m.name == name)
                && (forall|f: Seq<char>| #[trigger]
                files.contains(f) <==> (exists|c: CallRowModel| #[trigger]
                    s.calls.contains(c) && c.file_path == f && is_stray(s, name, c)) && forall|
                    n: NodeModel,
                | #[trigger] callers.contains(n) ==> n.file_path != f),
        },
{
    match pin {
        Some(id) => {
            store_queries::law_callers_of_an_id(s, id);
        },
        None => {
            let defs = tools::definitions(s, name);
            let strays = store_lists::stray_files(s, name, None);
            law_definitions_of_a_name(s, name);
            store_queries::law_callers_of_a_name(s, name);
            if defs.len() > 1 {
                let before = tools::likelihood(strays);
                let r = order::arranged(defs, before);
                lemma_likelihood(strays);
                order::law_arranged(defs, before);
                order::lemma_same_items(defs, before);
                assert forall|i: int, j: int| 0 <= i < j < r.len() implies (#[trigger] r[i]).1 >= (
                #[trigger] r[j]).1 by {
                    assert(!before(r[j], r[i]));
                }
            } else {
                let callers = rows::kept(s.nodes, store_queries::caller_of(s, name));
                let keep = tools::in_no_file_of(callers);
                assert forall|m: NodeModel, n: NodeModel| #[trigger]
                    is_definition_of(s, name, m) && #[trigger] is_definition_of(
                        s,
                        name,
                        n,
                    ) implies m == n by {
                    let a = (m, store_queries::caller_count(s.edges, m.id));
                    let b = (n, store_queries::caller_count(s.edges, n.id));
                    assert(defs.contains(a) && defs.contains(b));
                    let i = choose|i: int| 0 <= i < defs.len() && defs[i] == a;
                    let j = choose|j: int| 0 <= j < defs.len() && defs[j] == b;
                    assert(i == j);
                }
                rows::lemma_kept(strays, keep);
                order::lemma_same_items(rows::kept(strays, keep), order::text_order());
                lemma_strays(s, name);
                let files = callers.map_values(|n: NodeModel| n.file_path);
                assert forall|f: Seq<char>| files.contains(f) == !(forall|n: NodeModel| #[trigger]
                    callers.contains(n) ==> n.file_path != f) by {
                    if files.contains(f) {
                        let i = choose|i: int| 0 <= i < files.len() && files[i] == f;
                        assert(callers.contains(callers[i]));
                    }
                    if exists|n: NodeModel| #[trigger] callers.contains(n) && n.file_path == f {
                        let n = choose|n: NodeModel| #[trigger]
                            callers.contains(n) && n.file_path == f;
                        let i = choose|i: int| 0 <= i < callers.len() && callers[i] == n;
                        assert(files[i] == f);
                    }
                }
                let shown = order::arranged(rows::kept(strays, keep), order::text_order());
                assert forall|f: Seq<char>| #[trigger] shown.contains(f) <==> (exists|
                    c: CallRowModel,
                | #[trigger]
                    s.calls.contains(c) && c.file_path == f && is_stray(s, name, c)) && forall|
                    n: NodeModel,
                | #[trigger] callers.contains(n) ==> n.file_path != f by {
                    assert(shown.contains(f) == rows::kept(strays, keep).contains(f));
                    assert(keep(f) == !files.contains(f));
                }
                assert(tools::callers_answer(s, name, pin, documents) matches CallersModel::Resolved(
                    a,
                    _,
                    b,
                    _,
                    _,
                ) && a == callers && b == shown);
            }
        },
    }
}

/// Whether a call site of a name is a stray: it is not that of a package, and
/// no function, method or class with the name stands in its file.
pub open spec fn is_stray(s: StoreModel, name: Seq<char>, c: CallRowModel) -> bool {
    &&& c.call.callee_name == name && !is_of_a_package(s, c)
    &&& forall|n: NodeModel| #[trigger]
        s.nodes.contains(n) && n.name == name && n.file_path == c.file_path ==> n.label
            != NodeLabel::Function && n.label != NodeLabel::Method && n.label != NodeLabel::Class
}

proof fn lemma_strays(s: StoreModel, name: Seq<char>)
    ensures
        forall|f: Seq<char>| #[trigger]
            store_lists::stray_files(s, name, None).contains(f) <==> exists|c: CallRowModel|
             #[trigger]
                s.calls.contains(c) && c.file_path == f && is_stray(s, name, c),
{
    let p = store_lists::stray_site(s, name);
    let found = rows::kept(s.calls, p);
    let files = found.map_values(store_lists::call_file());
    rows::lemma_kept(s.calls, p);
    rows::lemma_distinct(files);
    assert forall|c: CallRowModel| #[trigger] p(c) == is_stray(s, name, c) by {
        lemma_package(s, c);
        rows::lemma_any(
            s.nodes,
            |n: NodeModel| store_queries::defines(name)(n) && n.file_path == c.file_path,
        );
    }
    assert forall|f: Seq<char>| #[trigger]
        store_lists::stray_files(s, name, None).contains(f) <==> exists|c: CallRowModel| #[trigger]
        s.calls.contains(c) && c.file_path == f && is_stray(s, name, c) by {
        if files.contains(f) {
            let i = choose|i: int| 0 <= i < files.len() && files[i] == f;
            assert(found.contains(found[i]));
            assert(s.calls.contains(found[i]) && p(found[i]));
        }
        if exists|c: CallRowModel| #[trigger]
            s.calls.contains(c) && c.file_path == f && is_stray(s, name, c) {
            let c = choose|c: CallRowModel| #[trigger]
                s.calls.contains(c) && c.file_path == f && is_stray(s, name, c);
            assert(p(c));
            assert(found.contains(c));
            let i = choose|i: int| 0 <= i < found.len() && found[i] == c;
            assert(files[i] == f);
        }
    }
}

/// The names that a caller calls without an edge are those of its call sites
/// that are defined, not those of a package and not those of a route, and to
/// which no edge of a call leads from it; each stands there once, in order.
pub proof fn law_unanswered_names(s: StoreModel, caller: Seq<char>)
    ensures
        ({
            let r = store_lists::unanswered_names(s, caller);
            &&& r.no_duplicates()
            &&& forall|i: int, j: int|
                0 <= i < j < r.len() ==> !text::text_less(#[trigger] r[j], #[trigger] r[i])
            &&& forall|name: Seq<char>| #[trigger]
                r.contains(name) <==> is_defined(s, name) && !like::like(name, "route.%"@) && (
                exists|c: CallRowModel| #[trigger]
                    s.calls.contains(c) && c.call.caller_id == caller && c.call.callee_name == name
                        && !is_of_a_package(s, c)) && forall|e: EdgeModel, n: NodeModel| #[trigger]
                    s.edges.contains(e) && #[trigger] s.nodes.contains(n) && e.relation
                        == EdgeRelation::Calls && e.src == caller && e.dst == n.id ==> n.name != name
        }),
{
    broadcast use vstd::seq_lib::group_to_multiset_ensures;

    let p = store_lists::unanswered(s, caller);
    let found = rows::kept(s.calls, p);
    let names = found.map_values(|c: CallRowModel| c.call.callee_name);
    let d = rows::distinct(names);
    let r = store_lists::unanswered_names(s, caller);
    let before = order::text_order();
    rows::lemma_kept(s.calls, p);
    rows::lemma_distinct(names);
    assert(order::is_order(before)) by {
        assert forall|a: Seq<char>, b: Seq<char>| #[trigger] before(a, b) implies !before(b, a) by {
            order::lemma_text_asymmetric(a, b);
        }
        assert forall|a: Seq<char>, b: Seq<char>, c: Seq<char>|
            #![trigger before(a, b), before(a, c)]
            #![trigger before(a, b), before(c, b)]
            before(a, b) implies before(a, c) || before(c, b) by {
            order::lemma_text_between(a, b, c);
        }
    }
    order::law_arranged(d, before);
    order::lemma_same_items(d, before);
    assert forall|i: int, j: int| 0 <= i < j < r.len() implies !text::text_less(
        #[trigger] r[j],
        #[trigger] r[i],
    ) by {
        assert(!before(r[j], r[i]));
    }
    assert(r.no_duplicates()) by {
        let at = order::lemma_arranged_stable(d, before);
        assert forall|i: int, j: int| 0 <= i < r.len() && 0 <= j < r.len() && i != j implies r[i]
            != r[j] by {
            assert(at[i] != at[j]);
            assert(d[at[i]] != d[at[j]]);
        }
    }
    assert forall|name: Seq<char>| #[trigger] r.contains(name) <==> is_defined(s, name)
        && !like::like(name, "route.%"@) && (exists|c: CallRowModel| #[trigger]
        s.calls.contains(c) && c.call.caller_id == caller && c.call.callee_name == name
            && !is_of_a_package(s, c)) && forall|e: EdgeModel, n: NodeModel| #[trigger]
        s.edges.contains(e) && #[trigger] s.nodes.contains(n) && e.relation == EdgeRelation::Calls
            && e.src == caller && e.dst == n.id ==> n.name != name by {
        lemma_any_call(s, caller, name);
        assert forall|c: CallRowModel| c.call.callee_name == name implies (#[trigger] p(c) == (
        c.call.caller_id == caller && !like::like(name, "route.%"@) && !store_queries::has_call(
            s,
            caller,
            name,
        ) && !is_of_a_package(s, c) && is_defined(s, name))) by {
            lemma_package(s, c);
            lemma_defined(s, c);
        }
        if r.contains(name) {
            let i = choose|i: int| 0 <= i < names.len() && names[i] == name;
            assert(found.contains(found[i]));
            assert(p(found[i]) && s.calls.contains(found[i]));
        }
        if exists|c: CallRowModel| #[trigger]
            s.calls.contains(c) && c.call.caller_id == caller && c.call.callee_name == name
                && !is_of_a_package(s, c) {
            let c = choose|c: CallRowModel| #[trigger]
                s.calls.contains(c) && c.call.caller_id == caller && c.call.callee_name == name
                    && !is_of_a_package(s, c);
            if p(c) {
                assert(found.contains(c));
                let i = choose|i: int| 0 <= i < found.len() && found[i] == c;
                assert(names[i] == name);
            }
        }
    }
}

proof fn lemma_any_call(s: StoreModel, caller: Seq<char>, name: Seq<char>)
    ensures
        store_queries::has_call(s, caller, name) == !(forall|e: EdgeModel, n: NodeModel| #[trigger]
            s.edges.contains(e) && #[trigger] s.nodes.contains(n) && e.relation
                == EdgeRelation::Calls && e.src == caller && e.dst == n.id ==> n.name != name),
{
    let p = |e: EdgeModel|
        e.src == caller && e.relation == EdgeRelation::Calls && store_queries::is_named(
            s.nodes,
            e.dst,
            name,
        );
    rows::lemma_any(s.edges, p);
    assert forall|e: EdgeModel| store_queries::is_named(s.nodes, #[trigger] e.dst, name) == (exists|
        n: NodeModel,
    | #[trigger] s.nodes.contains(n) && n.id == e.dst && n.name == name) by {
        rows::lemma_any(s.nodes, |n: NodeModel| n.id == e.dst && n.name == name);
    }
    if !(forall|e: EdgeModel, n: NodeModel| #[trigger]
        s.edges.contains(e) && #[trigger] s.nodes.contains(n) && e.relation == EdgeRelation::Calls
            && e.src == caller && e.dst == n.id ==> n.name != name) {
        let (e, n) = choose|e: EdgeModel, n: NodeModel| #[trigger]
            s.edges.contains(e) && #[trigger] s.nodes.contains(n) && e.relation
                == EdgeRelation::Calls && e.src == caller && e.dst == n.id && n.name == name;
        assert(store_queries::is_named(s.nodes, e.dst, name));
        assert(s.edges.contains(e) && p(e));
    }
    if store_queries::has_call(s, caller, name) {
        let e = choose|e: EdgeModel| #[trigger] s.edges.contains(e) && p(e);
        assert(store_queries::is_named(s.nodes, e.dst, name));
    }
}

} // verus!
