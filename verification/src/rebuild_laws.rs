//! What a run does to the index: which edges it keeps, how far it goes, and what
//! it notes.

use vstd::prelude::*;
use vstd::string::*;

use crate::index;
use crate::index::{ChangeModel, ParsedItem};
use crate::rebuild;
use crate::rebuild::Flags;
use crate::rows;
use crate::store;
use crate::store::StoreModel;
use crate::store_edges;
use crate::store_files;
use crate::store_laws;
use crate::tables::{CallRowModel, CoChangeModel, InheritRowModel};
use crate::tsconfig::ScopeModel;
use crate::types;
use crate::types::{Edge, EdgeModel, EdgeRelation, NodeLabel, NodeModel, ResolutionTier};
use crate::update;
use crate::update::Reach;

verus! {

/// Whether another edge leads over the same relation between the same nodes.
pub open spec fn is_double(new: Seq<EdgeModel>, e: EdgeModel) -> bool {
    exists|n: EdgeModel| #[trigger]
        new.contains(n) && n.src == e.src && n.dst == e.dst && n.relation == e.relation
}

/// Edges that are put in take the place of those over the same relation between
/// the same nodes; all others stay.
pub proof fn law_new_edges_take_the_place(
    edges: Seq<EdgeModel>,
    new: Seq<EdgeModel>,
    e: EdgeModel,
)
    ensures
        rebuild::superseded(edges, new).contains(e) <==> new.contains(e) || (edges.contains(e)
            && !is_double(new, e)),
{
    let test = |e: EdgeModel| !rebuild::has_edge_key(new, e.key());
    let kept = rows::kept(edges, test);
    let all = rebuild::superseded(edges, new);
    rows::lemma_kept(edges, test);
    rows::lemma_any(new, rows::has_key::<Edge>(e.key()));
    assert(rebuild::has_edge_key(new, e.key()) == is_double(new, e)) by {
        if is_double(new, e) {
            let n = choose|n: EdgeModel| #[trigger]
                new.contains(n) && n.src == e.src && n.dst == e.dst && n.relation == e.relation;
            assert(n.key() == e.key());
            assert(new.contains(n) && rows::has_key::<Edge>(e.key())(n));
        }
        if rebuild::has_edge_key(new, e.key()) {
            let n = choose|n: EdgeModel| #[trigger]
                new.contains(n) && rows::has_key::<Edge>(e.key())(n);
            assert(n.key() == e.key());
        }
    }
    assert(test(e) == !is_double(new, e));
    if all.contains(e) {
        let i = choose|i: int| 0 <= i < all.len() && all[i] == e;
        if i < kept.len() {
            assert(kept[i] == e);
            assert(kept.contains(e));
        } else {
            assert(new[i - kept.len()] == e);
        }
    }
    if kept.contains(e) {
        let i = choose|i: int| 0 <= i < kept.len() && kept[i] == e;
        assert(all[i] == e);
    }
    if new.contains(e) {
        let i = choose|i: int| 0 <= i < new.len() && new[i] == e;
        assert(all[kept.len() + i] == e);
    }
}

/// Whether a node is at both ends of an edge.
pub open spec fn has_both_ends(nodes: Seq<NodeModel>, e: EdgeModel) -> bool {
    (exists|n: NodeModel| #[trigger] nodes.contains(n) && n.id == e.src) && (exists|n: NodeModel|
     #[trigger]
        nodes.contains(n) && n.id == e.dst)
}

/// Whether an edge is grounded is whether nodes are at both of its ends.
pub proof fn law_grounded_edges_have_both_ends(nodes: Seq<NodeModel>, e: EdgeModel)
    ensures
        store_edges::grounded(nodes)(e) <==> has_both_ends(nodes, e),
        store_edges::dangling(nodes)(e) <==> !has_both_ends(nodes, e),
{
    rows::lemma_any(nodes, store::node_is(e.src));
    rows::lemma_any(nodes, store::node_is(e.dst));
    assert forall|n: NodeModel| #[trigger] nodes.contains(n) implies store::node_is(e.src)(n) == (
    n.id == e.src) && store::node_is(e.dst)(n) == (n.id == e.dst) by {}
}

/// Whether a graph has no fault: every edge has nodes at both ends, the ids of
/// code are normalised, and every call of syntax says why it is there.
pub open spec fn is_sound(s: StoreModel) -> bool {
    &&& forall|e: EdgeModel| #[trigger] s.edges.contains(e) ==> has_both_ends(s.nodes, e)
    &&& forall|n: NodeModel| #[trigger]
        s.nodes.contains(n) && (n.label == NodeLabel::Function || n.label == NodeLabel::Method
            || n.label == NodeLabel::Class || n.label == NodeLabel::Interface || n.label
            == NodeLabel::Enum || n.label == NodeLabel::Type || n.label == NodeLabel::Module
            || n.label == NodeLabel::File) ==> forall|i: int|
            0 <= i < n.id.len() ==> ('a' <= #[trigger] n.id[i] <= 'z' || '0' <= n.id[i] <= '9'
                || n.id[i] == '.' || n.id[i] == '_')
    &&& forall|e: EdgeModel| #[trigger]
        s.edges.contains(e) && e.relation == EdgeRelation::Calls && e.tier
            == ResolutionTier::TreeSitter ==> !store_edges::lacks_reason(e.metadata)
}

proof fn lemma_none_kept<M>(s: Seq<M>, test: spec_fn(M) -> bool)
    ensures
        rows::kept(s, test).len() == 0 <==> forall|x: M| #[trigger] s.contains(x) ==> !test(x),
{
    let k = rows::kept(s, test);
    rows::lemma_kept(s, test);
    if k.len() > 0 {
        assert(k.contains(k[0]));
    }
    if exists|x: M| #[trigger] s.contains(x) && test(x) {
        let x = choose|x: M| #[trigger] s.contains(x) && test(x);
        assert(k.contains(x));
    }
}

/// A graph is said to have no fault just where it has none.
pub proof fn law_faults_are_told(s: StoreModel)
    ensures
        store_edges::faults(s).len() == 0 <==> is_sound(s),
{
    lemma_none_kept(s.edges, store_edges::dangling(s.nodes));
    lemma_none_kept(s.nodes, store_edges::odd_id());
    lemma_none_kept(s.edges, store_edges::unjustified());
    assert forall|e: EdgeModel| #[trigger] s.edges.contains(e) implies store_edges::dangling(
        s.nodes,
    )(e) == !has_both_ends(s.nodes, e) by {
        law_grounded_edges_have_both_ends(s.nodes, e);
    }
    let a = rows::kept(s.edges, store_edges::dangling(s.nodes));
    let b = rows::kept(s.nodes, store_edges::odd_id());
    let c = rows::kept(s.edges, store_edges::unjustified());
    assert(store_edges::faults(s).len() == 0 <==> a.len() == 0 && b.len() == 0 && c.len() == 0);
    if is_sound(s) {
        assert forall|n: NodeModel| #[trigger] s.nodes.contains(n) implies !store_edges::odd_id()(
            n,
        ) by {
            if store_edges::is_code_label(n.label) {
                assert forall|i: int| 0 <= i < n.id.len() implies store_edges::is_id_char(
                    #[trigger] n.id[i],
                ) by {}
            }
        }
    }
    if b.len() == 0 {
        assert forall|n: NodeModel| #[trigger]
            s.nodes.contains(n) && store_edges::is_code_label(n.label) implies forall|i: int|
            0 <= i < n.id.len() ==> ('a' <= #[trigger] n.id[i] <= 'z' || '0' <= n.id[i] <= '9'
                || n.id[i] == '.' || n.id[i] == '_') by {
            assert(!store_edges::odd_id()(n));
            assert forall|i: int| 0 <= i < n.id.len() implies ('a' <= #[trigger] n.id[i] <= 'z'
                || '0' <= n.id[i] <= '9' || n.id[i] == '.' || n.id[i] == '_') by {
                assert(store_edges::is_id_char(n.id[i]));
            }
        }
    }
}

/// Whether a clause of inheritance mentions a name.
pub open spec fn is_in_a_clause(s: StoreModel, name: Seq<char>) -> bool {
    exists|i: InheritRowModel| #[trigger]
        s.inherits.contains(i) && (i.impl_name == name || i.super_name == name)
}

/// How far a run goes: nowhere where nothing changed, nothing is gone and
/// nothing was asked for. It goes through the whole repository where that was
/// asked for, where nothing was indexed before, where more than functions
/// changed, where a clause of inheritance mentions what changed, and where an
/// index of a compiler or the setting for ambiguous edges is new. Else it goes
/// as far as the changes reach.
pub proof fn law_how_far_a_run_goes(c: ChangeModel, changed: nat, gone: nat, flags: Flags)
    ensures
        ({
            let r = update::reach_of(c, changed, gone, flags);
            let idle = changed == 0 && gone == 0 && !flags.full && !flags.indexstore
                && !flags.scip_changed;
            let far = flags.full || flags.fresh || c.beyond || flags.ambiguous_given
                || flags.scip_changed || flags.scip_reacquire || flags.indexstore
                || flags.indexstore_newer || exists|n: Seq<char>| #[trigger]
                c.dirty.contains(n) && is_in_a_clause(c.store, n);
            &&& r == Reach::Nothing <==> idle
            &&& r == Reach::Everything <==> !idle && far
            &&& r == Reach::Wave <==> !idle && !far
        }),
{
    assert forall|n: Seq<char>| #[trigger] rebuild::in_clause(c.store, n) == is_in_a_clause(
        c.store,
        n,
    ) by {
        rows::lemma_any(
            c.store.inherits,
            |i: InheritRowModel| i.impl_name == n || i.super_name == n,
        );
    }
    let far = exists|n: Seq<char>| #[trigger] c.dirty.contains(n) && is_in_a_clause(c.store, n);
    if far {
        let n = choose|n: Seq<char>| #[trigger] c.dirty.contains(n) && is_in_a_clause(c.store, n);
        assert(rebuild::in_clause(c.store, n));
    } else {
        assert forall|n: Seq<char>| #[trigger] c.dirty.contains(n) implies !rebuild::in_clause(
            c.store,
            n,
        ) by {
            assert(!is_in_a_clause(c.store, n));
        }
    }
}

/// Calls are counted at their two ends: one more edge is one more call to its
/// target and from its source, where it is that of a call.
pub proof fn law_calls_are_counted_at_their_ends(
    edges: Seq<EdgeModel>,
    e: EdgeModel,
    id: Seq<char>,
)
    ensures
        rebuild::fan_in(Seq::empty(), id) == 0,
        rebuild::fan_out(Seq::empty(), id) == 0,
        rebuild::fan_in(edges.push(e), id) == rebuild::fan_in(edges, id) + (if e.relation
            == EdgeRelation::Calls && e.dst == id {
            1nat
        } else {
            0nat
        }),
        rebuild::fan_out(edges.push(e), id) == rebuild::fan_out(edges, id) + (if e.relation
            == EdgeRelation::Calls && e.src == id {
            1nat
        } else {
            0nat
        }),
{
    assert(edges.push(e).drop_last() =~= edges);
}

/// A run that began is remembered: another run of the same engine with the same
/// aliases does not index everything anew unless it is asked to, and one of
/// another engine or with other aliases does. The index is that of the
/// repository which the run was for, and of no other.
pub proof fn law_run_is_remembered(
    s: StoreModel,
    root: Seq<char>,
    engine: Seq<char>,
    aliases: Seq<char>,
    other: Seq<char>,
)
    ensures
        ({
            let t = update::begun(s, root, engine, aliases);
            &&& !update::needs_full(t, false, engine, aliases)
            &&& update::needs_full(t, true, engine, aliases)
            &&& other != engine ==> update::needs_full(t, false, other, aliases)
            &&& other != aliases ==> update::needs_full(t, false, engine, other)
            &&& !update::is_foreign(t, root)
            &&& other != root ==> update::is_foreign(t, other)
            &&& t.nodes == s.nodes && t.edges == s.edges && t.calls == s.calls
        }),
{
    reveal_strlit("repo_root");
    reveal_strlit("parser_version");
    reveal_strlit("tsconfig_hash");
    assert("repo_root"@.len() == 9 && "parser_version"@.len() == 14 && "tsconfig_hash"@.len() == 13);
    let a = update::with_meta(s, "repo_root"@, root);
    let b = update::with_meta(a, "parser_version"@, engine);
    let t = update::with_meta(b, "tsconfig_hash"@, aliases);
    store_laws::law_meta_reads_back(s.meta, "repo_root"@, root, "repo_root"@);
    store_laws::law_meta_reads_back(a.meta, "parser_version"@, engine, "repo_root"@);
    store_laws::law_meta_reads_back(a.meta, "parser_version"@, engine, "parser_version"@);
    store_laws::law_meta_reads_back(b.meta, "tsconfig_hash"@, aliases, "repo_root"@);
    store_laws::law_meta_reads_back(b.meta, "tsconfig_hash"@, aliases, "parser_version"@);
    store_laws::law_meta_reads_back(b.meta, "tsconfig_hash"@, aliases, "tsconfig_hash"@);
}

/// The files that changed together are taken from the history once for each
/// commit.
pub proof fn law_history_is_read_once_for_a_commit(
    s: StoreModel,
    head: Seq<char>,
    pairs: Seq<CoChangeModel>,
    other: Seq<char>,
)
    ensures
        ({
            let t = update::with_cochanges(s, Some(head), pairs);
            &&& !update::cochanges_wanted(t, Some(head))
            &&& other != head ==> update::cochanges_wanted(t, Some(other))
            &&& update::cochanges_wanted(t, None)
        }),
{
    if update::cochanges_wanted(s, Some(head)) {
        store_laws::law_meta_reads_back(s.meta, "cochanges_head"@, head, "cochanges_head"@);
    }
}

/// What is parsed of a file takes the place of what was held of it: the call
/// sites of the file are those that were parsed, and those of other files stay.
/// So do the nodes of other files, and none of the file is left before the new
/// ones are put in.
pub proof fn law_parsed_file_takes_the_place(
    s: StoreModel,
    item: ParsedItem,
    scopes: Seq<ScopeModel>,
)
    ensures
        ({
            let t = index::with_item(s, item, scopes);
            &&& forall|r: CallRowModel| #[trigger]
                t.calls.contains(r) <==> (r.file_path != item.rel@ && s.calls.contains(r)) || (
                r.file_path == item.rel@ && types::call_views(item.parsed.calls@).contains(r.call))
            &&& forall|n: NodeModel| #[trigger]
                t.nodes.contains(n) <==> s.nodes.contains(n) && n.file_path != item.rel@
            &&& t.edges == s.edges
        }),
{
    let t = index::with_item(s, item, scopes);
    let rel = item.rel@;
    let out = store_files::calls_outside(rel);
    let first = rows::kept(s.calls, out);
    let second = rows::kept(first, out);
    let parsed = types::call_views(item.parsed.calls@);
    let new = parsed.map_values(store_files::call_row(rel));
    rows::lemma_kept(s.calls, out);
    rows::lemma_kept(first, out);
    rows::lemma_kept(s.nodes, store::node_outside(rel));
    assert(t.calls == second + new);
    assert forall|r: CallRowModel| #[trigger] t.calls.contains(r) <==> (r.file_path != rel
        && s.calls.contains(r)) || (r.file_path == rel && parsed.contains(r.call)) by {
        if t.calls.contains(r) {
            let i = choose|i: int| 0 <= i < t.calls.len() && t.calls[i] == r;
            if i < second.len() {
                assert(second[i] == r);
                assert(second.contains(r));
                assert(first.contains(r));
            } else {
                let k = i - second.len();
                assert(new[k] == r);
                assert(parsed[k] == r.call);
                assert(parsed.contains(r.call));
            }
        }
        if r.file_path != rel && s.calls.contains(r) {
            assert(first.contains(r));
            assert(second.contains(r));
            let i = choose|i: int| 0 <= i < second.len() && second[i] == r;
            assert(t.calls[i] == r);
        }
        if r.file_path == rel && parsed.contains(r.call) {
            let k = choose|k: int| 0 <= k < parsed.len() && parsed[k] == r.call;
            assert(new[k] == r);
            assert(t.calls[second.len() + k] == r);
        }
    }
}

/// A file that is gone leaves nothing behind: no node, no call site, no edge from
/// it and no note; all else stays.
pub proof fn law_gone_file_leaves_nothing(s: StoreModel, file: Seq<char>)
    ensures
        ({
            let t = index::without_gone(s, file);
            &&& forall|n: NodeModel| #[trigger]
                t.nodes.contains(n) <==> s.nodes.contains(n) && n.file_path != file
            &&& forall|r: CallRowModel| #[trigger]
                t.calls.contains(r) <==> s.calls.contains(r) && r.file_path != file
            &&& forall|e: EdgeModel| #[trigger]
                t.edges.contains(e) <==> s.edges.contains(e) && e.src_file != file
        }),
{
    rows::lemma_kept(s.nodes, store::node_outside(file));
    rows::lemma_kept(s.calls, store_files::calls_outside(file));
    rows::lemma_kept(s.edges, store_edges::edge_outside(file));
}

} // verus!
