//! What a review and a search for dead code say of the rows that are stored.

use vstd::prelude::*;
use vstd::string::*;

use crate::answer_laws;
use crate::changes::ChangeKind;
use crate::dead_code;
use crate::dead_code::{AssessmentModel, LeanModel, RefModel, ReferenceKind};
use crate::order;
use crate::review;
use crate::review::{FactsModel, FileGraphCoverage, RankedModel, RiskTier, RowModel, TestEvidence};
use crate::rows;
use crate::store;
use crate::store::StoreModel;
use crate::store_lists;
use crate::store_queries;
use crate::tables::{CallRowModel, CoChangeModel, ManifestEntryModel};
use crate::types;
use crate::types::{EdgeModel, EdgeRelation, NodeLabel, NodeModel};
use crate::words;

verus! {

/// Whether a symbol is one that a review tells of.
pub open spec fn is_symbol(n: NodeModel) -> bool {
    n.label == NodeLabel::Function || n.label == NodeLabel::Method || n.label == NodeLabel::Class
        || n.label == NodeLabel::Interface || n.label == NodeLabel::Enum || n.label
        == NodeLabel::Type
}

/// What a review says of a symbol: where it stands; how many edges of calls lead
/// to it, and how many call sites have its name; and that it is tested by an
/// edge of a test to it, or else by a call site in a test file, or not at all.
pub proof fn law_row_states_the_symbol(s: StoreModel, n: NodeModel)
    ensures
        ({
            let r = review::row_of(s)(n);
            &&& r.id == n.id && r.name == n.name && r.file == n.file_path && r.line == n.line_start
            &&& r.fan_in_resolved == rows::kept(
                s.edges,
                |e: EdgeModel| e.relation == EdgeRelation::Calls && e.dst == n.id,
            ).len()
            &&& r.textual_sites == rows::kept(
                s.calls,
                |c: CallRowModel| c.call.callee_name == n.name,
            ).len()
            &&& types::meta_count(n.metadata, "complexity"@) matches Some(c) ==> r.complexity == c
            &&& types::meta_count(n.metadata, "complexity"@) is None ==> r.complexity == 1
            &&& r.tested == TestEvidence::Resolved <==> exists|e: EdgeModel| #[trigger]
                s.edges.contains(e) && e.relation == EdgeRelation::Tests && e.dst == n.id
            &&& r.tested == TestEvidence::Absent <==> (forall|e: EdgeModel| #[trigger]
                s.edges.contains(e) && e.relation == EdgeRelation::Tests ==> e.dst != n.id) && forall|
                c: CallRowModel,
            | #[trigger]
                s.calls.contains(c) && words::test_path(c.file_path) ==> c.call.callee_name
                    != n.name
        }),
{
    let a = |e: EdgeModel| e.relation == EdgeRelation::Calls && e.dst == n.id;
    let b = |c: CallRowModel| c.call.callee_name == n.name;
    assert forall|e: EdgeModel| #[trigger] store_queries::calls_to(n.id)(e) == a(e) by {}
    assert forall|c: CallRowModel| #[trigger] store_queries::calls_naming(n.name)(c) == b(c) by {}
    answer_laws::lemma_kept_same(s.edges, store_queries::calls_to(n.id), a);
    answer_laws::lemma_kept_same(s.calls, store_queries::calls_naming(n.name), b);
    rows::lemma_any(s.edges, review::tests_of(n.id));
    rows::lemma_any(s.calls, review::test_calls(n.name));
    assert forall|e: EdgeModel| #[trigger] s.edges.contains(e) implies (review::tests_of(n.id)(e)
        == (e.relation == EdgeRelation::Tests && e.dst == n.id)) by {}
    assert forall|c: CallRowModel| #[trigger] s.calls.contains(c) implies (review::test_calls(
        n.name,
    )(c) == (c.call.callee_name == n.name && words::test_path(c.file_path))) by {}
}

proof fn lemma_part_rows(s: StoreModel, f: FactsModel)
    ensures
        f.change.kind == ChangeKind::Deleted ==> review::part_of(s, f).rows.len() == 0,
        f.change.kind != ChangeKind::Deleted ==> forall|r: RowModel| #[trigger]
            review::part_of(s, f).rows.contains(r) <==> exists|n: NodeModel| #[trigger]
                s.nodes.contains(n) && n.file_path == f.change.path && is_symbol(n) && r
                    == review::row_of(s)(n),
{
    if f.change.kind != ChangeKind::Deleted {
        let syms = review::file_symbols(s, f.change.path);
        let g = review::row_of(s);
        let all = review::part_of(s, f).rows;
        assert(all == syms.map_values(g));
        answer_laws::law_symbols_of_a_file(s, f.change.path);
        assert forall|r: RowModel| #[trigger] all.contains(r) <==> exists|n: NodeModel| #[trigger]
            s.nodes.contains(n) && n.file_path == f.change.path && is_symbol(n) && r == g(n) by {
            if all.contains(r) {
                let i = choose|i: int| 0 <= i < all.len() && all[i] == r;
                assert(r == g(syms[i]));
                assert(syms.contains(syms[i]));
                assert(s.nodes.contains(syms[i]));
            }
            if exists|n: NodeModel| #[trigger]
                s.nodes.contains(n) && n.file_path == f.change.path && is_symbol(n) && r == g(n) {
                let n = choose|n: NodeModel| #[trigger]
                    s.nodes.contains(n) && n.file_path == f.change.path && is_symbol(n) && r
                        == g(n);
                assert(syms.contains(n));
                let i = choose|i: int| 0 <= i < syms.len() && syms[i] == n;
                assert(all[i] == r);
            }
        }
    }
}

proof fn lemma_parts_rows(s: StoreModel, facts: Seq<FactsModel>, k: nat, r: RowModel)
    requires
        k <= facts.len(),
    ensures
        review::parts_of(s, facts, k).rows.contains(r) <==> exists|j: int|
            0 <= j < k && review::part_of(s, #[trigger] facts[j]).rows.contains(r),
    decreases k,
{
    if k > 0 {
        let rest = review::parts_of(s, facts, (k - 1) as nat).rows;
        let part = review::part_of(s, facts[k - 1]).rows;
        let all = review::parts_of(s, facts, k).rows;
        lemma_parts_rows(s, facts, (k - 1) as nat, r);
        assert(all == rest + part);
        if all.contains(r) {
            let i = choose|i: int| 0 <= i < all.len() && all[i] == r;
            if i < rest.len() {
                assert(rest[i] == r);
                assert(rest.contains(r));
            } else {
                assert(part[i - rest.len()] == r);
                assert(part.contains(r));
                assert(review::part_of(s, facts[k - 1]).rows.contains(r));
            }
        }
        if rest.contains(r) {
            let i = choose|i: int| 0 <= i < rest.len() && rest[i] == r;
            assert(all[i] == r);
        }
        if part.contains(r) {
            let i = choose|i: int| 0 <= i < part.len() && part[i] == r;
            assert(all[rest.len() + i] == r);
        }
        if exists|j: int| 0 <= j < k && review::part_of(s, #[trigger] facts[j]).rows.contains(r) {
            let j = choose|j: int|
                0 <= j < k && review::part_of(s, #[trigger] facts[j]).rows.contains(r);
            if j == k - 1 {
                assert(part.contains(r));
            } else {
                assert(rest.contains(r));
            }
        }
    }
}

/// A review tells of each symbol of the files that a diff changes and does not
/// delete, and of no other, and names the files of the diff in order.
pub proof fn law_review_covers_the_diff(s: StoreModel, base: Seq<char>, facts: Seq<FactsModel>)
    ensures
        ({
            let v = review::review_of(s, base, facts);
            &&& v.base == base
            &&& v.changed_files.len() == facts.len()
            &&& forall|k: int|
                0 <= k < facts.len() ==> #[trigger] v.changed_files[k] == facts[k].change.path
            &&& forall|r: RowModel| #[trigger]
                v.rows.contains(r) <==> exists|k: int, n: NodeModel|
                    0 <= k < facts.len() && #[trigger] s.nodes.contains(n) && (
                    #[trigger] facts[k]).change.kind != ChangeKind::Deleted && n.file_path
                        == facts[k].change.path && is_symbol(n) && r == review::row_of(s)(n)
        }),
{
    let v = review::review_of(s, base, facts);
    assert forall|r: RowModel| #[trigger] v.rows.contains(r) <==> exists|k: int, n: NodeModel|
        0 <= k < facts.len() && #[trigger] s.nodes.contains(n) && (#[trigger] facts[k]).change.kind
            != ChangeKind::Deleted && n.file_path == facts[k].change.path && is_symbol(n) && r
            == review::row_of(s)(n) by {
        lemma_parts_rows(s, facts, facts.len(), r);
        if v.rows.contains(r) {
            let j = choose|j: int|
                0 <= j < facts.len() && review::part_of(s, #[trigger] facts[j]).rows.contains(r);
            lemma_part_rows(s, facts[j]);
            assert(facts[j].change.kind != ChangeKind::Deleted);
            let n = choose|n: NodeModel| #[trigger]
                s.nodes.contains(n) && n.file_path == facts[j].change.path && is_symbol(n) && r
                    == review::row_of(s)(n);
            assert(s.nodes.contains(n));
        }
        if exists|k: int, n: NodeModel|
            0 <= k < facts.len() && #[trigger] s.nodes.contains(n) && (
            #[trigger] facts[k]).change.kind != ChangeKind::Deleted && n.file_path
                == facts[k].change.path && is_symbol(n) && r == review::row_of(s)(n) {
            let (k, n) = choose|k: int, n: NodeModel|
                0 <= k < facts.len() && #[trigger] s.nodes.contains(n) && (
                #[trigger] facts[k]).change.kind != ChangeKind::Deleted && n.file_path
                    == facts[k].change.path && is_symbol(n) && r == review::row_of(s)(n);
            lemma_part_rows(s, facts[k]);
            assert(review::part_of(s, facts[k]).rows.contains(r));
        }
    }
}

/// What the graph knows of a source file: that it has symbols of it; that it has
/// none though it was indexed; or that it was never indexed.
pub proof fn law_coverage_of_a_source_file(s: StoreModel, path: Seq<char>)
    ensures
        review::coverage_of_file(s, path, true) == FileGraphCoverage::Deleted,
        !review::is_code(path) ==> review::coverage_of_file(s, path, false)
            == FileGraphCoverage::Unsupported,
        review::is_code(path) ==> (review::coverage_of_file(s, path, false)
            == FileGraphCoverage::IndexedWithSymbols <==> exists|n: NodeModel| #[trigger]
            s.nodes.contains(n) && n.file_path == path && is_symbol(n)),
        review::is_code(path) ==> (review::coverage_of_file(s, path, false)
            == FileGraphCoverage::NotIndexed <==> (forall|n: NodeModel| #[trigger]
            s.nodes.contains(n) && is_symbol(n) ==> n.file_path != path) && forall|
            m: ManifestEntryModel,
        | #[trigger] s.manifest.contains(m) ==> m.file_path != path),
{
    rows::lemma_any(s.nodes, store_queries::symbol_in(path));
    rows::lemma_any(s.manifest, store::manifest_is(path));
    assert forall|n: NodeModel| #[trigger] s.nodes.contains(n) implies (store_queries::symbol_in(
        path,
    )(n) == (n.file_path == path && is_symbol(n))) by {}
}

/// A review puts the riskiest symbols first; none is added or lost, and a symbol
/// is at high risk from six points on and at medium risk from two and a half.
pub proof fn law_riskiest_come_first(found: Seq<RowModel>, risks: Seq<u64>)
    requires
        found.len() == risks.len(),
    ensures
        ({
            let r = order::arranged(review::rated(found, risks), review::risk_order());
            &&& r.len() == found.len()
            &&& forall|i: int, j: int|
                0 <= i < j < r.len() ==> (#[trigger] r[i]).risk >= (#[trigger] r[j]).risk
            &&& forall|x: RankedModel| #[trigger]
                r.contains(x) ==> exists|k: int|
                    0 <= k < found.len() && x.row == #[trigger] found[k] && x.risk == risks[k]
            &&& forall|i: int|
                0 <= i < r.len() ==> ((#[trigger] r[i]).tier == RiskTier::High <==> r[i].risk
                    >= 0x4018_0000_0000_0000) && (r[i].tier == RiskTier::Low <==> r[i].risk
                    < 0x4004_0000_0000_0000)
        }),
{
    let all = review::rated(found, risks);
    let before = review::risk_order();
    let r = order::arranged(all, before);
    assert(order::is_order(before));
    order::law_arranged(all, before);
    order::lemma_same_items(all, before);
    assert forall|i: int, j: int| 0 <= i < j < r.len() implies (#[trigger] r[i]).risk >= (
    #[trigger] r[j]).risk by {
        assert(!before(r[j], r[i]));
    }
    assert forall|x: RankedModel| #[trigger] r.contains(x) implies exists|k: int|
        0 <= k < found.len() && x.row == #[trigger] found[k] && x.risk == risks[k] by {
        assert(all.contains(x));
        let k = choose|k: int| 0 <= k < all.len() && all[k] == x;
        assert(x.row == found[k]);
    }
    assert forall|i: int| 0 <= i < r.len() implies ((#[trigger] r[i]).tier == RiskTier::High
        <==> r[i].risk >= 0x4018_0000_0000_0000) && (r[i].tier == RiskTier::Low <==> r[i].risk
        < 0x4004_0000_0000_0000) by {
        assert(r.contains(r[i]));
        assert(all.contains(r[i]));
        let k = choose|k: int| 0 <= k < all.len() && all[k] == r[i];
        assert(all[k].tier == review::tier_of(risks[k]));
    }
}

proof fn lemma_hint_pairs(s: StoreModel, changed: Seq<Seq<char>>, k: nat)
    requires
        k <= changed.len(),
    ensures
        forall|p: CoChangeModel| #[trigger]
            review::hint_pairs(s, changed, k).contains(p) ==> p.n >= 3 && !changed.contains(
                p.file_b,
            ) && changed.contains(p.file_a) && is_pair(s, p),
    decreases k,
{
    if k > 0 {
        let rest = review::hint_pairs(s, changed, (k - 1) as nat);
        let file = changed[k - 1];
        let near = review::partners(s, file, 5);
        let found = rows::kept(near, review::is_hint(changed));
        let all = review::hint_pairs(s, changed, k);
        lemma_hint_pairs(s, changed, (k - 1) as nat);
        rows::lemma_kept(near, review::is_hint(changed));
        let mine = rows::kept(s.cochanges, store_lists::pair_with(file));
        let turned = mine.map_values(store_lists::partner(file));
        rows::lemma_kept(s.cochanges, store_lists::pair_with(file));
        order::lemma_same_items(turned, store_lists::cochange_order());
        let sorted = order::arranged(turned, store_lists::cochange_order());
        assert(near == rows::limited(sorted, 5));
        assert forall|p: CoChangeModel| #[trigger] all.contains(p) implies p.n >= 3
            && !changed.contains(p.file_b) && changed.contains(p.file_a) && is_pair(s, p) by {
            let i = choose|i: int| 0 <= i < all.len() && all[i] == p;
            if i < rest.len() {
                assert(rest[i] == p);
                assert(rest.contains(p));
            } else {
                assert(found[i - rest.len()] == p);
                assert(found.contains(p));
                assert(near.contains(p));
                let j = choose|j: int| 0 <= j < near.len() && near[j] == p;
                assert(sorted[j] == p);
                assert(sorted.contains(p));
                assert(turned.contains(p));
                let q = choose|q: int| 0 <= q < turned.len() && turned[q] == p;
                assert(mine.contains(mine[q]));
                assert(s.cochanges.contains(mine[q]));
                assert(changed.contains(changed[k - 1]));
            }
        }
    }
}

/// Whether two files changed together as often as a pair says.
pub open spec fn is_pair(s: StoreModel, p: CoChangeModel) -> bool {
    exists|c: CoChangeModel| #[trigger]
        s.cochanges.contains(c) && c.n == p.n && ((c.file_a == p.file_a && c.file_b == p.file_b)
            || (c.file_a == p.file_b && c.file_b == p.file_a))
}

proof fn lemma_most(pairs: Seq<CoChangeModel>, file: Seq<char>)
    ensures
        forall|p: CoChangeModel| #[trigger]
            pairs.contains(p) && p.file_b == file ==> p.n <= review::most(pairs, file),
        (exists|p: CoChangeModel| #[trigger] pairs.contains(p) && p.file_b == file && p.n > 0)
            ==> exists|p: CoChangeModel| #[trigger]
            pairs.contains(p) && p.file_b == file && p.n == review::most(pairs, file),
        review::most(pairs, file) > 0 ==> exists|p: CoChangeModel| #[trigger]
            pairs.contains(p) && p.file_b == file && p.n == review::most(pairs, file),
    decreases pairs.len(),
{
    if pairs.len() > 0 {
        let d = pairs.drop_last();
        lemma_most(d, file);
        assert(pairs[pairs.len() - 1] == pairs.last());
        assert(pairs.contains(pairs.last()));
        assert forall|p: CoChangeModel| #[trigger] pairs.contains(p) implies p == pairs.last()
            || d.contains(p) by {
            let i = choose|i: int| 0 <= i < pairs.len() && pairs[i] == p;
            if i < d.len() {
                assert(d[i] == p);
            }
        }
        assert forall|p: CoChangeModel| #[trigger] d.contains(p) implies pairs.contains(p) by {
            let i = choose|i: int| 0 <= i < d.len() && d[i] == p;
            assert(pairs[i] == p);
        }
        if review::most(pairs, file) > 0 {
            if review::most(d, file) > 0 {
                let p = choose|p: CoChangeModel| #[trigger]
                    d.contains(p) && p.file_b == file && p.n == review::most(d, file);
                assert(pairs.contains(p));
            }
        }
    }
}

/// A hint names a file outside the diff that changed at least three times
/// together with one inside it, with how often; no file is named twice.
pub proof fn law_hints_changed_together(s: StoreModel, changed: Seq<Seq<char>>)
    ensures
        ({
            let r = review::hints_for(s, changed);
            &&& forall|i: int|
                0 <= i < r.len() ==> (#[trigger] r[i]).1 >= 3 && !changed.contains(r[i].0)
                    && exists|a: Seq<char>| #[trigger]
                    changed.contains(a) && is_pair(
                        s,
                        CoChangeModel { file_a: a, file_b: r[i].0, n: r[i].1 },
                    )
            &&& forall|i: int, j: int|
                0 <= i < j < r.len() ==> (#[trigger] r[i]).0 != (#[trigger] r[j]).0
        }),
{
    let pairs = review::hint_pairs(s, changed, changed.len());
    let names = pairs.map_values(|c: CoChangeModel| c.file_b);
    let once = rows::distinct(names);
    let sorted = order::arranged(once, order::text_order());
    let r = review::hints_for(s, changed);
    lemma_hint_pairs(s, changed, changed.len());
    rows::lemma_distinct(names);
    order::lemma_same_items(once, order::text_order());
    let at = order::lemma_arranged_stable(once, order::text_order());
    assert forall|i: int| 0 <= i < r.len() implies (#[trigger] r[i]).1 >= 3 && !changed.contains(
        r[i].0,
    ) && exists|a: Seq<char>| #[trigger]
        changed.contains(a) && is_pair(
            s,
            CoChangeModel { file_a: a, file_b: r[i].0, n: r[i].1 },
        ) by {
        let f = sorted[i];
        assert(sorted.contains(f));
        assert(names.contains(f));
        let k = choose|k: int| 0 <= k < names.len() && names[k] == f;
        assert(names[k] == pairs[k].file_b);
        assert(pairs.contains(pairs[k]));
        lemma_most(pairs, f);
        let p = choose|p: CoChangeModel| #[trigger]
            pairs.contains(p) && p.file_b == f && p.n == review::most(pairs, f);
        assert(changed.contains(p.file_a));
        assert(p == CoChangeModel { file_a: p.file_a, file_b: r[i].0, n: r[i].1 });
    }
    assert forall|i: int, j: int| 0 <= i < j < r.len() implies (#[trigger] r[i]).0 != (
    #[trigger] r[j]).0 by {
        assert(at[i] != at[j]);
        assert(once[at[i]] != once[at[j]]);
    }
}

/// Whether something speaks for a function: a mention of the last part of its
/// name, which counts in its own file alone where it is an export or a
/// registration.
pub open spec fn is_mentioned(n: NodeModel, refs: Seq<RefModel>) -> bool {
    exists|r: RefModel| #[trigger]
        refs.contains(r) && r.name == dead_code::leaf(n.name) && ((r.kind
            != ReferenceKind::FfiExport && r.kind != ReferenceKind::PublicExport && r.kind
            != ReferenceKind::FrameworkRegistration) || r.file_path == n.file_path)
}

/// Whether nothing uses a function or method outside the tests: no call site has
/// its name, no edge of a call leads to it, no route has it as its handler,
/// nothing mentions it, and it is no entry point by its name.
pub open spec fn is_unused(s: StoreModel, refs: Seq<RefModel>, n: NodeModel) -> bool {
    &&& s.nodes.contains(n) && (n.label == NodeLabel::Function || n.label == NodeLabel::Method)
    &&& !words::test_path(n.file_path)
    &&& n.name != "main"@ && n.name != "init"@ && n.name != "new"@ && n.name != "setup"@ && n.name
        != "run"@ && n.name != "constructor"@
    &&& forall|c: CallRowModel| #[trigger] s.calls.contains(c) ==> c.call.callee_name != n.name
    &&& forall|e: EdgeModel| #[trigger]
        s.edges.contains(e) && e.relation == EdgeRelation::Calls ==> e.dst != n.id
    &&& forall|m: NodeModel| #[trigger]
        s.nodes.contains(m) && m.label == NodeLabel::Route ==> types::meta_text(
            m.metadata,
            "handler"@,
        ) != Some(n.name)
    &&& !is_mentioned(n, refs)
}

proof fn lemma_mentioned(n: NodeModel, refs: Seq<RefModel>, handler: bool)
    ensures
        (dead_code::evidence_kinds(n, refs, handler).len() == 0) == (!handler && !is_mentioned(
            n,
            refs,
        )),
{
    let found = rows::kept(refs, dead_code::speaks_for(n));
    let all = found.map_values(|r: RefModel| r.kind);
    rows::lemma_kept(refs, dead_code::speaks_for(n));
    rows::lemma_distinct(all);
    let kinds = dead_code::kinds_of(found);
    if is_mentioned(n, refs) {
        let r = choose|r: RefModel| #[trigger]
            refs.contains(r) && r.name == dead_code::leaf(n.name) && ((r.kind
                != ReferenceKind::FfiExport && r.kind != ReferenceKind::PublicExport && r.kind
                != ReferenceKind::FrameworkRegistration) || r.file_path == n.file_path);
        assert(found.contains(r));
        let i = choose|i: int| 0 <= i < found.len() && found[i] == r;
        assert(all[i] == r.kind);
        assert(all.contains(r.kind));
        assert(kinds.contains(r.kind));
    }
    if kinds.len() > 0 {
        assert(kinds.contains(kinds[0]));
        assert(all.contains(kinds[0]));
        let i = choose|i: int| 0 <= i < all.len() && all[i] == kinds[0];
        assert(found.contains(found[i]));
        assert(refs.contains(found[i]));
    }
}

/// What is listed as dead is what nothing uses; and where the list is not full,
/// all of that is in it.
pub proof fn law_dead_code_is_unused(s: StoreModel, refs: Seq<RefModel>, limit: nat)
    ensures
        ({
            let r = dead_code::candidates_of(s, refs, limit);
            &&& forall|l: LeanModel| #[trigger]
                r.contains(l) ==> exists|n: NodeModel| #[trigger]
                    is_unused(s, refs, n) && l.id == n.id && l.name == n.name && l.kind == n.label
                        && l.file == n.file_path && l.line == n.line_start
            &&& r.len() < limit ==> forall|n: NodeModel| #[trigger]
                is_unused(s, refs, n) ==> exists|l: LeanModel| #[trigger]
                    r.contains(l) && l.id == n.id && l.name == n.name && l.file == n.file_path
        }),
{
    let free = rows::kept(s.nodes, dead_code::uncalled(s));
    let sorted = dead_code::uncalled_nodes(s);
    let test = dead_code::is_candidate(s, refs);
    let found = rows::kept(sorted, test);
    let r = dead_code::candidates_of(s, refs, limit);
    let g = |n: NodeModel| dead_code::lean_of(n);
    rows::lemma_kept(s.nodes, dead_code::uncalled(s));
    order::lemma_same_items(free, store_queries::place_order());
    rows::lemma_kept(sorted, test);
    assert forall|n: NodeModel| #[trigger] found.contains(n) <==> is_unused(s, refs, n) by {
        rows::lemma_any(s.calls, store_queries::calls_naming(n.name));
        rows::lemma_any(s.edges, store_queries::calls_to(n.id));
        rows::lemma_any(s.nodes, store_queries::route_to(n.name));
        lemma_mentioned(n, refs, rows::any(s.nodes, store_queries::route_to(n.name)));
        assert(sorted.contains(n) == (s.nodes.contains(n) && dead_code::uncalled(s)(n)));
        assert(dead_code::uncalled(s)(n) == ((n.label == NodeLabel::Function || n.label
            == NodeLabel::Method) && !words::test_path(n.file_path) && (forall|c: CallRowModel|
         #[trigger]
            s.calls.contains(c) ==> c.call.callee_name != n.name) && (forall|e: EdgeModel|
         #[trigger]
            s.edges.contains(e) && e.relation == EdgeRelation::Calls ==> e.dst != n.id)));
    }
    assert forall|l: LeanModel| #[trigger] r.contains(l) implies exists|n: NodeModel| #[trigger]
        is_unused(s, refs, n) && l.id == n.id && l.name == n.name && l.kind == n.label && l.file
            == n.file_path && l.line == n.line_start by {
        let i = choose|i: int| 0 <= i < r.len() && r[i] == l;
        assert(rows::limited(found, limit)[i] == found[i]);
        assert(l == g(found[i]));
        assert(found.contains(found[i]));
    }
    if r.len() < limit {
        assert forall|n: NodeModel| #[trigger] is_unused(s, refs, n) implies exists|l: LeanModel|
         #[trigger]
            r.contains(l) && l.id == n.id && l.name == n.name && l.file == n.file_path by {
            assert(found.contains(n));
            let i = choose|i: int| 0 <= i < found.len() && found[i] == n;
            assert(rows::limited(found, limit).len() == found.len());
            assert(r[i] == g(n));
            assert(r.contains(g(n)));
        }
    }
}

/// Whether kinds of mentions are not all one.
pub open spec fn has_other_than(kinds: Seq<ReferenceKind>, k: ReferenceKind) -> bool {
    exists|o: ReferenceKind| o != k && #[trigger] kinds.contains(o)
}

/// What is said of a function that nothing calls: an entry point by its name is
/// left out; one that nothing speaks for is a candidate; and one of which no
/// more is known than that it is exported, or that it is mentioned in places
/// that cannot be told, is unknown.
pub proof fn law_assessment_weighs_the_evidence(n: NodeModel, refs: Seq<RefModel>, handler: bool)
    ensures
        ({
            let entry = n.name == "main"@ || n.name == "init"@ || n.name == "new"@ || n.name
                == "setup"@ || n.name == "run"@ || n.name == "constructor"@;
            let a = dead_code::assessed(n, refs, handler);
            &&& a is Excluded <==> entry
            &&& a is Candidate <==> !entry && !handler && !is_mentioned(n, refs)
            &&& a matches AssessmentModel::IndirectlyReferenced(l, kinds, sites) ==> l.id == n.id
                && has_other_than(kinds, ReferenceKind::UnknownIndirect) && has_other_than(
                kinds,
                ReferenceKind::PublicExport,
            )
        }),
{
    lemma_mentioned(n, refs, handler);
    let kinds = dead_code::evidence_kinds(n, refs, handler);
    assert(store_queries::is_entry_name(n.name) == (n.name == "main"@ || n.name == "init"@ || n.name
        == "new"@ || n.name == "setup"@ || n.name == "run"@ || n.name == "constructor"@));
    if dead_code::assessed(n, refs, handler) is IndirectlyReferenced {
        assert(!dead_code::all_are(kinds, ReferenceKind::UnknownIndirect));
        assert(!dead_code::all_are(kinds, ReferenceKind::PublicExport));
        let i = choose|i: int|
            0 <= i < kinds.len() && #[trigger] kinds[i] != ReferenceKind::UnknownIndirect;
        assert(kinds.contains(kinds[i]));
        assert(has_other_than(kinds, ReferenceKind::UnknownIndirect));
        let j = choose|j: int|
            0 <= j < kinds.len() && #[trigger] kinds[j] != ReferenceKind::PublicExport;
        assert(kinds.contains(kinds[j]));
        assert(has_other_than(kinds, ReferenceKind::PublicExport));
    }
}

} // verus!
