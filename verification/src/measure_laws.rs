//! What is measured, counted and set: audits, counts and settings.

use vstd::prelude::*;
use vstd::string::*;

use crate::answer_laws;
use crate::audit;
use crate::audit::CandidateModel;
use crate::config;
use crate::config::Config;
use crate::graph;
use crate::graph_laws;
use crate::order;
use crate::rebuild;
use crate::rows;
use crate::store::StoreModel;
use crate::tables::CallRowModel;
use crate::text;
use crate::types;
use crate::types::{CallModel, EdgeModel, EdgeRelation, NodeModel, ResolutionTier};
use crate::value;
use crate::value::{DatumModel, Entries};
use crate::viz;

verus! {

/// Whether a compiler resolved a call from a node.
pub open spec fn compiler_saw(edges: Seq<EdgeModel>, src: Seq<char>) -> bool {
    exists|e: EdgeModel| #[trigger]
        edges.contains(e) && e.tier == ResolutionTier::Scip && e.relation == EdgeRelation::Calls
            && e.src == src
}

/// Whether a compiler resolved a call from one node to another.
pub open spec fn compiler_has(edges: Seq<EdgeModel>, src: Seq<char>, dst: Seq<char>) -> bool {
    exists|e: EdgeModel| #[trigger]
        edges.contains(e) && e.tier == ResolutionTier::Scip && e.relation == EdgeRelation::Calls
            && e.src == src && e.dst == dst
}

/// A call of syntax can be judged where a compiler resolved a call of the same
/// caller, and it is confirmed where one resolved that call too.
pub proof fn law_compiler_is_the_judge(edges: Seq<EdgeModel>, c: CandidateModel)
    ensures
        audit::is_judged(edges)(c) <==> compiler_saw(edges, c.src),
        audit::is_confirmed(edges)(c) <==> compiler_has(edges, c.src, c.dst),
{
    rows::lemma_any(edges, audit::oracle_from(c.src));
    rows::lemma_any(edges, audit::oracle_between(c.src, c.dst));
    if compiler_saw(edges, c.src) {
        let e = choose|e: EdgeModel| #[trigger]
            edges.contains(e) && e.tier == ResolutionTier::Scip && e.relation
                == EdgeRelation::Calls && e.src == c.src;
        assert(edges.contains(e) && audit::oracle_from(c.src)(e));
    }
    if compiler_has(edges, c.src, c.dst) {
        let e = choose|e: EdgeModel| #[trigger]
            edges.contains(e) && e.tier == ResolutionTier::Scip && e.relation
                == EdgeRelation::Calls && e.src == c.src && e.dst == c.dst;
        assert(edges.contains(e) && audit::oracle_between(c.src, c.dst)(e));
    }
}

/// An audit is made just where a compiler resolved a call. It counts those
/// calls, the edges of its sample that can be judged, and of these the ones that
/// the compiler confirms.
pub proof fn law_audit_counts_what_is_judged(s: StoreModel, take: nat, seed: u64)
    ensures
        audit::audit_of(s, take, seed) is None <==> forall|e: EdgeModel| #[trigger]
            s.edges.contains(e) ==> e.tier != ResolutionTier::Scip || e.relation
                != EdgeRelation::Calls,
        audit::audit_of(s, take, seed) matches Some(a) ==> ({
            let all = audit::candidates_of(s);
            let picked = audit::at_places(all, audit::sample_of(seed, take, all.len()));
            &&& a.seed == seed
            &&& a.oracle_edges == rows::kept(
                s.edges,
                |e: EdgeModel| e.tier == ResolutionTier::Scip && e.relation == EdgeRelation::Calls,
            ).len()
            &&& a.checked == rows::kept(
                picked,
                |c: CandidateModel| compiler_saw(s.edges, c.src),
            ).len()
            &&& a.confirmed == rows::kept(
                picked,
                |c: CandidateModel| compiler_has(s.edges, c.src, c.dst),
            ).len()
        }),
{
    let all = audit::candidates_of(s);
    let picked = audit::at_places(all, audit::sample_of(seed, take, all.len()));
    let o = |e: EdgeModel| e.tier == ResolutionTier::Scip && e.relation == EdgeRelation::Calls;
    let a = |c: CandidateModel| compiler_saw(s.edges, c.src);
    let b = |c: CandidateModel| compiler_has(s.edges, c.src, c.dst);
    rows::lemma_any(s.edges, audit::is_oracle());
    assert forall|e: EdgeModel| #[trigger] audit::is_oracle()(e) == o(e) by {}
    assert forall|c: CandidateModel| #[trigger] audit::is_judged(s.edges)(c) == a(c) by {
        law_compiler_is_the_judge(s.edges, c);
    }
    assert forall|c: CandidateModel| #[trigger] audit::is_confirmed(s.edges)(c) == b(c) by {
        law_compiler_is_the_judge(s.edges, c);
    }
    answer_laws::lemma_kept_same(s.edges, audit::is_oracle(), o);
    answer_laws::lemma_kept_same(picked, audit::is_judged(s.edges), a);
    answer_laws::lemma_kept_same(picked, audit::is_confirmed(s.edges), b);
    if !rows::any(s.edges, audit::is_oracle()) {
        assert forall|e: EdgeModel| #[trigger] s.edges.contains(e) implies e.tier
            != ResolutionTier::Scip || e.relation != EdgeRelation::Calls by {
            assert(!audit::is_oracle()(e));
        }
    }
}

/// What is audited are the calls that syntax alone makes clear.
pub proof fn law_audit_samples_the_clear_calls(s: StoreModel, c: CandidateModel)
    requires
        graph_laws::ids_apart(rebuild::resolver_nodes(s)),
    ensures
        audit::candidates_of(s).contains(c) <==> c.tier == "SameFileUnique"@ && exists|
            r: CallRowModel,
            caller: NodeModel,
            callee: NodeModel,
        |
            #![trigger graph_laws::is_clear_call(
                rebuild::resolver_nodes(s),
                r.call,
                caller,
                callee,
            )]
            s.calls.contains(r) && graph_laws::is_clear_call(
                rebuild::resolver_nodes(s),
                r.call,
                caller,
                callee,
            ) && c.src == caller.id && c.dst == callee.id,
{
    let nodes = rebuild::resolver_nodes(s);
    let calls = s.calls.map_values(|c: CallRowModel| c.call);
    let built = graph::built_edges(nodes, calls);
    lemma_candidate_edge(s, c);
    if audit::candidates_of(s).contains(c) {
        let e = choose|e: EdgeModel| #[trigger]
            built.contains(e) && e.relation == EdgeRelation::Calls && e.src == c.src && e.dst
                == c.dst;
        lemma_clear_of(nodes, calls, e);
        let (m, caller, callee) = choose|m: CallModel, caller: NodeModel, callee: NodeModel|
            calls.contains(m) && #[trigger] graph_laws::is_clear_call(nodes, m, caller, callee)
                && e.src == caller.id && e.dst == callee.id;
        let i = choose|i: int| 0 <= i < calls.len() && calls[i] == m;
        let r = s.calls[i];
        assert(s.calls.contains(r) && r.call == m);
        assert(graph_laws::is_clear_call(nodes, r.call, caller, callee));
    }
    if c.tier == "SameFileUnique"@ && exists|r: CallRowModel, caller: NodeModel, callee: NodeModel|
        #![trigger graph_laws::is_clear_call(nodes, r.call, caller, callee)]
        s.calls.contains(r) && graph_laws::is_clear_call(nodes, r.call, caller, callee) && c.src
            == caller.id && c.dst == callee.id {
        let (r, caller, callee) = choose|r: CallRowModel, caller: NodeModel, callee: NodeModel|
            #![trigger graph_laws::is_clear_call(nodes, r.call, caller, callee)]
            s.calls.contains(r) && graph_laws::is_clear_call(nodes, r.call, caller, callee)
                && c.src == caller.id && c.dst == callee.id;
        let i = choose|i: int| 0 <= i < s.calls.len() && s.calls[i] == r;
        assert(calls[i] == r.call);
        assert(calls.contains(r.call));
        graph_laws::law_call_edges_are_the_clear_calls(nodes, calls);
        let e = choose|e: EdgeModel| #[trigger]
            built.contains(e) && e.relation == EdgeRelation::Calls && e.src == caller.id && e.dst
                == callee.id;
        assert(has_call(built, c.src, c.dst));
    }
}

proof fn lemma_clear_of(nodes: Seq<NodeModel>, calls: Seq<CallModel>, e: EdgeModel)
    requires
        graph_laws::ids_apart(nodes),
        graph::built_edges(nodes, calls).contains(e),
        e.relation == EdgeRelation::Calls,
    ensures
        e.tier == ResolutionTier::TreeSitter,
        e.metadata == seq![("justification"@, types::MetaModel::Text("SameFileUnique"@))],
        exists|c: CallModel, caller: NodeModel, callee: NodeModel|
            calls.contains(c) && #[trigger] graph_laws::is_clear_call(nodes, c, caller, callee)
                && e.src == caller.id && e.dst == callee.id,
{
    graph_laws::law_call_edges_are_the_clear_calls(nodes, calls);
}

spec fn has_call(edges: Seq<EdgeModel>, src: Seq<char>, dst: Seq<char>) -> bool {
    exists|e: EdgeModel| #[trigger]
        edges.contains(e) && e.relation == EdgeRelation::Calls && e.src == src && e.dst == dst
}

proof fn lemma_candidate_edge(s: StoreModel, c: CandidateModel)
    requires
        graph_laws::ids_apart(rebuild::resolver_nodes(s)),
    ensures
        audit::candidates_of(s).contains(c) <==> c.tier == "SameFileUnique"@ && has_call(
            graph::built_edges(
                rebuild::resolver_nodes(s),
                s.calls.map_values(|c: CallRowModel| c.call),
            ),
            c.src,
            c.dst,
        ),
{
    let nodes = rebuild::resolver_nodes(s);
    let calls = s.calls.map_values(|c: CallRowModel| c.call);
    let built = graph::built_edges(nodes, calls);
    let found = rows::kept(built, audit::is_syntax_call());
    let g = audit::candidate_of();
    let all = found.map_values(g);
    rows::lemma_kept(built, audit::is_syntax_call());
    order::lemma_same_items(all, audit::candidate_order());
    if audit::candidates_of(s).contains(c) {
        assert(all.contains(c));
        let k = choose|k: int| 0 <= k < all.len() && all[k] == c;
        let e = found[k];
        assert(found.contains(e));
        lemma_clear_of(nodes, calls, e);
        assert(e.metadata[0].0 == "justification"@);
        assert(c == g(e));
        assert(has_call(built, c.src, c.dst));
    }
    if c.tier == "SameFileUnique"@ && has_call(built, c.src, c.dst) {
        let e = choose|e: EdgeModel| #[trigger]
            built.contains(e) && e.relation == EdgeRelation::Calls && e.src == c.src && e.dst
                == c.dst;
        lemma_clear_of(nodes, calls, e);
        assert(e.metadata[0].0 == "justification"@);
        assert(found.contains(e));
        let k = choose|k: int| 0 <= k < found.len() && found[k] == e;
        assert(all[k] == g(e));
        assert(g(e) == c);
        assert(all.contains(c));
    }
}

/// A count has each text of a list once, by name, with how often it is there.
pub proof fn law_texts_are_counted(keys: Seq<Seq<char>>)
    ensures
        ({
            let r = viz::counted(keys);
            &&& forall|k: Seq<char>, n: nat| #[trigger]
                r.contains((k, n)) <==> keys.contains(k) && n == keys.to_multiset().count(k)
            &&& forall|i: int, j: int|
                0 <= i < j < r.len() ==> (#[trigger] r[i]).0 != (#[trigger] r[j]).0
        }),
{
    let once = rows::distinct(keys);
    let sorted = order::arranged(once, order::text_order());
    let g = |k: Seq<char>| (k, viz::times(keys, k));
    let r = viz::counted(keys);
    rows::lemma_distinct(keys);
    order::lemma_same_items(once, order::text_order());
    let at = order::lemma_arranged_stable(once, order::text_order());
    assert forall|k: Seq<char>, n: nat| #[trigger] r.contains((k, n)) <==> keys.contains(k) && n
        == keys.to_multiset().count(k) by {
        lemma_times(keys, k);
        if r.contains((k, n)) {
            let i = choose|i: int| 0 <= i < r.len() && r[i] == (k, n);
            assert(g(sorted[i]) == (k, n));
            assert(sorted.contains(k));
        }
        if keys.contains(k) && n == keys.to_multiset().count(k) {
            assert(sorted.contains(k));
            let i = choose|i: int| 0 <= i < sorted.len() && sorted[i] == k;
            assert(r[i] == (k, n));
        }
    }
    assert forall|i: int, j: int| 0 <= i < j < r.len() implies (#[trigger] r[i]).0 != (
    #[trigger] r[j]).0 by {
        assert(at[i] != at[j]);
        assert(once[at[i]] != once[at[j]]);
    }
}

proof fn lemma_times(keys: Seq<Seq<char>>, k: Seq<char>)
    ensures
        viz::times(keys, k) == keys.to_multiset().count(k),
    decreases keys.len(),
{
    broadcast use vstd::seq_lib::group_to_multiset_ensures;

    if keys.len() > 0 {
        let d = keys.drop_last();
        lemma_times(d, k);
        assert(keys =~= d.push(keys.last()));
    }
}

/// Whether a text switches something on.
pub proof fn law_words_that_switch_on(s: Seq<char>)
    ensures
        config::is_yes(s) <==> text::lower(s) == "1"@ || text::lower(s) == "true"@ || text::lower(s)
            == "yes"@ || text::lower(s) == "on"@,
{
}

/// Whether the environment answers a question with a text, or with none.
pub open spec fn env_says<F: Fn(&str) -> Option<String>>(
    get: F,
    key: &str,
    v: Option<String>,
) -> bool {
    forall|r: Option<String>| #[trigger] get.ensures((key,), r) ==> r == v
}

/// What the environment says of a setting is what the setting is; where it says
/// nothing, the setting stays.
pub proof fn law_environment_wins<F: Fn(&str) -> Option<String>>(
    get: F,
    was: Config,
    now: Config,
    v: String,
)
    requires
        config::env_applied(get, was, now),
    ensures
        env_says(get, "CODEGRAPH_CACHE_DIR", Some(v)) ==> now.cache_dir == Some(v),
        env_says(get, "CODEGRAPH_CACHE_DIR", None) ==> now.cache_dir == was.cache_dir,
        env_says(get, "CODEGRAPH_EMBED_MODEL", Some(v)) ==> now.embed_model == Some(v),
        env_says(get, "CODEGRAPH_EMBED_MODEL", None) ==> now.embed_model == was.embed_model,
        env_says(get, "CODEGRAPH_LLM_PROVIDER", Some(v)) ==> now.llm.provider == v,
        env_says(get, "CODEGRAPH_LLM_PROVIDER", None) ==> now.llm.provider == was.llm.provider,
        env_says(get, "CODEGRAPH_LLM_URL", Some(v)) ==> now.llm.base_url == Some(v),
        env_says(get, "CODEGRAPH_LLM_URL", None) ==> now.llm.base_url == was.llm.base_url,
        env_says(get, "CODEGRAPH_LLM_MODEL", Some(v)) ==> now.llm.model == v,
        env_says(get, "CODEGRAPH_LLM_MODEL", None) ==> now.llm.model == was.llm.model,
        env_says(get, "CODEGRAPH_LLM_VISION_MODEL", Some(v)) ==> now.llm.vision_model == v,
        env_says(get, "CODEGRAPH_INGEST_WHISPER_MODEL", Some(v)) ==> now.llm.whisper_model == v,
        env_says(get, "CODEGRAPH_LLM_LOCKFILE", Some(v)) ==> now.llm.lockfile == Some(v),
        env_says(get, "CODEGRAPH_LLM_AUTO_INSTALL", Some(v)) ==> now.llm.auto_install
            == config::is_yes(v@),
        env_says(get, "CODEGRAPH_LLM_AUTO_INSTALL", None) ==> now.llm.auto_install
            == was.llm.auto_install,
        env_says(get, "CODEGRAPH_RERANK", Some(v)) ==> now.llm.rerank == config::is_yes(v@),
        env_says(get, "CODEGRAPH_RERANK", None) ==> now.llm.rerank == was.llm.rerank,
        env_says(get, "CODEGRAPH_HYDE", Some(v)) ==> now.llm.hyde == config::is_yes(v@),
        env_says(get, "CODEGRAPH_HYDE", None) ==> now.llm.hyde == was.llm.hyde,
        env_says(get, "CODEGRAPH_MEDIA", Some(v)) ==> now.ingest.media == config::is_yes(v@),
        env_says(get, "CODEGRAPH_MEDIA", None) ==> now.ingest.media == was.ingest.media,
        env_says(get, "CODEGRAPH_IMAGES", Some(v)) ==> now.ingest.images == config::is_yes(v@),
        env_says(get, "CODEGRAPH_IMAGES", None) ==> now.ingest.images == was.ingest.images,
        env_says(get, "CODEGRAPH_VIDEOS", Some(v)) ==> now.ingest.videos == config::is_yes(v@),
        env_says(get, "CODEGRAPH_VIDEOS", None) ==> now.ingest.videos == was.ingest.videos,
{
}

/// What a text of the settings is: the text that stands under its name, or else
/// what it is by default.
pub open spec fn is_text_set(t: Entries, key: Seq<char>, default: Seq<char>, v: Seq<char>) -> bool {
    match value::lookup(t, key) {
        Some(DatumModel::Text(s)) => v == s,
        None => v == default,
        _ => true,
    }
}

/// What an optional text of the settings is.
pub open spec fn is_option_set(t: Entries, key: Seq<char>, v: Option<Seq<char>>) -> bool {
    match value::lookup(t, key) {
        Some(DatumModel::Text(s)) => v == Some(s),
        None => v is None,
        _ => true,
    }
}

/// What a switch of the settings is: off where nothing stands under its name.
pub open spec fn is_switch_set(t: Entries, key: Seq<char>, v: bool) -> bool {
    match value::lookup(t, key) {
        Some(DatumModel::Bool(b)) => v == b,
        None => !v,
        _ => true,
    }
}

/// A setting is what stands under its own name in the file, and else its default:
/// no model is installed, no hit is reordered and no media is taken in unless it
/// is asked for.
pub proof fn law_settings_are_read_by_name(t: Entries, llm: Entries, ingest: Entries)
    requires
        value::lookup(t, "llm"@) == Some(DatumModel::Table(llm)),
        value::lookup(t, "ingest"@) == Some(DatumModel::Table(ingest)),
    ensures
        config::config_of(t) matches Ok(c) ==> ({
            &&& is_option_set(t, "cache_dir"@, c.cache_dir)
            &&& is_option_set(t, "embed_model"@, c.embed_model)
            &&& is_text_set(llm, "provider"@, "auto"@, c.llm.provider)
            &&& is_option_set(llm, "base_url"@, c.llm.base_url)
            &&& is_text_set(llm, "model"@, "Qwen2.5-Coder-1.5B-Instruct"@, c.llm.model)
            &&& is_text_set(llm, "vision_model"@, "SmolVLM2-500M-Instruct"@, c.llm.vision_model)
            &&& is_text_set(llm, "whisper_model"@, "base"@, c.llm.whisper_model)
            &&& is_option_set(llm, "lockfile"@, c.llm.lockfile)
            &&& is_switch_set(llm, "auto_install"@, c.llm.auto_install)
            &&& is_switch_set(llm, "rerank"@, c.llm.rerank)
            &&& is_switch_set(llm, "hyde"@, c.llm.hyde)
            &&& is_switch_set(ingest, "media"@, c.ingest.media)
            &&& is_switch_set(ingest, "images"@, c.ingest.images)
            &&& is_switch_set(ingest, "videos"@, c.ingest.videos)
            &&& is_switch_set(ingest, "prompted"@, c.ingest.prompted)
        }),
        config::config_of(Seq::empty()) matches Ok(d) && d.cache_dir is None && d.llm.provider
            == "auto"@ && !d.llm.auto_install && !d.llm.rerank && !d.llm.hyde && !d.ingest.media
            && !d.ingest.images && !d.ingest.videos,
{
    assert(value::lookup(Seq::empty(), "llm"@) is None);
    assert(value::lookup(Seq::empty(), "ingest"@) is None);
    assert(value::lookup(Seq::empty(), "cache_dir"@) is None);
    assert(value::lookup(Seq::empty(), "embed_model"@) is None);
}

} // verus!
