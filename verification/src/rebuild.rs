//! Resolving the edges anew: the wave of files that a change can reach, or the
//! whole repository.

use vstd::hash_set::StringHashSet;
use vstd::prelude::*;
use vstd::string::*;

use crate::graph;
use crate::index;
use crate::index::{ChangeModel, Changes};
use crate::order;
use crate::rows;
use crate::store;
use crate::store::{Store, StoreModel};
use crate::store_edges;
use crate::store_edges::Analytics;
use crate::store_files;
use crate::store_lists;
use crate::store_queries;
use crate::tables::{CallRowModel, InheritRowModel, ManifestEntryModel, MetaRow, MetaRowModel};
use crate::text;
use crate::types;
use crate::types::{CallModel, Edge, EdgeKey, EdgeModel, EdgeRelation, Node, NodeModel, RawCall};

verus! {

/// The files of the manifest.
pub open spec fn manifest_paths(s: StoreModel) -> Seq<Seq<char>> {
    s.manifest.map_values(|m: ManifestEntryModel| m.file_path)
}

/// The names that pairs give.
fn names_of(v: &Vec<(String, String)>) -> (r: Vec<String>)
    ensures
        index::text_set(r@) == index::defined_names(
            store_files::defs_map(store_files::pair_views(v@)),
        ),
{
    let ghost p = store_files::pair_views(v@);
    let ghost m = store_files::defs_map(p);
    let mut out: Vec<String> = Vec::new();
    let mut i: usize = 0;
    assert(p.len() == v@.len());
    while i < v.len()
        invariant
            i <= v.len(),
            p == store_files::pair_views(v@),
            p.len() == v@.len(),
            m == store_files::defs_map(p),
            forall|n: Seq<char>| #[trigger]
                index::text_set(out@).contains(n) ==> exists|id: Seq<char>| #[trigger]
                    m.contains_key(id) && m[id] == n,
            forall|k: int|
                0 <= k < i && m.contains_key((#[trigger] p[k]).0) && m[p[k].0] == p[k].1
                    ==> index::text_set(out@).contains(p[k].1),
        decreases v.len() - i,
    {
        let ghost prev = out@;
        let ghost before = text::views(out@);
        assert(p[i as int] == (v@[i as int].0@, v@[i as int].1@));
        let own = match index::lookup_def(v, v[i].0.as_str()) {
            Some(n) => text::same(n.as_str(), v[i].1.as_str()),
            None => false,
        };
        if own {
            out.push(v[i].1.clone());
            proof {
                let after = text::views(out@);
                let name = v@[i as int].1@;
                assert(after =~= before.push(name));
                assert(after[before.len() as int] == name);
                assert forall|n: Seq<char>| #[trigger]
                    index::text_set(out@).contains(n) implies index::text_set(prev).contains(n) || n
                    == name by {
                    let k = choose|k: int| 0 <= k < after.len() && after[k] == n;
                    if k < before.len() {
                        assert(before[k] == n);
                    }
                }
                assert forall|n: Seq<char>| #[trigger]
                    index::text_set(prev).contains(n) implies index::text_set(out@).contains(
                    n,
                ) by {
                    let k = choose|k: int| 0 <= k < before.len() && before[k] == n;
                    assert(after[k] == n);
                }
                assert(m.contains_key(v@[i as int].0@));
            }
        }
        i += 1;
    }
    proof {
        let names = index::defined_names(m);
        assert forall|n: Seq<char>| names.contains(n) implies #[trigger] index::text_set(
            out@,
        ).contains(n) by {
            let id = choose|id: Seq<char>| #[trigger] m.contains_key(id) && m[id] == n;
            index::lemma_defs_key(p, id);
            let k = choose|k: int|
                0 <= k < p.len() && (#[trigger] p[k]).0 == id && p[k].1 == m[id];
            assert(m.contains_key(p[k].0));
        }
        assert(index::text_set(out@) =~= names);
    }
    out
}

impl Store {
    /// Takes out the files that are gone; see [`index::pruned`].
    pub fn prune(&mut self, changes: Changes, seen: &Vec<String>) -> (r: Changes)
        requires
            old(self)@.wf(),
        ensures
            ({
                let (m, n) = index::pruned(
                    ChangeModel {
                        store: old(self)@,
                        nodes: types::node_views(changes.nodes@),
                        dirty: index::text_set(changes.dirty@),
                        beyond: changes.beyond,
                    },
                    manifest_paths(old(self)@),
                    index::text_set(seen@),
                );
                &&& final(self)@ == m.store
                &&& types::node_views(r.nodes@) == m.nodes
                &&& index::text_set(r.dirty@) == m.dirty
                &&& r.beyond == m.beyond
                &&& r.pruned == n
                &&& r.files == changes.files
            }),
            final(self)@.wf(),
    {
        let ghost start = ChangeModel {
            store: self@,
            nodes: types::node_views(changes.nodes@),
            dirty: index::text_set(changes.dirty@),
            beyond: changes.beyond,
        };
        let ghost there = index::text_set(seen@);
        let mut known = StringHashSet::new();
        let mut k: usize = 0;
        while k < seen.len()
            invariant
                k <= seen.len(),
                forall|x: Seq<char>| #[trigger]
                    known@.contains(x) <==> text::views(seen@).take(k as int).contains(x),
            decreases seen.len() - k,
        {
            let ghost a = text::views(seen@).take(k as int);
            let ghost b = text::views(seen@).take(k + 1);
            known.insert(seen[k].clone());
            proof {
                assert(b =~= a.push(seen@[k as int]@));
                text::lemma_push_contains(a, seen@[k as int]@);
            }
            k += 1;
        }
        proof {
            assert(text::views(seen@).take(seen@.len() as int) =~= text::views(seen@));
        }
        let files = self.manifest_files();
        let ghost all = text::views(files@);
        let mut dirty = changes.dirty;
        let mut beyond = changes.beyond;
        let mut count: usize = 0;
        let mut i: usize = 0;
        assert(all.len() == files@.len());
        assert(all.take(0) =~= Seq::empty());
        while i < files.len()
            invariant
                i <= files.len(),
                all == text::views(files@),
                all.len() == files@.len(),
                self@.wf(),
                there == index::text_set(seen@),
                forall|x: Seq<char>| #[trigger] known@.contains(x) <==> there.contains(x),
                count <= i,
                ({
                    let (m, n) = index::pruned(start, all.take(i as int), there);
                    &&& self@ == m.store
                    &&& m.nodes == start.nodes
                    &&& index::text_set(dirty@) == m.dirty
                    &&& beyond == m.beyond
                    &&& count == n
                }),
            decreases files.len() - i,
        {
            let f = &files[i];
            assert(all.take(i + 1).drop_last() =~= all.take(i as int));
            assert(all.take(i + 1).last() == f@);
            if !known.contains(f.as_str()) {
                let shape = self.file_shape(f.as_str());
                if shape.other.len() > 0 {
                    beyond = true;
                }
                let mut more = names_of(&shape.fn_defs);
                let ghost a = text::views(dirty@);
                let ghost b = text::views(more@);
                dirty.append(&mut more);
                proof {
                    assert(text::views(dirty@) =~= a + b);
                    index::lemma_set_append(a, b);
                    assert(text::views(shape.other@).len() == shape.other@.len());
                }
                self.delete_edges_for_file(f.as_str());
                self.delete_file_data(f.as_str());
                self.delete_manifest(f.as_str());
                count += 1;
            }
            i += 1;
        }
        assert(all.take(files@.len() as int) =~= all);
        Changes { nodes: changes.nodes, files: changes.files, dirty, beyond, pruned: count }
    }
}

/// What decides, besides the changes themselves, how far the edges are resolved
/// anew.
#[derive(Debug, Clone, Copy, PartialEq, Eq, Structural)]
pub struct Flags {
    /// Everything is indexed anew.
    pub full: bool,
    /// Nothing was indexed before.
    pub fresh: bool,
    /// The setting for ambiguous edges was given.
    pub ambiguous_given: bool,
    /// A SCIP index is new or was given.
    pub scip_changed: bool,
    /// The SCIP indexer would run again.
    pub scip_reacquire: bool,
    /// Merging the IndexStore was asked for.
    pub indexstore: bool,
    /// The IndexStore is newer than what was merged.
    pub indexstore_newer: bool,
}

/// Whether a supertype clause mentions a name.
pub open spec fn in_clause(s: StoreModel, name: Seq<char>) -> bool {
    rows::any(s.inherits, |i: InheritRowModel| i.impl_name == name || i.super_name == name)
}

/// Whether it is enough to resolve the files that the changes can reach.
pub open spec fn wave_is_enough(
    s: StoreModel,
    flags: Flags,
    beyond: bool,
    dirty: Set<Seq<char>>,
) -> bool {
    !flags.full && !flags.fresh && !beyond && !flags.ambiguous_given && !flags.scip_changed
        && !flags.indexstore && !flags.indexstore_newer && !flags.scip_reacquire && forall|
        n: Seq<char>,
    | #[trigger]
        dirty.contains(n) ==> !in_clause(s, n)
}

impl Store {
    /// See [`wave_is_enough`].
    pub fn partial_ok(&self, flags: Flags, beyond: bool, dirty: &Vec<String>) -> (r: bool)
        ensures
            r == wave_is_enough(self@, flags, beyond, index::text_set(dirty@)),
    {
        if flags.full || flags.fresh || beyond || flags.ambiguous_given || flags.scip_changed
            || flags.indexstore || flags.indexstore_newer || flags.scip_reacquire {
            return false;
        }
        let ghost all = text::views(dirty@);
        assert(all.len() == dirty@.len());
        let mut i: usize = 0;
        while i < dirty.len()
            invariant
                i <= dirty.len(),
                all == text::views(dirty@),
                all.len() == dirty@.len(),
                forall|k: int| 0 <= k < i ==> !in_clause(self@, #[trigger] all[k]),
            decreases dirty.len() - i,
        {
            assert(all[i as int] == dirty@[i as int]@);
            if self.inherits_name_referenced(dirty[i].as_str()) {
                assert(in_clause(self@, all[i as int]));
                assert(index::text_set(dirty@).contains(all[i as int])) by {
                    assert(all.contains(all[i as int]));
                }
                return false;
            }
            i += 1;
        }
        proof {
            assert forall|n: Seq<char>| #[trigger]
                index::text_set(dirty@).contains(n) implies !in_clause(self@, n) by {
                let k = choose|k: int| 0 <= k < all.len() && all[k] == n;
                assert(!in_clause(self@, all[k]));
            }
        }
        true
    }
}

/// The files with call sites that name something.
pub open spec fn calling_files(s: StoreModel, name: Seq<char>) -> Seq<Seq<char>> {
    rows::distinct(
        rows::kept(s.calls, store_queries::calls_naming(name)).map_values(
            store_lists::call_file(),
        ),
    )
}

/// The files with call sites that name any of the names, one name after the
/// other.
pub open spec fn all_calling_files(s: StoreModel, names: Seq<Seq<char>>) -> Seq<Seq<char>>
    decreases names.len(),
{
    if names.len() == 0 {
        Seq::empty()
    } else {
        all_calling_files(s, names.drop_last()) + calling_files(s, names.last())
    }
}

/// The files that changes can reach, in their order: the changed ones, and those
/// with call sites that name a definition that changed.
pub open spec fn wave_of(s: StoreModel, changed: Seq<Seq<char>>, dirty: Seq<Seq<char>>) -> Seq<
    Seq<char>,
> {
    order::arranged(
        rows::distinct(changed + all_calling_files(s, dirty)),
        order::text_order(),
    )
}

/// The calls of files, one file after the other.
pub open spec fn calls_of_files(s: StoreModel, files: Seq<Seq<char>>) -> Seq<CallModel>
    decreases files.len(),
{
    if files.len() == 0 {
        Seq::empty()
    } else {
        calls_of_files(s, files.drop_last()) + rows::kept(
            s.calls,
            store_files::calls_in(files.last()),
        ).map_values(|c: CallRowModel| c.call)
    }
}

/// The edges that originate in one of the files.
pub open spec fn from_files(files: Seq<Seq<char>>) -> spec_fn(EdgeModel) -> bool {
    |e: EdgeModel| files.contains(e.src_file)
}

/// The nodes as the resolver reads them.
pub open spec fn resolver_nodes(s: StoreModel) -> Seq<NodeModel> {
    order::arranged(s.nodes.map_values(store_edges::light_node()), store_edges::id_order())
}

/// The edges that the files of a wave give.
pub open spec fn wave_edges(s: StoreModel, wave: Seq<Seq<char>>) -> Seq<EdgeModel> {
    rows::kept(
        graph::built_edges(resolver_nodes(s), calls_of_files(s, wave)),
        from_files(wave),
    )
}

/// The edges without those that syntax alone gave for the files.
pub open spec fn without_wave(edges: Seq<EdgeModel>, wave: Seq<Seq<char>>) -> Seq<EdgeModel>
    decreases wave.len(),
{
    if wave.len() == 0 {
        edges
    } else {
        rows::kept(
            without_wave(edges, wave.drop_last()),
            store_edges::not_syntactic(wave.last()),
        )
    }
}

/// The store with its dangling edges dropped and, where there were any, their
/// number noted.
pub open spec fn healed(s: StoreModel) -> StoreModel {
    let edges = rows::kept(s.edges, store_edges::grounded(s.nodes));
    let t = StoreModel { edges, ..s };
    let n = (s.edges.len() - edges.len()) as nat;
    if n > 0 {
        StoreModel {
            meta: rows::replaced::<MetaRow>(
                t.meta,
                MetaRowModel { name: "healed_edges_last"@, value: text::decimal(n) },
            ),
            ..t
        }
    } else {
        t
    }
}

/// The store after the files of a wave were resolved anew.
pub open spec fn wave_rebuilt(s: StoreModel, wave: Seq<Seq<char>>) -> StoreModel {
    healed(
        StoreModel {
            edges: rows::all_added::<Edge>(without_wave(s.edges, wave), wave_edges(s, wave)),
            ..s
        },
    )
}

impl Store {
    /// Drops the edges with an end that is no node, and notes their number; see
    /// [`healed`].
    pub fn heal_dangling(&mut self) -> (r: usize)
        requires
            old(self)@.wf(),
        ensures
            final(self)@ == healed(old(self)@),
            final(self)@.wf(),
            r == old(self)@.edges.len() - final(self)@.edges.len(),
    {
        let n: usize = self.drop_dangling_edges();
        if n > 0 {
            let count = text::to_decimal(n as u64);
            self.meta_set("healed_edges_last", count.as_str());
        }
        n
    }

    /// See [`wave_of`].
    pub fn wave(&self, changed: &Vec<String>, dirty: &Vec<String>) -> (r: Vec<String>)
        ensures
            text::views(r@) == wave_of(self@, text::views(changed@), text::views(dirty@)),
    {
        let mut all: Vec<String> = Vec::new();
        let ghost names = text::views(dirty@);
        let mut j: usize = 0;
        while j < changed.len()
            invariant
                j <= changed.len(),
                text::views(all@) == text::views(changed@).take(j as int),
            decreases changed.len() - j,
        {
            let ghost was = text::views(all@);
            all.push(changed[j].clone());
            assert(text::views(all@) =~= was.push(changed@[j as int]@));
            assert(text::views(changed@).take(j + 1) =~= text::views(changed@).take(
                j as int,
            ).push(changed@[j as int]@));
            j += 1;
        }
        let ghost first = text::views(changed@);
        assert(first.take(changed@.len() as int) =~= first);
        let mut i: usize = 0;
        assert(names.len() == dirty@.len());
        assert(first + all_calling_files(self@, names.take(0)) =~= first);
        while i < dirty.len()
            invariant
                i <= dirty.len(),
                names == text::views(dirty@),
                names.len() == dirty@.len(),
                text::views(all@) == first + all_calling_files(self@, names.take(i as int)),
            decreases dirty.len() - i,
        {
            let ghost was = text::views(all@);
            let mut more = self.files_with_calls_naming(dirty[i].as_str());
            let ghost extra = text::views(more@);
            all.append(&mut more);
            proof {
                assert(names.take(i + 1).drop_last() =~= names.take(i as int));
                assert(names.take(i + 1).last() == dirty@[i as int]@);
                assert(text::views(all@) =~= was + extra);
                assert(was + extra =~= first + (all_calling_files(self@, names.take(i as int))
                    + extra));
            }
            i += 1;
        }
        assert(names.take(dirty@.len() as int) =~= names);
        order::arrange_texts(distinct(all))
    }

    /// See [`calls_of_files`].
    pub fn calls_for_files(&self, files: &Vec<String>) -> (r: Vec<RawCall>)
        ensures
            types::call_views(r@) == calls_of_files(self@, text::views(files@)),
    {
        let ghost all = text::views(files@);
        let mut out: Vec<RawCall> = Vec::new();
        let mut i: usize = 0;
        assert(all.len() == files@.len());
        assert(types::call_views(out@) =~= calls_of_files(self@, all.take(0)));
        while i < files.len()
            invariant
                i <= files.len(),
                all == text::views(files@),
                all.len() == files@.len(),
                types::call_views(out@) == calls_of_files(self@, all.take(i as int)),
            decreases files.len() - i,
        {
            let ghost was = types::call_views(out@);
            let mut more = self.calls_for_file(files[i].as_str());
            let ghost extra = types::call_views(more@);
            out.append(&mut more);
            assert(all.take(i + 1).drop_last() =~= all.take(i as int));
            assert(all.take(i + 1).last() == files@[i as int]@);
            assert(types::call_views(out@) =~= was + extra);
            i += 1;
        }
        assert(all.take(files@.len() as int) =~= all);
        out
    }

    /// Resolves the files of a wave anew; see [`wave_rebuilt`].
    pub fn rebuild_wave(&mut self, wave: &Vec<String>)
        requires
            old(self)@.wf(),
        ensures
            final(self)@ == wave_rebuilt(old(self)@, text::views(wave@)),
            final(self)@.wf(),
    {
        let ghost was = self@;
        let ghost files = text::views(wave@);
        let nodes = self.graph_nodes();
        let calls = self.calls_for_files(wave);
        let mut edges = graph::resolve_edges(nodes.as_slice(), calls.as_slice());
        let mut in_wave = StringHashSet::new();
        let mut k: usize = 0;
        while k < wave.len()
            invariant
                k <= wave.len(),
                files == text::views(wave@),
                forall|x: Seq<char>| #[trigger]
                    in_wave@.contains(x) <==> files.take(k as int).contains(x),
            decreases wave.len() - k,
        {
            in_wave.insert(wave[k].clone());
            proof {
                assert(files.take(k + 1) =~= files.take(k as int).push(wave@[k as int]@));
                text::lemma_push_contains(files.take(k as int), wave@[k as int]@);
            }
            k += 1;
        }
        assert(files.take(wave@.len() as int) =~= files);
        let test = |e: &Edge| -> (t: bool)
            ensures
                t == in_wave@.contains(e@.src_file),
        { in_wave.contains(e.src_file.as_str()) };
        rows::retain(&mut edges, Ghost(from_files(files)), test);
        assert(types::edge_views(edges@) == wave_edges(was, files));
        let mut i: usize = 0;
        assert(files.len() == wave@.len());
        while i < wave.len()
            invariant
                i <= wave.len(),
                files == text::views(wave@),
                files.len() == wave@.len(),
                self@.wf(),
                self@ == (StoreModel {
                    edges: without_wave(was.edges, files.take(i as int)),
                    ..was
                }),
            decreases wave.len() - i,
        {
            assert(files.take(i + 1).drop_last() =~= files.take(i as int));
            assert(files.take(i + 1).last() == wave@[i as int]@);
            self.delete_tree_sitter_edges_for_file(wave[i].as_str());
            i += 1;
        }
        assert(files.take(wave@.len() as int) =~= files);
        self.bulk_insert_edges_keep_existing(&edges);
        self.heal_dangling();
    }
}

/// The texts without those that stand earlier too.
fn distinct(v: Vec<String>) -> (r: Vec<String>)
    ensures
        text::views(r@) == rows::distinct(text::views(v@)),
{
    let ghost all = text::views(v@);
    let mut out: Vec<String> = Vec::new();
    let mut known = StringHashSet::new();
    let mut i: usize = 0;
    assert(all.len() == v@.len());
    assert(text::views(out@) =~= rows::distinct(all.take(0)));
    while i < v.len()
        invariant
            i <= v.len(),
            all == text::views(v@),
            all.len() == v@.len(),
            text::views(out@) == rows::distinct(all.take(i as int)),
            forall|x: Seq<char>| #[trigger] known@.contains(x) <==> text::views(out@).contains(x),
        decreases v.len() - i,
    {
        let ghost was = text::views(out@);
        assert(all.take(i + 1).drop_last() =~= all.take(i as int));
        assert(all.take(i + 1).last() == v@[i as int]@);
        if !known.contains(v[i].as_str()) {
            known.insert(v[i].clone());
            out.push(v[i].clone());
            proof {
                assert(text::views(out@) =~= was.push(v@[i as int]@));
                text::lemma_push_contains(was, v@[i as int]@);
            }
        }
        i += 1;
    }
    assert(all.take(v@.len() as int) =~= all);
    out
}

/// Whether any of the edges has a key.
pub open spec fn has_edge_key(edges: Seq<EdgeModel>, key: EdgeKey) -> bool {
    rows::any(edges, rows::has_key::<Edge>(key))
}

/// The edges with others put in, which take the place of those with the same
/// key.
pub open spec fn superseded(edges: Seq<EdgeModel>, new: Seq<EdgeModel>) -> Seq<EdgeModel> {
    rows::kept(edges, |e: EdgeModel| !has_edge_key(new, e.key())) + new
}

/// See [`superseded`].
pub fn extend_superseding(edges: &mut Vec<Edge>, new: &Vec<Edge>)
    ensures
        types::edge_views(final(edges)@) == superseded(
            types::edge_views(old(edges)@),
            types::edge_views(new@),
        ),
{
    let ghost was = types::edge_views(edges@);
    let ghost keep = |e: EdgeModel| !has_edge_key(types::edge_views(new@), e.key());
    let test = |e: &Edge| -> (t: bool)
        ensures
            t == !has_edge_key(types::edge_views(new@), e@.key()),
    {
        let ghost want = rows::has_key::<Edge>(e@.key());
        let inner = |x: &Edge| -> (t: bool)
            ensures
                t == (x@.key() == e@.key()),
        { x.same_key(e) };
        !rows::exists_row(new, Ghost(want), inner)
    };
    rows::retain(edges, Ghost(keep), test);
    let ghost left = types::edge_views(edges@);
    let mut more = rows::copies(new);
    edges.append(&mut more);
    assert(types::edge_views(edges@) =~= left + types::edge_views(new@));
}

/// The edges of one justification that the store holds and whose ends are both
/// there.
pub open spec fn reusable(s: StoreModel, j: Seq<char>, nodes: Seq<NodeModel>) -> Seq<EdgeModel> {
    rows::kept(rows::kept(s.edges, store::justified_by(j)), store_edges::grounded(nodes))
}

/// The edges with the reusable ones of a justification put in.
pub open spec fn with_reused(
    s: StoreModel,
    j: Seq<char>,
    nodes: Seq<NodeModel>,
    edges: Seq<EdgeModel>,
) -> Seq<EdgeModel> {
    let live = reusable(s, j, nodes);
    if live.len() > 0 {
        superseded(edges, live)
    } else {
        edges
    }
}

impl Store {
    /// Puts in the persisted edges of one justification whose ends are both
    /// among the nodes; says how many were put in and how many dropped.
    pub fn reuse_persisted_edges(
        &self,
        justification: &str,
        nodes: &Vec<Node>,
        edges: &mut Vec<Edge>,
    ) -> (r: (usize, usize))
        ensures
            types::edge_views(final(edges)@) == with_reused(
                self@,
                justification@,
                types::node_views(nodes@),
                types::edge_views(old(edges)@),
            ),
            r.0 == reusable(self@, justification@, types::node_views(nodes@)).len(),
            r.0 + r.1 == rows::kept(self@.edges, store::justified_by(justification@)).len(),
    {
        let mut live = self.edges_by_justification(justification);
        let total: usize = live.len();
        proof {
            assert(types::edge_views(live@).len() == live@.len());
            rows::lemma_kept(
                types::edge_views(live@),
                store_edges::grounded(types::node_views(nodes@)),
            );
        }
        store_edges::retain_grounded(&mut live, nodes);
        assert(types::edge_views(live@).len() == live@.len());
        let reused: usize = live.len();
        if reused > 0 {
            extend_superseding(edges, &live);
        }
        (reused, total - reused)
    }
}

/// The edges of every file, those of the compilers' indexes put over what the
/// syntax says. Where an index is not given anew, what the store has from it is
/// taken.
pub open spec fn known_edges(
    s: StoreModel,
    scip: Seq<EdgeModel>,
    indexstore: Seq<EdgeModel>,
) -> Seq<EdgeModel> {
    let nodes = resolver_nodes(s);
    let base = graph::built_edges(nodes, s.calls.map_values(|c: CallRowModel| c.call));
    let with_scip = if scip.len() > 0 {
        superseded(base, scip)
    } else {
        with_reused(s, "Scip"@, nodes, base)
    };
    if indexstore.len() > 0 {
        superseded(with_scip, indexstore)
    } else {
        with_reused(s, "IndexStore"@, nodes, with_scip)
    }
}

/// The edges of a rebuild of the whole repository: what syntax gives, and over
/// it the edges of compilers, newly imported or kept from before; all with both
/// ends among the nodes.
pub open spec fn full_edges(
    s: StoreModel,
    scip: Seq<EdgeModel>,
    indexstore: Seq<EdgeModel>,
) -> Seq<EdgeModel> {
    rows::kept(known_edges(s, scip, indexstore), store_edges::grounded(resolver_nodes(s)))
}

/// The store after the whole repository was resolved anew.
pub open spec fn full_rebuilt(
    s: StoreModel,
    scip: Seq<EdgeModel>,
    indexstore: Seq<EdgeModel>,
) -> StoreModel {
    StoreModel {
        edges: rows::all_upserted::<Edge>(Seq::empty(), full_edges(s, scip, indexstore)),
        hyperedges: Seq::empty(),
        members: Seq::empty(),
        ..s
    }
}

impl Store {
    /// Resolves the whole repository anew, with the edges that compilers give;
    /// see [`full_rebuilt`].
    pub fn rebuild_full(&mut self, scip: &Vec<Edge>, indexstore: &Vec<Edge>)
        requires
            old(self)@.wf(),
        ensures
            final(self)@ == full_rebuilt(
                old(self)@,
                types::edge_views(scip@),
                types::edge_views(indexstore@),
            ),
            final(self)@.wf(),
    {
        let nodes = self.graph_nodes();
        let calls = self.all_calls();
        let mut edges = graph::resolve_edges(nodes.as_slice(), calls.as_slice());
        proof {
            assert(types::edge_views(scip@).len() == scip@.len());
            assert(types::edge_views(indexstore@).len() == indexstore@.len());
        }
        if scip.len() > 0 {
            extend_superseding(&mut edges, scip);
        } else {
            self.reuse_persisted_edges("Scip", &nodes, &mut edges);
        }
        if indexstore.len() > 0 {
            extend_superseding(&mut edges, indexstore);
        } else {
            self.reuse_persisted_edges("IndexStore", &nodes, &mut edges);
        }
        store_edges::retain_grounded(&mut edges, &nodes);
        self.clear_edges();
        self.bulk_upsert_edges(&edges);
        self.clear_hyperedges();
    }
}

/// The number of call edges that lead to a node.
pub open spec fn fan_in(edges: Seq<EdgeModel>, id: Seq<char>) -> nat {
    rows::kept(
        edges,
        |e: EdgeModel| e.relation == EdgeRelation::Calls && e.dst == id,
    ).len()
}

/// The number of call edges that leave a node.
pub open spec fn fan_out(edges: Seq<EdgeModel>, id: Seq<char>) -> nat {
    rows::kept(
        edges,
        |e: EdgeModel| e.relation == EdgeRelation::Calls && e.src == id,
    ).len()
}

/// What graph algorithms say of a node: its community and the bits of its
/// PageRank and of its betweenness.
#[derive(Debug, Clone, Copy, PartialEq, Eq, Structural)]
pub struct Score {
    pub community: u32,
    pub pagerank: u64,
    pub betweenness: u64,
}

/// The analytics of a node.
pub open spec fn is_analytics(a: Analytics, n: NodeModel, s: Score, edges: Seq<EdgeModel>) -> bool {
    &&& a.id@ == n.id
    &&& a.community == s.community
    &&& a.pagerank == s.pagerank
    &&& a.betweenness == s.betweenness
    &&& a.fan_in == fan_in(edges, n.id)
    &&& a.fan_out == fan_out(edges, n.id)
}

impl Store {
    /// The analytics of nodes: what graph algorithms say of each, and its calls.
    pub fn analytics(&self, nodes: &Vec<Node>, scores: &Vec<Score>) -> (r: Vec<Analytics>)
        requires
            nodes@.len() == scores@.len(),
            self@.edges.len() <= u32::MAX,
        ensures
            r@.len() == nodes@.len(),
            forall|i: int|
                0 <= i < nodes@.len() ==> is_analytics(
                    #[trigger] r@[i],
                    nodes@[i]@,
                    scores@[i],
                    self@.edges,
                ),
    {
        let mut out: Vec<Analytics> = Vec::new();
        let mut i: usize = 0;
        while i < nodes.len()
            invariant
                i <= nodes.len(),
                nodes@.len() == scores@.len(),
                self@.edges.len() <= u32::MAX,
                out@.len() == i,
                forall|k: int|
                    0 <= k < i ==> is_analytics(
                        #[trigger] out@[k],
                        nodes@[k]@,
                        scores@[k],
                        self@.edges,
                    ),
            decreases nodes.len() - i,
        {
            let n = &nodes[i];
            let ghost into = |e: EdgeModel| e.relation == EdgeRelation::Calls && e.dst == n@.id;
            let test = |e: &Edge| -> (t: bool)
                ensures
                    t == (e@.relation == EdgeRelation::Calls && e@.dst == n@.id),
            { e.relation == EdgeRelation::Calls && text::same(e.dst.as_str(), n.id.as_str()) };
            let fi: usize = rows::count(&self.edges, Ghost(into), test);
            let ghost from = |e: EdgeModel| e.relation == EdgeRelation::Calls && e.src == n@.id;
            let test = |e: &Edge| -> (t: bool)
                ensures
                    t == (e@.relation == EdgeRelation::Calls && e@.src == n@.id),
            { e.relation == EdgeRelation::Calls && text::same(e.src.as_str(), n.id.as_str()) };
            let fo: usize = rows::count(&self.edges, Ghost(from), test);
            proof {
                rows::lemma_kept(self@.edges, into);
                rows::lemma_kept(self@.edges, from);
            }
            let s = scores[i];
            out.push(
                Analytics {
                    id: n.id.clone(),
                    community: s.community,
                    pagerank: s.pagerank,
                    betweenness: s.betweenness,
                    fan_in: fi as u32,
                    fan_out: fo as u32,
                },
            );
            i += 1;
        }
        out
    }
}

} // verus!
