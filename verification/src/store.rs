//! The tables of the index, and the questions that are asked of them.

use vstd::prelude::*;

use crate::rows;
use crate::rows::Row;
use crate::tables::{
    CallRow, CallRowModel, CoChange, CoChangeModel, ContextEntry, ContextEntryModel, FieldRow,
    FieldRowModel, ImportRow, ImportRowModel, InheritRow, InheritRowModel, LocalRow, LocalRowModel,
    ManifestEntry, ManifestEntryModel, MetaRow, MetaRowModel, TypeRef, TypeRefModel, VectorRow,
    VectorRowModel,
};
use crate::text;
use crate::types;
use crate::types::{
    Edge, EdgeModel, Hyperedge, HyperedgeMember, HyperedgeModel, MemberModel, Node, NodeLabel,
    NodeModel,
};

verus! {

/// The version of the tables' layout.
pub const SCHEMA_VERSION: i64 = 7;

/// The tables of an index.
pub struct Store {
    pub nodes: Vec<Node>,
    pub edges: Vec<Edge>,
    pub hyperedges: Vec<Hyperedge>,
    pub members: Vec<HyperedgeMember>,
    pub manifest: Vec<ManifestEntry>,
    pub contexts: Vec<ContextEntry>,
    pub calls: Vec<CallRow>,
    pub inherits: Vec<InheritRow>,
    pub fields: Vec<FieldRow>,
    pub imports: Vec<ImportRow>,
    pub locals: Vec<LocalRow>,
    pub type_refs: Vec<TypeRef>,
    pub meta: Vec<MetaRow>,
    pub cochanges: Vec<CoChange>,
    pub vectors: Vec<VectorRow>,
}

/// The model of a [`Store`]: what the rows of each table hold.
pub struct StoreModel {
    pub nodes: Seq<NodeModel>,
    pub edges: Seq<EdgeModel>,
    pub hyperedges: Seq<HyperedgeModel>,
    pub members: Seq<MemberModel>,
    pub manifest: Seq<ManifestEntryModel>,
    pub contexts: Seq<ContextEntryModel>,
    pub calls: Seq<CallRowModel>,
    pub inherits: Seq<InheritRowModel>,
    pub fields: Seq<FieldRowModel>,
    pub imports: Seq<ImportRowModel>,
    pub locals: Seq<LocalRowModel>,
    pub type_refs: Seq<TypeRefModel>,
    pub meta: Seq<MetaRowModel>,
    pub cochanges: Seq<CoChangeModel>,
    pub vectors: Seq<VectorRowModel>,
}

impl View for Store {
    type V = StoreModel;

    open spec fn view(&self) -> StoreModel {
        StoreModel {
            nodes: rows::seen(self.nodes@),
            edges: rows::seen(self.edges@),
            hyperedges: rows::seen(self.hyperedges@),
            members: rows::seen(self.members@),
            manifest: rows::seen(self.manifest@),
            contexts: rows::seen(self.contexts@),
            calls: rows::seen(self.calls@),
            inherits: rows::seen(self.inherits@),
            fields: rows::seen(self.fields@),
            imports: rows::seen(self.imports@),
            locals: rows::seen(self.locals@),
            type_refs: rows::seen(self.type_refs@),
            meta: rows::seen(self.meta@),
            cochanges: rows::seen(self.cochanges@),
            vectors: rows::seen(self.vectors@),
        }
    }
}

impl StoreModel {
    /// Whether each table with a key has each key once.
    pub open spec fn wf(self) -> bool {
        &&& rows::unique::<Node>(self.nodes)
        &&& rows::unique::<Edge>(self.edges)
        &&& rows::unique::<Hyperedge>(self.hyperedges)
        &&& rows::unique::<HyperedgeMember>(self.members)
        &&& rows::unique::<ManifestEntry>(self.manifest)
        &&& rows::unique::<ContextEntry>(self.contexts)
        &&& rows::unique::<MetaRow>(self.meta)
        &&& rows::unique::<CoChange>(self.cochanges)
        &&& rows::unique::<VectorRow>(self.vectors)
    }

    /// Empty tables.
    pub open spec fn empty() -> StoreModel {
        StoreModel {
            nodes: Seq::empty(),
            edges: Seq::empty(),
            hyperedges: Seq::empty(),
            members: Seq::empty(),
            manifest: Seq::empty(),
            contexts: Seq::empty(),
            calls: Seq::empty(),
            inherits: Seq::empty(),
            fields: Seq::empty(),
            imports: Seq::empty(),
            locals: Seq::empty(),
            type_refs: Seq::empty(),
            meta: Seq::empty(),
            cochanges: Seq::empty(),
            vectors: Seq::empty(),
        }
    }
}

/// The test for the node with an id.
pub open spec fn node_is(id: Seq<char>) -> spec_fn(NodeModel) -> bool {
    |n: NodeModel| n.id == id
}

/// The test for the nodes with a name.
pub open spec fn node_named(name: Seq<char>) -> spec_fn(NodeModel) -> bool {
    |n: NodeModel| n.name == name
}

/// The test for the nodes with a label.
pub open spec fn node_labelled(label: NodeLabel) -> spec_fn(NodeModel) -> bool {
    |n: NodeModel| n.label == label
}

/// The test for the nodes in a file.
pub open spec fn node_in(file: Seq<char>) -> spec_fn(NodeModel) -> bool {
    |n: NodeModel| n.file_path == file
}

/// The test for the nodes outside a file.
pub open spec fn node_outside(file: Seq<char>) -> spec_fn(NodeModel) -> bool {
    |n: NodeModel| n.file_path != file
}

/// The test for the edges at a node.
pub open spec fn edge_at(id: Seq<char>) -> spec_fn(EdgeModel) -> bool {
    |e: EdgeModel| e.src == id || e.dst == id
}

/// The test for the edges with a justification.
pub open spec fn justified_by(j: Seq<char>) -> spec_fn(EdgeModel) -> bool {
    |e: EdgeModel| types::meta_text(e.metadata, "justification"@) == Some(j)
}

/// The table of members with those of a hyperedge replaced.
pub open spec fn members_set(
    members: Seq<MemberModel>,
    id: Seq<char>,
    items: Seq<MemberModel>,
) -> Seq<MemberModel> {
    rows::all_replaced::<HyperedgeMember>(
        rows::kept(members, |m: MemberModel| m.hyperedge_id != id),
        items,
    )
}

/// Whether a node is a member of a hyperedge.
pub open spec fn has_member(
    members: Seq<MemberModel>,
    id: Seq<char>,
    node: Seq<char>,
) -> bool {
    rows::any(members, |m: MemberModel| m.hyperedge_id == id && m.node_id == node)
}

impl Store {
    /// Empty tables.
    pub fn new() -> (r: Store)
        ensures
            r@ == StoreModel::empty(),
            r@.wf(),
    {
        let r = Store {
            nodes: Vec::new(),
            edges: Vec::new(),
            hyperedges: Vec::new(),
            members: Vec::new(),
            manifest: Vec::new(),
            contexts: Vec::new(),
            calls: Vec::new(),
            inherits: Vec::new(),
            fields: Vec::new(),
            imports: Vec::new(),
            locals: Vec::new(),
            type_refs: Vec::new(),
            meta: Vec::new(),
            cochanges: Vec::new(),
            vectors: Vec::new(),
        };
        proof {
            let m = r@;
            assert(m.nodes =~= Seq::empty());
            assert(m.edges =~= Seq::empty());
            assert(m.hyperedges =~= Seq::empty());
            assert(m.members =~= Seq::empty());
            assert(m.manifest =~= Seq::empty());
            assert(m.contexts =~= Seq::empty());
            assert(m.calls =~= Seq::empty());
            assert(m.inherits =~= Seq::empty());
            assert(m.fields =~= Seq::empty());
            assert(m.imports =~= Seq::empty());
            assert(m.locals =~= Seq::empty());
            assert(m.type_refs =~= Seq::empty());
            assert(m.meta =~= Seq::empty());
            assert(m.cochanges =~= Seq::empty());
            assert(m.vectors =~= Seq::empty());
        }
        r
    }

    /// The version of the tables' layout.
    pub fn schema_version(&self) -> (r: i64)
        ensures
            r == SCHEMA_VERSION,
    {
        SCHEMA_VERSION
    }

    /// Puts a node in by its id.
    pub fn upsert_node(&mut self, n: &Node)
        requires
            old(self)@.wf(),
        ensures
            final(self)@ == (StoreModel {
                nodes: rows::upserted::<Node>(old(self)@.nodes, n@),
                ..old(self)@
            }),
            final(self)@.wf(),
    {
        proof {
            rows::lemma_unique_upserted::<Node>(self@.nodes, n@);
        }
        rows::upsert(&mut self.nodes, n.copy());
    }

    /// The node with an id.
    pub fn get_node(&self, id: &str) -> (r: Option<Node>)
        ensures
            match r {
                Some(n) => rows::first(self@.nodes, node_is(id@)) == Some(n@),
                None => rows::first(self@.nodes, node_is(id@)) is None,
            },
    {
        let test = |n: &Node| -> (t: bool)
            ensures
                t == node_is(id@)(n@),
        { text::same(n.id.as_str(), id) };
        let k: usize = rows::find(&self.nodes, Ghost(node_is(id@)), test);
        if k < self.nodes.len() {
            Some(self.nodes[k].copy())
        } else {
            None
        }
    }

    /// Puts an edge in by its ends and its relation.
    pub fn upsert_edge(&mut self, e: &Edge)
        requires
            old(self)@.wf(),
        ensures
            final(self)@ == (StoreModel {
                edges: rows::upserted::<Edge>(old(self)@.edges, e@),
                ..old(self)@
            }),
            final(self)@.wf(),
    {
        proof {
            rows::lemma_unique_upserted::<Edge>(self@.edges, e@);
        }
        rows::upsert(&mut self.edges, e.copy());
    }

    /// The edges at a node.
    pub fn get_edges_for_node(&self, id: &str) -> (r: Vec<Edge>)
        ensures
            rows::seen(r@) == rows::kept(self@.edges, edge_at(id@)),
    {
        let test = |e: &Edge| -> (t: bool)
            ensures
                t == edge_at(id@)(e@),
        { text::same(e.src.as_str(), id) || text::same(e.dst.as_str(), id) };
        rows::select(&self.edges, Ghost(edge_at(id@)), test)
    }

    /// Puts a hyperedge in by its id, with its members in place of the ones
    /// that it had.
    pub fn upsert_hyperedge(&mut self, h: &Hyperedge, members: &Vec<HyperedgeMember>)
        requires
            old(self)@.wf(),
        ensures
            final(self)@ == (StoreModel {
                hyperedges: rows::upserted::<Hyperedge>(old(self)@.hyperedges, h@),
                members: members_set(old(self)@.members, h@.id, rows::seen(members@)),
                ..old(self)@
            }),
            final(self)@.wf(),
    {
        let ghost keep = |m: MemberModel| m.hyperedge_id != h@.id;
        proof {
            rows::lemma_unique_upserted::<Hyperedge>(self@.hyperedges, h@);
            rows::lemma_unique_kept::<HyperedgeMember>(self@.members, keep);
            rows::lemma_unique_all_replaced::<HyperedgeMember>(
                rows::kept(self@.members, keep),
                rows::seen(members@),
            );
        }
        rows::upsert(&mut self.hyperedges, h.copy());
        let test = |m: &HyperedgeMember| -> (t: bool)
            ensures
                t == (m@.hyperedge_id != h@.id),
        { !text::same(m.hyperedge_id.as_str(), h.id.as_str()) };
        rows::retain(&mut self.members, Ghost(keep), test);
        rows::replace_all(&mut self.members, members);
    }
}

/// The hyperedges that a node is a member of, each with its members.
pub open spec fn hyperedges_of(
    hyperedges: Seq<HyperedgeModel>,
    members: Seq<MemberModel>,
    node: Seq<char>,
) -> Seq<(HyperedgeModel, Seq<MemberModel>)> {
    rows::kept(hyperedges, |h: HyperedgeModel| has_member(members, h.id, node)).map_values(
        |h: HyperedgeModel| (h, rows::kept(members, |m: MemberModel| m.hyperedge_id == h.id)),
    )
}

/// What pairs of a hyperedge and its members hold.
pub open spec fn hyperedge_views(
    v: Seq<(Hyperedge, Vec<HyperedgeMember>)>,
) -> Seq<(HyperedgeModel, Seq<MemberModel>)> {
    v.map_values(|p: (Hyperedge, Vec<HyperedgeMember>)| (p.0@, rows::seen(p.1@)))
}

/// The test for the row of a fact about the index.
pub open spec fn meta_is(key: Seq<char>) -> spec_fn(MetaRowModel) -> bool {
    |m: MetaRowModel| m.name == key
}

/// A fact about the index.
pub open spec fn meta_value(meta: Seq<MetaRowModel>, key: Seq<char>) -> Option<Seq<char>> {
    match rows::first(meta, meta_is(key)) {
        Some(m) => Some(m.value),
        None => None,
    }
}

/// The number of times that the index was committed.
pub open spec fn generation_of(meta: Seq<MetaRowModel>) -> nat {
    match meta_value(meta, "generation"@) {
        Some(v) => match text::parse_nat(v) {
            Some(n) => if n <= u64::MAX {
                n
            } else {
                0
            },
            None => 0,
        },
        None => 0,
    }
}

/// The number from which the next commit of the index is counted: what is noted,
/// cast as a query casts it.
pub open spec fn counted_from(meta: Seq<MetaRowModel>) -> int {
    match meta_value(meta, "generation"@) {
        Some(v) => text::cast_integer(v),
        None => 0,
    }
}

/// The test for the manifest row of a file.
pub open spec fn manifest_is(file: Seq<char>) -> spec_fn(ManifestEntryModel) -> bool {
    |m: ManifestEntryModel| m.file_path == file
}

impl Store {
    /// See [`hyperedges_of`].
    pub fn get_hyperedges_for_node(&self, node_id: &str) -> (r: Vec<
        (Hyperedge, Vec<HyperedgeMember>),
    >)
        ensures
            hyperedge_views(r@) == hyperedges_of(self@.hyperedges, self@.members, node_id@),
    {
        let ghost keep = |h: HyperedgeModel| has_member(self@.members, h.id, node_id@);
        let test = |h: &Hyperedge| -> (t: bool)
            ensures
                t == has_member(self@.members, h@.id, node_id@),
        {
            let ghost want = |m: MemberModel| m.hyperedge_id == h@.id && m.node_id == node_id@;
            let inner = |m: &HyperedgeMember| -> (t: bool)
                ensures
                    t == (m@.hyperedge_id == h@.id && m@.node_id == node_id@),
            {
                text::same(m.hyperedge_id.as_str(), h.id.as_str()) && text::same(
                    m.node_id.as_str(),
                    node_id,
                )
            };
            rows::exists_row(&self.members, Ghost(want), inner)
        };
        let found = rows::select(&self.hyperedges, Ghost(keep), test);
        let mut out: Vec<(Hyperedge, Vec<HyperedgeMember>)> = Vec::new();
        let ghost all = hyperedges_of(self@.hyperedges, self@.members, node_id@);
        let mut i: usize = 0;
        while i < found.len()
            invariant
                i <= found.len(),
                keep == |h: HyperedgeModel| has_member(self@.members, h.id, node_id@),
                rows::seen(found@) == rows::kept(self@.hyperedges, keep),
                all == hyperedges_of(self@.hyperedges, self@.members, node_id@),
                all.len() == found@.len(),
                hyperedge_views(out@) == all.take(i as int),
            decreases found.len() - i,
        {
            let h = found[i].copy();
            assert(rows::seen(found@)[i as int] == h@);
            let ghost want = |m: MemberModel| m.hyperedge_id == h@.id;
            let test = |m: &HyperedgeMember| -> (t: bool)
                ensures
                    t == (m@.hyperedge_id == h@.id),
            { text::same(m.hyperedge_id.as_str(), h.id.as_str()) };
            let members = rows::select(&self.members, Ghost(want), test);
            let ghost was = out@;
            out.push((h, members));
            proof {
                assert(all[i as int] == (h@, rows::seen(members@)));
                assert(hyperedge_views(out@) =~= hyperedge_views(was).push(all[i as int]));
            }
            i += 1;
        }
        out
    }

    /// The edges with a justification.
    pub fn edges_by_justification(&self, j: &str) -> (r: Vec<Edge>)
        ensures
            rows::seen(r@) == rows::kept(self@.edges, justified_by(j@)),
    {
        let test = |e: &Edge| -> (t: bool)
            ensures
                t == justified_by(j@)(e@),
        {
            match e.metadata.text("justification") {
                Some(s) => text::same(s.as_str(), j),
                None => false,
            }
        };
        rows::select(&self.edges, Ghost(justified_by(j@)), test)
    }

    /// Sets a fact about the index.
    pub fn meta_set(&mut self, key: &str, value: &str)
        requires
            old(self)@.wf(),
        ensures
            final(self)@ == (StoreModel {
                meta: rows::replaced::<MetaRow>(
                    old(self)@.meta,
                    MetaRowModel { name: key@, value: value@ },
                ),
                ..old(self)@
            }),
            final(self)@.wf(),
    {
        let row = MetaRow { name: key.to_owned(), value: value.to_owned() };
        proof {
            rows::lemma_unique_replaced::<MetaRow>(self@.meta, row@);
        }
        rows::replace(&mut self.meta, row);
    }

    /// A fact about the index.
    pub fn meta_get(&self, key: &str) -> (r: Option<String>)
        ensures
            types::opt_text(r) == meta_value(self@.meta, key@),
    {
        let test = |m: &MetaRow| -> (t: bool)
            ensures
                t == meta_is(key@)(m@),
        { text::same(m.name.as_str(), key) };
        let k: usize = rows::find(&self.meta, Ghost(meta_is(key@)), test);
        if k < self.meta.len() {
            Some(self.meta[k].value.clone())
        } else {
            None
        }
    }

    /// The number of times that the index was committed; see [`generation_of`].
    pub fn generation(&self) -> (r: u64)
        ensures
            r == generation_of(self@.meta),
    {
        match self.meta_get("generation") {
            Some(v) => match text::parse_number(v.as_str(), u64::MAX) {
                Some(n) => n,
                None => 0,
            },
            None => 0,
        }
    }

    /// See [`counted_from`].
    pub fn counted(&self) -> (r: i64)
        ensures
            r == counted_from(self@.meta),
    {
        match self.meta_get("generation") {
            Some(v) => text::to_integer(v.as_str()),
            None => 0,
        }
    }

    /// Counts one more commit of the index.
    pub fn bump_generation(&mut self)
        requires
            old(self)@.wf(),
            counted_from(old(self)@.meta) < i64::MAX,
        ensures
            final(self)@ == (StoreModel {
                meta: rows::replaced::<MetaRow>(
                    old(self)@.meta,
                    MetaRowModel {
                        name: "generation"@,
                        value: text::signed_decimal(counted_from(old(self)@.meta) + 1),
                    },
                ),
                ..old(self)@
            }),
            final(self)@.wf(),
    {
        let n: i64 = self.counted();
        let v = text::to_signed_decimal(n + 1);
        self.meta_set("generation", v.as_str());
    }

    /// Notes an indexed file.
    pub fn save_manifest(&mut self, file_path: &str, sha256: &str, mtime: i64)
        requires
            old(self)@.wf(),
        ensures
            final(self)@ == (StoreModel {
                manifest: rows::replaced::<ManifestEntry>(
                    old(self)@.manifest,
                    ManifestEntryModel { file_path: file_path@, sha256: sha256@, mtime },
                ),
                ..old(self)@
            }),
            final(self)@.wf(),
    {
        let row = ManifestEntry {
            file_path: file_path.to_owned(),
            sha256: sha256.to_owned(),
            mtime,
        };
        proof {
            rows::lemma_unique_replaced::<ManifestEntry>(self@.manifest, row@);
        }
        rows::replace(&mut self.manifest, row);
    }

    /// What is noted of a file.
    pub fn manifest_for(&self, file_path: &str) -> (r: Option<ManifestEntry>)
        ensures
            match r {
                Some(m) => rows::first(self@.manifest, manifest_is(file_path@)) == Some(m@),
                None => rows::first(self@.manifest, manifest_is(file_path@)) is None,
            },
    {
        let test = |m: &ManifestEntry| -> (t: bool)
            ensures
                t == manifest_is(file_path@)(m@),
        { text::same(m.file_path.as_str(), file_path) };
        let k: usize = rows::find(&self.manifest, Ghost(manifest_is(file_path@)), test);
        if k < self.manifest.len() {
            Some(self.manifest[k].copy())
        } else {
            None
        }
    }

    /// What is noted of every file.
    pub fn manifest_map(&self) -> (r: Vec<ManifestEntry>)
        ensures
            rows::seen(r@) == self@.manifest,
    {
        rows::copies(&self.manifest)
    }

    /// Forgets an indexed file.
    pub fn delete_manifest(&mut self, file_path: &str)
        requires
            old(self)@.wf(),
        ensures
            final(self)@ == (StoreModel {
                manifest: rows::kept(
                    old(self)@.manifest,
                    rows::other_key::<ManifestEntry>(file_path@),
                ),
                ..old(self)@
            }),
            final(self)@.wf(),
    {
        let ghost keep = rows::other_key::<ManifestEntry>(file_path@);
        proof {
            rows::lemma_unique_kept::<ManifestEntry>(self@.manifest, keep);
        }
        let test = |m: &ManifestEntry| -> (t: bool)
            ensures
                t == (m@.file_path != file_path@),
        { !text::same(m.file_path.as_str(), file_path) };
        rows::retain(&mut self.manifest, Ghost(keep), test);
    }
}

} // verus!
