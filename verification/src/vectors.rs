//! The embeddings of nodes.

use vstd::prelude::*;

use crate::rows;
use crate::store;
use crate::store::{Store, StoreModel, SCHEMA_VERSION};
use crate::store_laws;
use crate::tables::{MetaRow, MetaRowModel, VectorRow, VectorRowModel};
use crate::text;

verus! {

/// The embeddings of a dimension.
pub open spec fn has_dimension(dim: nat) -> spec_fn(VectorRowModel) -> bool {
    |v: VectorRowModel| v.bits.len() == dim
}

/// The dimension that is noted for the embeddings, where a number is.
pub open spec fn noted_dimension(meta: Seq<MetaRowModel>) -> Option<nat> {
    match store::meta_value(meta, "vec_dim"@) {
        Some(v) => match text::parse_nat(v) {
            Some(n) => if n <= usize::MAX {
                Some(n)
            } else {
                None
            },
            None => None,
        },
        None => None,
    }
}

/// Whether all embeddings are of the noted dimension.
pub open spec fn is_uniform(s: StoreModel) -> bool {
    forall|i: int|
        0 <= i < s.vectors.len() ==> Some((#[trigger] s.vectors[i]).bits.len()) == noted_dimension(
            s.meta,
        )
}

/// The store with a table for embeddings of a dimension. Where another one is
/// noted, or none, the table is begun anew and the dimension noted.
pub open spec fn with_dimension(s: StoreModel, dim: nat) -> StoreModel {
    if noted_dimension(s.meta) == Some(dim) {
        s
    } else {
        StoreModel {
            vectors: Seq::empty(),
            meta: rows::replaced::<MetaRow>(
                s.meta,
                MetaRowModel { name: "vec_dim"@, value: text::decimal(dim) },
            ),
            ..s
        }
    }
}

/// The store after a batch of embeddings. The first of the batch says of which
/// dimension they are; those of another are left out of the batch, and a table of
/// another is begun anew. A batch that begins with nothing changes nothing.
pub open spec fn with_vectors(s: StoreModel, items: Seq<VectorRowModel>) -> StoreModel {
    if items.len() == 0 || items[0].bits.len() == 0 {
        s
    } else {
        let dim = items[0].bits.len();
        let t = with_dimension(s, dim);
        StoreModel {
            vectors: rows::all_replaced::<VectorRow>(
                t.vectors,
                rows::kept(items, has_dimension(dim)),
            ),
            ..t
        }
    }
}

impl Store {
    /// See [`with_dimension`].
    fn set_dimension(&mut self, dim: usize)
        requires
            old(self)@.wf(),
        ensures
            final(self)@ == with_dimension(old(self)@, dim as nat),
            final(self)@.wf(),
    {
        let noted = match self.meta_get("vec_dim") {
            Some(v) => text::parse_number(v.as_str(), usize::MAX as u64),
            None => None,
        };
        if let Some(n) = noted {
            if n == dim as u64 {
                return ;
            }
        }
        self.vectors = Vec::new();
        assert(rows::seen(self.vectors@) =~= Seq::empty());
        self.meta_set("vec_dim", text::to_decimal(dim as u64).as_str());
    }

    /// Stores a batch of embeddings, each as the bits of a vector of length one;
    /// see [`with_vectors`].
    pub fn upsert_vectors(&mut self, items: &Vec<VectorRow>)
        requires
            old(self)@.wf(),
        ensures
            final(self)@ == with_vectors(old(self)@, rows::seen(items@)),
            final(self)@.wf(),
    {
        let ghost all = rows::seen(items@);
        assert(all.len() == items@.len());
        if items.len() == 0 {
            return ;
        }
        assert(all[0] == items@[0]@);
        let dim: usize = items[0].bits.len();
        if dim == 0 {
            return ;
        }
        self.set_dimension(dim);
        let test = |v: &VectorRow| -> (t: bool)
            ensures
                t == has_dimension(dim as nat)(v@),
        { v.bits.len() == dim };
        let fit = rows::select(items, Ghost(has_dimension(dim as nat)), test);
        proof {
            rows::lemma_unique_all_replaced::<VectorRow>(self@.vectors, rows::seen(fit@));
        }
        rows::replace_all(&mut self.vectors, &fit);
    }

    /// Stores one embedding.
    pub fn upsert_vector(&mut self, node_id: &str, bits: Vec<u32>)
        requires
            old(self)@.wf(),
        ensures
            final(self)@ == with_vectors(
                old(self)@,
                seq![VectorRowModel { node_id: node_id@, bits: bits@ }],
            ),
            final(self)@.wf(),
    {
        let row = VectorRow { node_id: node_id.to_owned(), bits };
        let mut batch: Vec<VectorRow> = Vec::new();
        batch.push(row);
        assert(rows::seen(batch@) =~= seq![VectorRowModel { node_id: node_id@, bits: bits@ }]);
        self.upsert_vectors(&batch);
    }

    /// The embeddings.
    pub fn all_vectors(&self) -> (r: Vec<VectorRow>)
        ensures
            rows::seen(r@) == self@.vectors,
    {
        rows::copies(&self.vectors)
    }
}

/// Whether embeddings of a model can stand beside those that are there.
pub open spec fn is_own_model(s: StoreModel, model: Seq<char>) -> bool {
    store::meta_value(s.meta, "embed_model"@) == Some(model)
}

impl Store {
    /// Stores embeddings after a run, where they are of the model that made the
    /// others; says whether they are.
    pub fn refresh_vectors(&mut self, model: &str, items: &Vec<VectorRow>) -> (r: bool)
        requires
            old(self)@.wf(),
        ensures
            r == is_own_model(old(self)@, model@),
            final(self)@ == (if r {
                with_vectors(old(self)@, rows::seen(items@))
            } else {
                old(self)@
            }),
            final(self)@.wf(),
    {
        let own = match self.meta_get("embed_model") {
            Some(m) => text::same(m.as_str(), model),
            None => false,
        };
        if own {
            self.upsert_vectors(items);
        }
        own
    }
}

/// The store with the embeddings of an older table moved in. The first says of
/// which dimension they are; those of another are left out, and of an embedding
/// that is there already the old one stays.
pub open spec fn with_legacy(s: StoreModel, legacy: Seq<VectorRowModel>) -> StoreModel {
    if legacy.len() == 0 || legacy[0].bits.len() == 0 {
        s
    } else {
        let dim = legacy[0].bits.len();
        let t = with_dimension(s, dim);
        StoreModel {
            vectors: rows::all_added::<VectorRow>(
                t.vectors,
                rows::kept(legacy, has_dimension(dim)),
            ),
            ..t
        }
    }
}

/// The tables of a file that an older version wrote, brought to this one: before
/// the fourth the ids were other ones, so every file is read again; before the
/// fifth the embeddings stood in a table of their own.
pub open spec fn migrated(
    s: StoreModel,
    version: Option<i64>,
    legacy: Seq<VectorRowModel>,
) -> StoreModel {
    match version {
        Some(v) => if v < SCHEMA_VERSION {
            with_legacy(
                StoreModel {
                    manifest: if v < 4 {
                        Seq::empty()
                    } else {
                        s.manifest
                    },
                    ..s
                },
                legacy,
            )
        } else {
            s
        },
        None => s,
    }
}

impl Store {
    /// See [`with_legacy`].
    fn take_legacy(&mut self, legacy: &Vec<VectorRow>)
        requires
            old(self)@.wf(),
        ensures
            final(self)@ == with_legacy(old(self)@, rows::seen(legacy@)),
            final(self)@.wf(),
    {
        let ghost all = rows::seen(legacy@);
        assert(all.len() == legacy@.len());
        if legacy.len() == 0 {
            return ;
        }
        assert(all[0] == legacy@[0]@);
        let dim: usize = legacy[0].bits.len();
        if dim == 0 {
            return ;
        }
        self.set_dimension(dim);
        let test = |v: &VectorRow| -> (t: bool)
            ensures
                t == has_dimension(dim as nat)(v@),
        { v.bits.len() == dim };
        let fit = rows::select(legacy, Ghost(has_dimension(dim as nat)), test);
        proof {
            rows::lemma_unique_all_added::<VectorRow>(self@.vectors, rows::seen(fit@));
        }
        rows::add_all(&mut self.vectors, &fit);
    }

    /// See [`migrated`].
    pub fn migrate(&mut self, version: Option<i64>, legacy: &Vec<VectorRow>)
        requires
            old(self)@.wf(),
        ensures
            final(self)@ == migrated(old(self)@, version, rows::seen(legacy@)),
            final(self)@.wf(),
    {
        if let Some(v) = version {
            if v < SCHEMA_VERSION {
                if v < 4 {
                    self.manifest = Vec::new();
                    assert(rows::seen(self.manifest@) =~= Seq::empty());
                }
                self.take_legacy(legacy);
            }
        }
    }
}

proof fn lemma_replaced_dimension(s: Seq<VectorRowModel>, ms: Seq<VectorRowModel>, dim: nat)
    requires
        forall|i: int| 0 <= i < s.len() ==> (#[trigger] s[i]).bits.len() == dim,
        forall|i: int| 0 <= i < ms.len() ==> (#[trigger] ms[i]).bits.len() == dim,
    ensures
        ({
            let r = rows::all_replaced::<VectorRow>(s, ms);
            forall|i: int| 0 <= i < r.len() ==> (#[trigger] r[i]).bits.len() == dim
        }),
    decreases ms.len(),
{
    if ms.len() > 0 {
        let d = ms.drop_last();
        assert forall|i: int| 0 <= i < d.len() implies (#[trigger] d[i]).bits.len() == dim by {
            assert(d[i] == ms[i]);
        }
        lemma_replaced_dimension(s, d, dim);
        let rest = rows::all_replaced::<VectorRow>(s, d);
        let test = rows::other_key::<VectorRow>(ms.last().node_id);
        rows::lemma_kept(rest, test);
        let r = rows::all_replaced::<VectorRow>(s, ms);
        assert forall|i: int| 0 <= i < r.len() implies (#[trigger] r[i]).bits.len() == dim by {
            let k = rows::kept(rest, test);
            if i < k.len() {
                assert(rest.contains(k[i]));
                let j = choose|j: int| 0 <= j < rest.len() && rest[j] == k[i];
                assert(rest[j].bits.len() == dim);
            } else {
                assert(ms[ms.len() - 1] == ms.last());
            }
        }
    }
}

proof fn lemma_added_dimension(s: Seq<VectorRowModel>, ms: Seq<VectorRowModel>, dim: nat)
    requires
        forall|i: int| 0 <= i < s.len() ==> (#[trigger] s[i]).bits.len() == dim,
        forall|i: int| 0 <= i < ms.len() ==> (#[trigger] ms[i]).bits.len() == dim,
    ensures
        ({
            let r = rows::all_added::<VectorRow>(s, ms);
            forall|i: int| 0 <= i < r.len() ==> (#[trigger] r[i]).bits.len() == dim
        }),
    decreases ms.len(),
{
    if ms.len() > 0 {
        let d = ms.drop_last();
        assert forall|i: int| 0 <= i < d.len() implies (#[trigger] d[i]).bits.len() == dim by {
            assert(d[i] == ms[i]);
        }
        lemma_added_dimension(s, d, dim);
        let rest = rows::all_added::<VectorRow>(s, d);
        let r = rows::all_added::<VectorRow>(s, ms);
        assert forall|i: int| 0 <= i < r.len() implies (#[trigger] r[i]).bits.len() == dim by {
            if i < rest.len() {
                assert(r[i] == rest[i]);
            } else {
                assert(r[i] == ms[ms.len() - 1]);
            }
        }
    }
}

proof fn lemma_dimension_noted(s: StoreModel, dim: nat)
    requires
        is_uniform(s),
        dim <= usize::MAX,
    ensures
        noted_dimension(with_dimension(s, dim).meta) == Some(dim),
        is_uniform(with_dimension(s, dim)),
{
    store_laws::law_meta_reads_back(s.meta, "vec_dim"@, text::decimal(dim), "vec_dim"@);
    store_laws::law_number_reads_back(dim);
}

/// The embeddings are always of one dimension, which is the noted one: a batch
/// keeps it so, and the embeddings of an older table do.
pub proof fn law_vectors_are_uniform(s: StoreModel, items: Seq<VectorRowModel>)
    requires
        is_uniform(s),
        items.len() > 0 ==> items[0].bits.len() <= usize::MAX,
    ensures
        is_uniform(with_vectors(s, items)),
        is_uniform(with_legacy(s, items)),
{
    if items.len() > 0 && items[0].bits.len() > 0 {
        let dim = items[0].bits.len();
        let t = with_dimension(s, dim);
        lemma_dimension_noted(s, dim);
        let fit = rows::kept(items, has_dimension(dim));
        rows::lemma_kept(items, has_dimension(dim));
        assert forall|i: int| 0 <= i < fit.len() implies (#[trigger] fit[i]).bits.len() == dim by {
            assert(has_dimension(dim)(fit[i]));
        }
        assert forall|i: int| 0 <= i < t.vectors.len() implies (
        #[trigger] t.vectors[i]).bits.len() == dim by {
            assert(Some(t.vectors[i].bits.len()) == noted_dimension(t.meta));
        }
        lemma_replaced_dimension(t.vectors, fit, dim);
        lemma_added_dimension(t.vectors, fit, dim);
    }
}

} // verus!
