//! What the store as a whole keeps: a read gives back what the last write
//! wrote, a write leaves the other rows alone, and a file that is deleted
//! leaves nothing behind.

use vstd::prelude::*;

use crate::rows;
use crate::rows::Keyed;
use crate::scan;
use crate::scan::{FileInfo, Step};
use crate::store;
use crate::store::StoreModel;
use crate::store_files;
use crate::tables::{CallRowModel, ManifestEntry, ManifestEntryModel, MetaRow, MetaRowModel};
use crate::text;
use crate::types::{CallModel, Edge, EdgeModel, Node, NodeModel};
use crate::update;

verus! {

/// A row that is written over is the one that is found by its key, and the rows
/// with other keys are found as before.
proof fn lemma_upserted_first<T: Keyed>(s: Seq<T::V>, m: T::V, key: T::Key)
    ensures
        rows::first(rows::upserted::<T>(s, m), rows::has_key::<T>(key)) == if key == T::key(m) {
            Some(m)
        } else {
            rows::first(s, rows::has_key::<T>(key))
        },
{
    let own = rows::has_key::<T>(T::key(m));
    let test = rows::has_key::<T>(key);
    let t = rows::upserted::<T>(s, m);
    rows::lemma_first_at(s, own);
    rows::lemma_first_at(s, test);
    rows::lemma_first_at(t, test);
    match rows::first_at(s, own) {
        Some(i) => {
            assert(t[i] == m);
            if key == T::key(m) {
                assert(own =~= test);
                rows::lemma_first_is(t, test, i);
            } else {
                match rows::first_at(s, test) {
                    Some(j) => {
                        assert(t[j] == s[j]);
                        assert forall|k: int| 0 <= k < j implies !test(#[trigger] t[k]) by {
                            assert(!test(s[k]));
                        }
                        rows::lemma_first_is(t, test, j);
                    },
                    None => {
                        assert forall|k: int| 0 <= k < t.len() implies !test(#[trigger] t[k]) by {
                            assert(!test(s[k]));
                        }
                        rows::lemma_first_is(t, test, t.len() as int);
                    },
                }
            }
        },
        None => {
            assert(t[s.len() as int] == m);
            match rows::first_at(s, test) {
                Some(j) => {
                    assert(t[j] == s[j]);
                    assert forall|k: int| 0 <= k < j implies !test(#[trigger] t[k]) by {
                        assert(!test(s[k]));
                    }
                    rows::lemma_first_is(t, test, j);
                    if key == T::key(m) {
                        assert(own =~= test);
                    }
                },
                None => {
                    assert forall|k: int| 0 <= k < s.len() implies !test(#[trigger] t[k]) by {
                        assert(!test(s[k]));
                    }
                    rows::lemma_first_is(
                        t,
                        test,
                        if key == T::key(m) {
                            s.len() as int
                        } else {
                            t.len() as int
                        },
                    );
                },
            }
        },
    }
}

/// A row that is put in place of those with its key is the one that is found by
/// its key, and the rows with other keys are found as before.
proof fn lemma_replaced_first<T: Keyed>(s: Seq<T::V>, m: T::V, key: T::Key)
    ensures
        rows::first(rows::replaced::<T>(s, m), rows::has_key::<T>(key)) == if key == T::key(m) {
            Some(m)
        } else {
            rows::first(s, rows::has_key::<T>(key))
        },
{
    let test = rows::has_key::<T>(key);
    let keep = rows::other_key::<T>(T::key(m));
    let k = rows::kept(s, keep);
    let t = rows::replaced::<T>(s, m);
    assert(t.drop_last() =~= k);
    rows::lemma_kept(s, keep);
    rows::lemma_first_at(k, test);
    if key != T::key(m) {
        rows::lemma_kept_first(s, keep, test);
        match rows::first_at(k, test) {
            Some(i) => {
                assert(t[i] == k[i]);
            },
            None => {},
        }
    } else {
        match rows::first_at(k, test) {
            Some(i) => {
                assert(keep(k[i]));
            },
            None => {},
        }
    }
}

/// A node reads back as it was written, and the other nodes as they were.
pub proof fn law_node_reads_back(s: Seq<NodeModel>, n: NodeModel, id: Seq<char>)
    ensures
        rows::first(rows::upserted::<Node>(s, n), store::node_is(id)) == if id == n.id {
            Some(n)
        } else {
            rows::first(s, store::node_is(id))
        },
{
    lemma_upserted_first::<Node>(s, n, id);
    assert(rows::has_key::<Node>(id) =~= store::node_is(id));
}

/// An edge that was written is read at both of its ends.
pub proof fn law_edge_reads_back(s: Seq<EdgeModel>, e: EdgeModel)
    ensures
        rows::kept(rows::upserted::<Edge>(s, e), store::edge_at(e.src)).contains(e),
        rows::kept(rows::upserted::<Edge>(s, e), store::edge_at(e.dst)).contains(e),
{
    let t = rows::upserted::<Edge>(s, e);
    let own = rows::has_key::<Edge>(Edge::key(e));
    rows::lemma_first_at(s, own);
    match rows::first_at(s, own) {
        Some(i) => {
            assert(t[i] == e);
        },
        None => {
            assert(t[s.len() as int] == e);
        },
    }
    assert(t.contains(e));
    rows::lemma_kept(t, store::edge_at(e.src));
    rows::lemma_kept(t, store::edge_at(e.dst));
}

/// A fact about the index reads back as it was written, and the other facts as
/// they were.
pub proof fn law_meta_reads_back(
    meta: Seq<MetaRowModel>,
    name: Seq<char>,
    value: Seq<char>,
    key: Seq<char>,
)
    ensures
        store::meta_value(rows::replaced::<MetaRow>(meta, (MetaRowModel { name, value })), key)
            == if key == name {
            Some(value)
        } else {
            store::meta_value(meta, key)
        },
{
    lemma_replaced_first::<MetaRow>(meta, MetaRowModel { name, value }, key);
    assert(rows::has_key::<MetaRow>(key) =~= store::meta_is(key));
}

/// What is noted of a file reads back as it was noted, and what is noted of the
/// other files as it was.
pub proof fn law_manifest_reads_back(
    manifest: Seq<ManifestEntryModel>,
    entry: ManifestEntryModel,
    file: Seq<char>,
)
    ensures
        rows::first(
            rows::replaced::<ManifestEntry>(manifest, entry),
            store::manifest_is(file),
        ) == if file == entry.file_path {
            Some(entry)
        } else {
            rows::first(manifest, store::manifest_is(file))
        },
{
    lemma_replaced_first::<ManifestEntry>(manifest, entry, file);
    assert(rows::has_key::<ManifestEntry>(file) =~= store::manifest_is(file));
}

/// The decimal notation of a number reads back as the number.
pub proof fn law_number_reads_back(n: nat)
    ensures
        text::parse_nat(text::decimal(n)) == Some(n),
{
    lemma_decimal(n);
    let d = text::decimal(n);
    assert(text::is_digit(d[0]));
    assert(text::strip_plus(d) == d);
}

/// The decimal notation of a number is one digit at least, and digits alone.
pub proof fn lemma_decimal(n: nat)
    ensures
        text::decimal(n).len() > 0,
        text::all_digits(text::decimal(n)),
        text::digits_value(text::decimal(n)) == n,
    decreases n,
{
    let d = text::decimal(n);
    if n < 10 {
        assert(d.drop_last() =~= Seq::empty());
        assert(text::digits_value(d.drop_last()) == 0);
        assert(d.last() as nat == '0' as nat + n);
    } else {
        lemma_decimal(n / 10);
        assert(d.drop_last() =~= text::decimal(n / 10));
        assert(d.last() as nat == '0' as nat + n % 10);
        assert forall|i: int| 0 <= i < d.len() implies text::is_digit(#[trigger] d[i]) by {
            if i < d.len() - 1 {
                assert(d[i] == text::decimal(n / 10)[i]);
            }
        }
    }
}

/// Where what is noted is a number, the count goes on from that number.
proof fn lemma_counted(s: StoreModel)
    requires
        store::meta_value(s.meta, "generation"@) matches Some(v) ==> (text::parse_nat(
            v,
        ) matches Some(n) && n < i64::MAX),
    ensures
        store::counted_from(s.meta) == store::generation_of(s.meta),
{
    if let Some(v) = store::meta_value(s.meta, "generation"@) {
        let d = text::strip_plus(v);
        let b = v.len() - d.len();
        assert(d =~= v.subrange(b, v.len() as int));
        assert(text::is_digit(d[0]));
        assert(v[b] == d[0]);
        assert(text::after_spaces(v, 0) == 0);
        assert(text::number_start(v) == b);
        assert forall|i: int| b <= i < v.len() implies text::is_digit(#[trigger] v[i]) by {
            assert(d[i - b] == v[i]);
        }
        text::lemma_after_digits(v, b, v.len() as int);
    }
}

/// Each committed run makes the generation one larger, where what is noted is a
/// number and the largest is not reached.
pub proof fn law_generation_grows(s: StoreModel)
    requires
        store::meta_value(s.meta, "generation"@) matches Some(v) ==> (text::parse_nat(
            v,
        ) matches Some(n) && n < i64::MAX),
    ensures
        store::generation_of(update::bumped(s).meta) == store::generation_of(s.meta) + 1,
{
    lemma_counted(s);
    let next = (store::generation_of(s.meta) + 1) as nat;
    law_meta_reads_back(s.meta, "generation"@, text::decimal(next), "generation"@);
    law_number_reads_back(next);
}

proof fn lemma_kept_none<M>(s: Seq<M>, keep: spec_fn(M) -> bool, test: spec_fn(M) -> bool)
    requires
        forall|x: M| #[trigger] test(x) ==> !keep(x),
    ensures
        rows::kept(rows::kept(s, keep), test).len() == 0,
{
    let k = rows::kept(s, keep);
    rows::lemma_kept(s, keep);
    rows::lemma_kept(k, test);
    let both = rows::kept(k, test);
    if both.len() > 0 {
        assert(test(both[0]));
        assert(k.contains(both[0]));
    }
}

proof fn lemma_kept_all<M>(s: Seq<M>, keep: spec_fn(M) -> bool, test: spec_fn(M) -> bool)
    requires
        forall|x: M| #[trigger] test(x) ==> keep(x),
    ensures
        rows::kept(rows::kept(s, keep), test) == rows::kept(s, test),
    decreases s.len(),
{
    if s.len() > 0 {
        let d = s.drop_last();
        lemma_kept_all(d, keep, test);
        rows::lemma_kept_push(rows::kept(d, keep), s.last(), test);
    }
}

proof fn lemma_kept_append<M>(a: Seq<M>, b: Seq<M>, test: spec_fn(M) -> bool)
    ensures
        rows::kept(a + b, test) == rows::kept(a, test) + rows::kept(b, test),
    decreases b.len(),
{
    if b.len() == 0 {
        assert(a + b =~= a);
        assert(rows::kept(a, test) + rows::kept(b, test) =~= rows::kept(a, test));
    } else {
        assert((a + b).drop_last() =~= a + b.drop_last());
        lemma_kept_append(a, b.drop_last(), test);
        assert(rows::kept(a + b, test) =~= rows::kept(a, test) + rows::kept(b, test));
    }
}

proof fn lemma_kept_whole<M>(s: Seq<M>, test: spec_fn(M) -> bool)
    requires
        forall|i: int| 0 <= i < s.len() ==> test(#[trigger] s[i]),
    ensures
        rows::kept(s, test) == s,
    decreases s.len(),
{
    if s.len() > 0 {
        assert forall|i: int| 0 <= i < s.drop_last().len() implies test(
            #[trigger] s.drop_last()[i],
        ) by {
            assert(test(s[i]));
        }
        lemma_kept_whole(s.drop_last(), test);
        assert(test(s[s.len() - 1]));
        assert(s.drop_last().push(s.last()) =~= s);
    }
}

/// The calls of a file read back as they were saved, in their order, and those
/// of every other file as they were.
pub proof fn law_calls_read_back(
    calls: Seq<CallRowModel>,
    file: Seq<char>,
    saved: Seq<CallModel>,
    other: Seq<char>,
)
    ensures
        ({
            let after = rows::kept(calls, store_files::calls_outside(file)) + saved.map_values(
                store_files::call_row(file),
            );
            rows::kept(after, store_files::calls_in(other)) == if other == file {
                saved.map_values(store_files::call_row(file))
            } else {
                rows::kept(calls, store_files::calls_in(other))
            }
        }),
{
    let keep = store_files::calls_outside(file);
    let test = store_files::calls_in(other);
    let made = saved.map_values(store_files::call_row(file));
    let rest = rows::kept(calls, keep);
    lemma_kept_append(rest, made, test);
    if other == file {
        lemma_kept_none(calls, keep, test);
        lemma_kept_whole(made, test);
        assert(rows::kept(rest, test) + made =~= made);
    } else {
        lemma_kept_all(calls, keep, test);
        rows::lemma_kept(made, test);
        let none = rows::kept(made, test);
        if none.len() > 0 {
            assert(test(none[0]));
            assert(made.contains(none[0]));
        }
        assert(rows::kept(rest, test) + none =~= rows::kept(rest, test));
    }
}

/// A file whose data is deleted leaves no node and no call behind, and the nodes
/// and calls of every other file stand as they did.
pub proof fn law_file_is_forgotten(s: StoreModel, file: Seq<char>, other: Seq<char>)
    requires
        other != file,
    ensures
        rows::kept(store_files::without_file(s, file).nodes, store::node_in(file)).len() == 0,
        rows::kept(store_files::without_file(s, file).calls, store_files::calls_in(file)).len()
            == 0,
        rows::kept(store_files::without_file(s, file).nodes, store::node_in(other)) == rows::kept(
            s.nodes,
            store::node_in(other),
        ),
        rows::kept(store_files::without_file(s, file).calls, store_files::calls_in(other))
            == rows::kept(s.calls, store_files::calls_in(other)),
        store_files::without_file(s, file).meta == s.meta,
        store_files::without_file(s, file).edges == s.edges,
{
    lemma_kept_none(s.nodes, store::node_outside(file), store::node_in(file));
    lemma_kept_none(s.calls, store_files::calls_outside(file), store_files::calls_in(file));
    lemma_kept_all(s.nodes, store::node_outside(file), store::node_in(other));
    lemma_kept_all(s.calls, store_files::calls_outside(file), store_files::calls_in(other));
}

/// A file is not read again once its time is noted, and a text that did not
/// change is not parsed again though its time did.
pub proof fn law_unchanged_file_is_skipped(
    manifest: Seq<ManifestEntryModel>,
    f: FileInfo,
    again: FileInfo,
    text: Seq<char>,
)
    requires
        !crate::listing::tsconfig_path(f.rel@),
        crate::listing::kind_of(f.rel@, f.is_file, f.len) is Some,
        again.rel@ == f.rel@,
        again.is_file == f.is_file,
        again.len == f.len,
    ensures
        ({
            let known = scan::known(scan::noted(manifest, f, scan::sha(text)), false, again.rel@);
            &&& f.mtime != 0 && again.mtime == f.mtime ==> scan::step_for(again, known)
                == Step::Skip
            &&& !(scan::state_of(again, known, Some(text)) is Changed)
        }),
{
    law_manifest_reads_back(
        manifest,
        ManifestEntryModel { file_path: f.rel@, sha256: scan::sha(text), mtime: f.mtime },
        f.rel@,
    );
}

} // verus!
