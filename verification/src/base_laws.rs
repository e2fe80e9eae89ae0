//! What a change took away, what was there before a run, and what lies where in
//! a tree of directories.

use vstd::prelude::*;
use vstd::string::*;

use crate::audit;
use crate::changes::ChangeKind;
use crate::config;
use crate::config::Layer;
use crate::listing;
use crate::order;
use crate::report;
use crate::review;
use crate::review::{BaseDisposition, BaseModel, FactsModel, TestEvidence};
use crate::rows;
use crate::scan;
use crate::search_laws;
use crate::store::StoreModel;
use crate::tables::VectorRowModel;
use crate::text;
use crate::types::{EdgeModel, EdgeRelation, NodeModel};
use crate::value;
use crate::value::DatumModel;
use crate::vectors;

verus! {

/// A node is tested for certain just where an edge says so.
pub proof fn law_edge_shows_a_test(s: StoreModel, id: Seq<char>, name: Seq<char>)
    ensures
        review::test_evidence(s, id, name) == TestEvidence::Resolved <==> exists|e: EdgeModel|
         #[trigger]
            s.edges.contains(e) && e.relation == EdgeRelation::Tests && e.dst == id,
{
    rows::lemma_any(s.edges, review::tests_of(id));
    if rows::any(s.edges, review::tests_of(id)) {
        let e = choose|e: EdgeModel| #[trigger] s.edges.contains(e) && review::tests_of(id)(e);
        assert(s.edges.contains(e));
    }
    if exists|e: EdgeModel| #[trigger]
        s.edges.contains(e) && e.relation == EdgeRelation::Tests && e.dst == id {
        let e = choose|e: EdgeModel| #[trigger]
            s.edges.contains(e) && e.relation == EdgeRelation::Tests && e.dst == id;
        assert(review::tests_of(id)(e));
    }
}

/// What is said of a symbol that is gone.
pub open spec fn tells(b: BaseModel, n: NodeModel) -> bool {
    b.name == n.name && b.kind == n.label && b.line == n.line_start
}

/// Whether a symbol is told of.
pub open spec fn is_told(all: Seq<BaseModel>, n: NodeModel) -> bool {
    exists|b: BaseModel| #[trigger] all.contains(b) && tells(b, n)
}

/// A deleted source file loses each symbol that its last text had.
pub proof fn law_deleted_file_loses_its_symbols(s: StoreModel, f: FactsModel, text: Seq<char>)
    requires
        f.change.kind == ChangeKind::Deleted,
        review::is_code(f.change.path),
        f.base == Ok::<Seq<char>, Seq<char>>(text),
    ensures
        ({
            let all = review::source_symbols("base"@, f.change.path, text);
            let r = review::taken_away(s, f).0;
            &&& r.len() == all.len()
            &&& forall|i: int|
                0 <= i < r.len() ==> tells(#[trigger] r[i], all[i]) && r[i].file == f.change.path
                    && r[i].disposition == BaseDisposition::FileDeleted
            &&& review::taken_away(s, f).1.len() == 0
        }),
{
}

/// Another source file loses just the symbols whose names neither the graph nor
/// its text has now; a new file loses none.
pub proof fn law_changed_file_loses_what_it_names_no_more(
    s: StoreModel,
    f: FactsModel,
    text: Seq<char>,
    source: Seq<char>,
)
    requires
        f.change.kind != ChangeKind::Deleted,
        review::is_code(review::base_path(f.change)),
        f.base == Ok::<Seq<char>, Seq<char>>(text),
        f.current == Ok::<Seq<char>, Seq<char>>(source),
    ensures
        ({
            let all = review::source_symbols("base"@, review::base_path(f.change), text);
            let names = review::present_names(s, f.change.path, source);
            let r = review::taken_away(s, f).0;
            &&& f.change.kind == ChangeKind::Added ==> r.len() == 0
            &&& forall|b: BaseModel| #[trigger]
                r.contains(b) ==> !names.contains(b.name) && b.file == review::base_path(f.change)
                    && (b.disposition == BaseDisposition::LostInRename <==> (f.change.kind
                    == ChangeKind::Renamed || f.change.kind == ChangeKind::Copied))
                    && b.disposition != BaseDisposition::FileDeleted
            &&& f.change.kind != ChangeKind::Added ==> forall|n: NodeModel| #[trigger]
                all.contains(n) && !names.contains(n.name) ==> is_told(r, n)
        }),
{
    let before = review::base_path(f.change);
    let all = review::source_symbols("base"@, before, text);
    let names = review::present_names(s, f.change.path, source);
    let r = review::taken_away(s, f).0;
    if f.change.kind != ChangeKind::Added {
        let keep = review::gone_from(names);
        let g = review::base_symbol(before, review::disposition_of(f.change.kind));
        let gone = rows::kept(all, keep);
        rows::lemma_kept(all, keep);
        assert(r == gone.map_values(g));
        assert forall|b: BaseModel| #[trigger] r.contains(b) implies !names.contains(b.name)
            && b.file == before && (b.disposition == BaseDisposition::LostInRename <==> (
        f.change.kind == ChangeKind::Renamed || f.change.kind == ChangeKind::Copied))
            && b.disposition != BaseDisposition::FileDeleted by {
            let i = choose|i: int| 0 <= i < r.len() && r[i] == b;
            assert(b == g(gone[i]));
            assert(keep(gone[i]));
        }
        assert forall|n: NodeModel| #[trigger]
            all.contains(n) && !names.contains(n.name) implies is_told(r, n) by {
            assert(keep(n));
            assert(gone.contains(n));
            let i = choose|i: int| 0 <= i < gone.len() && gone[i] == n;
            assert(r[i] == g(n));
            assert(r.contains(r[i]) && tells(r[i], n));
        }
    }
}

/// What a file sets wins over the files before it; what it does not set stays
/// as they have it.
pub proof fn law_later_file_wins(
    layers: Seq<Layer>,
    last: Layer,
    below: value::Entries,
    t: value::Entries,
    k: Seq<char>,
)
    requires
        config::config_fault(t) is None,
        value::keys_differ(t),
    ensures
        config::layered(layers) == Ok::<value::Entries, Seq<char>>(below) && value::toml_parsed(
            last.text@,
        ) == Ok::<DatumModel, Seq<char>>(DatumModel::Table(t)) ==> match config::layered(
            layers.push(last),
        ) {
            Ok(all) => match value::lookup(t, k) {
                None => value::lookup(all, k) == value::lookup(below, k),
                Some(v) => !(v is Table) ==> value::lookup(all, k) == Some(v),
            },
            Err(_) => false,
        },
{
    assert(layers.push(last).drop_last() =~= layers);
    config::law_higher_layer_wins(below, t, k);
}

/// A file that cannot be read is told of, and so is the first of several.
pub proof fn law_faulty_file_is_told(layers: Seq<Layer>, last: Layer, e: Seq<char>)
    ensures
        config::layered(layers) is Err ==> config::layered(layers.push(last)) == config::layered(
            layers,
        ),
        config::layered(layers) is Ok && value::toml_parsed(last.text@) == Err::<
            DatumModel,
            Seq<char>,
        >(e) ==> config::layered(layers.push(last)) == Err::<value::Entries, Seq<char>>(
            last.path@ + ": TOML syntax error: "@ + e,
        ),
{
    assert(layers.push(last).drop_last() =~= layers);
}

proof fn lemma_last_slash(dir: Seq<char>, name: Seq<char>)
    requires
        !name.contains('/'),
    ensures
        config::last_slash(dir + seq!['/'] + name) == dir.len(),
    decreases name.len(),
{
    let p = dir + seq!['/'] + name;
    if name.len() > 0 {
        let d = name.drop_last();
        if d.contains('/') {
            let i = choose|i: int| 0 <= i < d.len() && d[i] == '/';
            assert(name[i] == '/');
        }
        assert(name[name.len() - 1] != '/');
        lemma_last_slash(dir, d);
        assert(p.drop_last() =~= dir + seq!['/'] + d);
    } else {
        assert(p.last() == '/');
    }
}

/// Settings are looked for in a directory and then in the one that holds it, up
/// to the root.
pub proof fn law_settings_are_looked_for_upwards(dir: Seq<char>, name: Seq<char>)
    requires
        dir.len() > 0,
        name.len() > 0,
        !name.contains('/'),
    ensures
        config::ancestor(dir + seq!['/'] + name, 0) == Some(dir + seq!['/'] + name),
        config::ancestor(dir + seq!['/'] + name, 1) == Some(dir),
        config::parent_dir(seq!['/'] + name) == Some("/"@),
        config::parent_dir("/"@) is None,
        dir.last() != '/' ==> config::config_file(dir) == dir + "/.codegraph.toml"@,
{
    reveal_strlit("/");
    reveal_with_fuel(config::ancestor, 2);
    let p = dir + seq!['/'] + name;
    lemma_last_slash(dir, name);
    assert(p.len() > 1 && "/"@.len() == 1);
    assert(p.take(dir.len() as int) =~= dir);
    let q = seq!['/'] + name;
    lemma_last_slash(Seq::empty(), name);
    assert(Seq::<char>::empty() + seq!['/'] + name =~= q);
    assert(q.len() > 1);
}

/// The files of the repositories below a directory come with its own; nothing is
/// listed where one of them cannot be.
pub proof fn law_nested_files_are_listed(
    own: Seq<Seq<char>>,
    nested: Seq<Option<Seq<Seq<char>>>>,
    more: Seq<Seq<char>>,
)
    ensures
        listing::combined(own, Seq::empty()) == Some(own),
        listing::combined(own, nested.push(None)) is None,
        listing::combined(own, nested.push(Some(more))) == (match listing::combined(own, nested) {
            Some(all) => Some(all + more),
            None => None,
        }),
{
    assert(nested.push(None).drop_last() =~= nested);
    assert(nested.push(Some(more)).drop_last() =~= nested);
}

/// A directory of a listing is one whose path ends with a slash.
pub proof fn law_listed_directories_end_with_a_slash(paths: Seq<Seq<char>>, p: Seq<char>)
    requires
        p.len() > 0,
        p.last() != '/',
    ensures
        listing::listed_dirs(Seq::empty()) == Seq::<Seq<char>>::empty(),
        listing::listed_dirs(paths.push(p.push('/'))) == listing::listed_dirs(paths).push(p),
        listing::listed_dirs(paths.push(p)) == listing::listed_dirs(paths),
{
    let q = p.push('/');
    assert(paths.push(q).drop_last() =~= paths);
    assert(paths.push(p).drop_last() =~= paths);
    assert(q.drop_last() =~= p);
    assert(text::strip_trail(p, '/') == p);
    assert(text::strip_trail(q, '/') == p);
}

/// The extension of a file is what follows its last dot; a name that only begins
/// with one has none.
pub proof fn law_extension_follows_the_last_dot(stem: Seq<char>, ext: Seq<char>)
    requires
        !ext.contains('.'),
    ensures
        stem.len() > 0 ==> listing::name_extension(stem + seq!['.'] + ext) == ext,
        listing::name_extension(seq!['.'] + ext) == Seq::<char>::empty(),
        listing::name_extension(ext) == Seq::<char>::empty(),
{
    let n = stem + seq!['.'] + ext;
    search_laws::law_last_place_divides(stem, '.', ext);
    if stem.len() > 0 {
        assert(n.skip(1)[stem.len() - 1] == '.');
        assert(n.skip(1).contains('.'));
    }
    assert((seq!['.'] + ext).skip(1) =~= ext);
    if ext.len() > 0 && ext.skip(1).contains('.') {
        let i = choose|i: int| 0 <= i < ext.skip(1).len() && ext.skip(1)[i] == '.';
        assert(ext[i + 1] == '.');
    }
}

/// The first line of a document is the first that is not blank.
pub proof fn law_first_line_is_not_blank(lines: Seq<Seq<char>>, other: Seq<char>, k: int)
    requires
        0 <= k <= lines.len(),
        forall|j: int| 0 <= j < k ==> text::trim(#[trigger] lines[j]).len() == 0,
    ensures
        k < lines.len() && text::trim(lines[k]).len() > 0 ==> scan::first_line(lines, other)
            == lines[k],
        k == lines.len() ==> scan::first_line(lines, other) == other,
    decreases k,
{
    if k > 0 {
        let d = lines.drop_first();
        assert(text::trim(lines[0]).len() == 0);
        assert forall|j: int| 0 <= j < k - 1 implies text::trim(#[trigger] d[j]).len() == 0 by {
            assert(d[j] == lines[j + 1]);
        }
        law_first_line_is_not_blank(d, other, k - 1);
    }
}

/// A file of this version stays as it is. One from before the fourth version has
/// every file read again, and a later one keeps what is noted of them.
pub proof fn law_older_file_is_read_again(s: StoreModel, v: i64, legacy: Seq<VectorRowModel>)
    ensures
        v >= 7 ==> vectors::migrated(s, Some(v), legacy) == s,
        vectors::migrated(s, None, legacy) == s,
        v < 4 ==> vectors::migrated(s, Some(v), legacy).manifest.len() == 0,
        4 <= v ==> vectors::migrated(s, Some(v), legacy).manifest == s.manifest,
        vectors::migrated(s, Some(v), legacy).nodes == s.nodes,
        vectors::migrated(s, Some(v), legacy).edges == s.edges,
{
}

/// The reasons that a report tells are the most frequent ones: each has a name,
/// the greatest count first, and twenty at most.
pub proof fn law_reasons_are_told_by_frequency(edges: Seq<EdgeModel>)
    ensures
        ({
            let r = report::tier_counts(edges);
            let all = report::reason_counts(report::call_reasons(edges));
            &&& r.len() <= 20
            &&& forall|c: (Seq<char>, nat)| #[trigger]
                r.contains(c) ==> c.0.len() > 0 && all.contains(c)
            &&& all.len() <= 20 ==> forall|c: (Seq<char>, nat)| #[trigger]
                all.contains(c) && c.0.len() > 0 ==> r.contains(c)
            &&& forall|i: int, j: int|
                0 <= i < j < r.len() ==> (#[trigger] r[i]).1 >= (#[trigger] r[j]).1
        }),
{
    let all = report::reason_counts(report::call_reasons(edges));
    let before = report::count_order();
    let sorted = order::arranged(all, before);
    let first = rows::limited(sorted, 20);
    let r = report::tier_counts(edges);
    assert(order::is_order(before));
    order::law_arranged(all, before);
    order::lemma_same_items(all, before);
    let at = order::lemma_arranged_stable(all, before);
    rows::lemma_kept(first, report::has_a_name());
    assert forall|i: int| 0 <= i < first.len() implies #[trigger] first[i] == sorted[i] by {}
    assert forall|i: int, j: int| 0 <= i < j < first.len() implies (#[trigger] first[i]).1 >= (
    #[trigger] first[j]).1 by {
        assert(!before(sorted[j], sorted[i]));
    }
    lemma_kept_falls(first, report::has_a_name());
    assert forall|c: (Seq<char>, nat)| #[trigger] r.contains(c) implies c.0.len() > 0
        && all.contains(c) by {
        assert(first.contains(c));
        let i = choose|i: int| 0 <= i < first.len() && first[i] == c;
        assert(sorted.contains(sorted[i]));
    }
    if all.len() <= 20 {
        assert(first =~= sorted);
        assert forall|c: (Seq<char>, nat)| #[trigger]
            all.contains(c) && c.0.len() > 0 implies r.contains(c) by {
            assert(sorted.contains(c));
        }
    }
}

proof fn lemma_kept_falls(s: Seq<(Seq<char>, nat)>, test: spec_fn((Seq<char>, nat)) -> bool)
    requires
        forall|i: int, j: int| 0 <= i < j < s.len() ==> (#[trigger] s[i]).1 >= (#[trigger] s[j]).1,
    ensures
        forall|i: int, j: int|
            0 <= i < j < rows::kept(s, test).len() ==> (#[trigger] rows::kept(s, test)[i]).1 >= (
            #[trigger] rows::kept(s, test)[j]).1,
    decreases s.len(),
{
    let r = rows::kept(s, test);
    if s.len() > 0 {
        let d = s.drop_last();
        let b = rows::kept(d, test);
        lemma_kept_falls(d, test);
        rows::lemma_kept(d, test);
        assert(s =~= d.push(s.last()));
        rows::lemma_kept_push(d, s.last(), test);
        assert forall|i: int, j: int| 0 <= i < j < r.len() implies (#[trigger] r[i]).1 >= (
        #[trigger] r[j]).1 by {
            assert(r[i] == b[i]);
            if j < b.len() {
                assert(r[j] == b[j]);
            } else {
                assert(d.contains(b[i]));
                let k = choose|k: int| 0 <= k < d.len() && d[k] == b[i];
                assert(s[k] == b[i]);
                assert(r[j] == s[s.len() - 1]);
            }
        }
    }
}

/// The reasons of calls alone are counted.
pub proof fn law_reasons_are_those_of_calls(edges: Seq<EdgeModel>, e: EdgeModel)
    ensures
        report::call_reasons(edges.push(e)) == (if e.relation == EdgeRelation::Calls {
            report::call_reasons(edges).push(report::reason_of(e.metadata))
        } else {
            report::call_reasons(edges)
        }),
{
    rows::lemma_kept_push(edges, e, report::is_call());
    let k = rows::kept(edges, report::is_call());
    let g = |e: EdgeModel| report::reason_of(e.metadata);
    assert(k.push(e).map_values(g) =~= k.map_values(g).push(g(e)));
}

/// A language was seen by the compiler where it is that of a node from which the
/// compiler saw a call.
pub proof fn law_languages_that_the_compiler_saw(s: StoreModel, n: NodeModel, e: EdgeModel)
    requires
        s.nodes.contains(n),
        s.edges.contains(e),
        audit::is_oracle()(e),
        e.src == n.id,
    ensures
        audit::oracle_languages(s).contains(n.language),
{
    let keep = audit::is_covered(s.edges);
    let found = rows::kept(s.nodes, keep);
    let g = |n: NodeModel| n.language;
    let all = found.map_values(g);
    rows::lemma_any(s.edges, audit::oracle_from(n.id));
    assert(audit::oracle_from(n.id)(e));
    rows::lemma_kept(s.nodes, keep);
    assert(keep(n));
    assert(found.contains(n));
    let i = choose|i: int| 0 <= i < found.len() && found[i] == n;
    assert(all[i] == n.language);
    assert(all.contains(n.language));
    rows::lemma_distinct(all);
    order::lemma_same_items(rows::distinct(all), order::text_order());
}

} // verus!
