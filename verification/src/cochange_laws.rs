//! What the files that changed together, and the files that use a type, are told
//! by.

use vstd::prelude::*;
use vstd::string::*;

use crate::answer_laws;
use crate::history;
use crate::history::Pair;
use crate::like;
use crate::order;
use crate::review;
use crate::review_laws;
use crate::rows;
use crate::store::StoreModel;
use crate::store_lists;
use crate::tables::{
    CallRowModel, CoChangeModel, FieldRowModel, ImportRowModel, InheritRowModel, LocalRowModel,
    TypeRefModel,
};
use crate::text;
use crate::types::NodeModel;
use crate::usage;

verus! {

/// Whether two files of a commit are a pair: they stand at two places of it, and
/// the lesser name comes first.
pub open spec fn is_pair_of(files: Seq<Seq<char>>, p: Pair) -> bool {
    exists|i: int, j: int|
        0 <= i < j < files.len() && ((#[trigger] files[i], #[trigger] files[j]) == p || (files[j],
            files[i]) == p) && !text::text_less(p.1, p.0)
}

/// Each two files of a commit are a pair.
pub proof fn law_files_of_a_commit_are_paired(files: Seq<Seq<char>>, p: Pair)
    ensures
        history::pairs_of(files).contains(p) <==> is_pair_of(files, p),
    decreases files.len(),
{
    let all = history::pairs_of(files);
    if files.len() > 0 {
        let d = files.drop_last();
        let last = files.last();
        let f = |f: Seq<char>| history::ordered(f, files.last());
        let rest = history::pairs_of(d);
        let new = d.map_values(f);
        law_files_of_a_commit_are_paired(d, p);
        assert(all == rest + new);
        assert(files[files.len() - 1] == last);
        if is_pair_of(d, p) {
            let (i, j) = choose|i: int, j: int|
                0 <= i < j < d.len() && ((#[trigger] d[i], #[trigger] d[j]) == p || (d[j], d[i])
                    == p) && !text::text_less(p.1, p.0);
            assert(files[i] == d[i] && files[j] == d[j]);
            let k = choose|k: int| 0 <= k < rest.len() && rest[k] == p;
            assert(all[k] == p);
        }
        if all.contains(p) {
            let k = choose|k: int| 0 <= k < all.len() && all[k] == p;
            if k < rest.len() {
                assert(rest[k] == p);
                assert(rest.contains(p));
            } else {
                let i = k - rest.len();
                assert(new[i] == p);
                assert(p == history::ordered(d[i], last));
                order::lemma_text_asymmetric(d[i], last);
                assert(files[i] == d[i]);
                assert(files[files.len() - 1] == last);
                assert(is_pair_of(files, p));
            }
        }
        if is_pair_of(files, p) {
            let (i, j) = choose|i: int, j: int|
                0 <= i < j < files.len() && ((#[trigger] files[i], #[trigger] files[j]) == p || (
                files[j], files[i]) == p) && !text::text_less(p.1, p.0);
            if j < d.len() {
                assert(d[i] == files[i] && d[j] == files[j]);
                assert(is_pair_of(d, p));
            } else {
                assert(d[i] == files[i]);
                order::lemma_text_total(d[i], last);
                assert(new[i] == history::ordered(d[i], last));
                assert(new[i] == p);
                assert(all[rest.len() + i] == p);
            }
        }
    }
}

proof fn lemma_kept_sum<M>(a: Seq<M>, b: Seq<M>, test: spec_fn(M) -> bool)
    ensures
        rows::kept(a + b, test).len() == rows::kept(a, test).len() + rows::kept(b, test).len(),
    decreases b.len(),
{
    if b.len() == 0 {
        assert(a + b =~= a);
    } else {
        assert((a + b).drop_last() =~= a + b.drop_last());
        lemma_kept_sum(a, b.drop_last(), test);
    }
}

/// A commit counts for its pairs where it has from two to thirty files, and for
/// nothing else.
pub proof fn law_commit_counts_for_its_pairs(commits: Seq<Seq<char>>, c: Seq<char>, p: Pair)
    ensures
        ({
            let files = history::files_of(text::split_char(c, '\n'));
            history::occurrences(history::all_pairs(commits.push(c)), p) == history::occurrences(
                history::all_pairs(commits),
                p,
            ) + (if 2 <= files.len() <= 30 {
                history::occurrences(history::pairs_of(files), p)
            } else {
                0
            })
        }),
{
    let files = history::files_of(text::split_char(c, '\n'));
    assert(commits.push(c).drop_last() =~= commits);
    lemma_kept_sum(
        history::all_pairs(commits),
        history::pairs_of(files),
        history::is_pair(p),
    );
}

proof fn lemma_cochange_order()
    ensures
        order::is_order(store_lists::cochange_order()),
{
    let before = store_lists::cochange_order();
    assert forall|a: CoChangeModel, b: CoChangeModel| #[trigger] before(a, b) implies !before(
        b,
        a,
    ) by {
        order::lemma_text_asymmetric(a.file_a, b.file_a);
        order::lemma_text_asymmetric(a.file_b, b.file_b);
    }
    assert forall|a: CoChangeModel, b: CoChangeModel, c: CoChangeModel|
        #![trigger before(a, b), before(a, c)]
        #![trigger before(a, b), before(c, b)]
        before(a, b) implies before(a, c) || before(c, b) by {
        if a.n == b.n && a.n == c.n {
            order::lemma_text_total(a.file_a, c.file_a);
            order::lemma_text_total(c.file_a, b.file_a);
            if a.file_a != b.file_a {
                order::lemma_text_between(a.file_a, b.file_a, c.file_a);
            } else if a.file_a == c.file_a {
                order::lemma_text_between(a.file_b, b.file_b, c.file_b);
            } else {
                order::lemma_text_asymmetric(a.file_a, c.file_a);
            }
        }
    }
}

/// The files that changed together: each pair that two commits have at least,
/// with how many have it, the most frequent first. There are no more than twenty
/// thousand, and where there are fewer, none is left out.
pub proof fn law_pairs_changed_together(log: Seq<char>)
    ensures
        ({
            let s = history::all_pairs(text::split_char(log, '\0'));
            let r = history::cochanges_in(log);
            &&& r.len() <= 20_000
            &&& forall|c: CoChangeModel| #[trigger]
                r.contains(c) ==> s.contains((c.file_a, c.file_b)) && history::occurrences(
                    s,
                    (c.file_a, c.file_b),
                ) >= 2 && (c.n == history::occurrences(s, (c.file_a, c.file_b)) || (c.n == u32::MAX
                    && history::occurrences(s, (c.file_a, c.file_b)) > u32::MAX))
            &&& forall|i: int, j: int|
                0 <= i < j < r.len() ==> (#[trigger] r[i]).n >= (#[trigger] r[j]).n
            &&& r.len() < 20_000 ==> forall|p: Pair| #[trigger]
                s.contains(p) && history::occurrences(s, p) >= 2 ==> r.contains(
                    history::pair_row(s)(p),
                )
        }),
{
    let s = history::all_pairs(text::split_char(log, '\0'));
    let r = history::cochanges_in(log);
    let often = |p: Pair| history::occurrences(s, p) >= history::MIN_PAIR_COUNT;
    let once = rows::distinct(s);
    let kept = rows::kept(once, often);
    let g = history::pair_row(s);
    let all = kept.map_values(g);
    let before = store_lists::cochange_order();
    let sorted = order::arranged(all, before);
    rows::lemma_distinct(s);
    rows::lemma_kept(once, often);
    lemma_cochange_order();
    order::law_arranged(all, before);
    order::lemma_same_items(all, before);
    assert(r == rows::limited(sorted, 20_000));
    assert forall|c: CoChangeModel| #[trigger] r.contains(c) implies s.contains(
        (c.file_a, c.file_b),
    ) && history::occurrences(s, (c.file_a, c.file_b)) >= 2 && (c.n == history::occurrences(
        s,
        (c.file_a, c.file_b),
    ) || (c.n == u32::MAX && history::occurrences(s, (c.file_a, c.file_b)) > u32::MAX)) by {
        let i = choose|i: int| 0 <= i < r.len() && r[i] == c;
        assert(sorted[i] == c);
        assert(sorted.contains(c));
        assert(all.contains(c));
        let k = choose|k: int| 0 <= k < all.len() && all[k] == c;
        assert(c == g(kept[k]));
        assert(kept.contains(kept[k]));
        assert(once.contains(kept[k]));
    }
    assert forall|i: int, j: int| 0 <= i < j < r.len() implies (#[trigger] r[i]).n >= (
    #[trigger] r[j]).n by {
        assert(r[i] == sorted[i] && r[j] == sorted[j]);
        assert(!before(sorted[j], sorted[i]));
    }
    if r.len() < 20_000 {
        assert forall|p: Pair| #[trigger]
            s.contains(p) && history::occurrences(s, p) >= 2 implies r.contains(g(p)) by {
            assert(once.contains(p));
            assert(often(p));
            assert(kept.contains(p));
            let k = choose|k: int| 0 <= k < kept.len() && kept[k] == p;
            assert(all[k] == g(p));
            assert(all.contains(g(p)));
            assert(sorted.contains(g(p)));
            assert(r =~= sorted);
        }
    }
}

/// The files that changed together with a file: each stands behind it in a pair
/// with how often, the most frequent first; all of them where the list is not
/// full.
pub proof fn law_partners_changed_with_the_file(s: StoreModel, file: Seq<char>, limit: nat)
    ensures
        ({
            let r = review::partners(s, file, limit);
            &&& r.len() <= limit
            &&& forall|p: CoChangeModel| #[trigger]
                r.contains(p) ==> p.file_a == file && review_laws::is_pair(s, p)
            &&& forall|i: int, j: int|
                0 <= i < j < r.len() ==> (#[trigger] r[i]).n >= (#[trigger] r[j]).n
            &&& r.len() < limit ==> forall|c: CoChangeModel| #[trigger]
                s.cochanges.contains(c) ==> (c.file_a == file ==> r.contains(
                    CoChangeModel { file_a: file, file_b: c.file_b, n: c.n },
                )) && (c.file_b == file && c.file_a != file ==> r.contains(
                    CoChangeModel { file_a: file, file_b: c.file_a, n: c.n },
                ))
        }),
{
    let r = review::partners(s, file, limit);
    let mine = rows::kept(s.cochanges, store_lists::pair_with(file));
    let g = store_lists::partner(file);
    let all = mine.map_values(g);
    let before = store_lists::cochange_order();
    let sorted = order::arranged(all, before);
    rows::lemma_kept(s.cochanges, store_lists::pair_with(file));
    lemma_cochange_order();
    order::law_arranged(all, before);
    order::lemma_same_items(all, before);
    assert(r == rows::limited(sorted, limit));
    assert forall|p: CoChangeModel| #[trigger] r.contains(p) implies p.file_a == file
        && review_laws::is_pair(s, p) by {
        let i = choose|i: int| 0 <= i < r.len() && r[i] == p;
        assert(sorted[i] == p);
        assert(sorted.contains(p));
        assert(all.contains(p));
        let k = choose|k: int| 0 <= k < all.len() && all[k] == p;
        assert(p == g(mine[k]));
        assert(mine.contains(mine[k]));
        assert(s.cochanges.contains(mine[k]));
    }
    assert forall|i: int, j: int| 0 <= i < j < r.len() implies (#[trigger] r[i]).n >= (
    #[trigger] r[j]).n by {
        assert(r[i] == sorted[i] && r[j] == sorted[j]);
        assert(!before(sorted[j], sorted[i]));
    }
    if r.len() < limit {
        assert forall|c: CoChangeModel| #[trigger] s.cochanges.contains(c) implies (c.file_a == file
            ==> r.contains(CoChangeModel { file_a: file, file_b: c.file_b, n: c.n })) && (c.file_b
            == file && c.file_a != file ==> r.contains(
            CoChangeModel { file_a: file, file_b: c.file_a, n: c.n },
        )) by {
            if c.file_a == file || c.file_b == file {
                assert(mine.contains(c));
                let k = choose|k: int| 0 <= k < mine.len() && mine[k] == c;
                assert(all[k] == g(c));
                assert(all.contains(g(c)));
                assert(sorted.contains(g(c)));
                assert(r =~= sorted);
            }
        }
    }
}

/// Whether something shows that a file uses a type.
pub open spec fn shows_use(
    s: StoreModel,
    name: Seq<char>,
    documents: Seq<Seq<char>>,
    file: Seq<char>,
    what: Seq<char>,
) -> bool {
    ||| what == "definition"@ && exists|n: NodeModel| #[trigger]
        s.nodes.contains(n) && n.file_path == file && n.name == name && review_laws::is_symbol(n)
    ||| what == "field/DI type"@ && exists|f: FieldRowModel| #[trigger]
        s.fields.contains(f) && f.file_path == file && f.declared_type == name
    ||| what == "typed local"@ && exists|l: LocalRowModel| #[trigger]
        s.locals.contains(l) && l.file_path == file && l.declared_type == name
    ||| what == "import"@ && exists|i: ImportRowModel| #[trigger]
        s.imports.contains(i) && i.file_path == file && i.name == name && (
        !answer_laws::is_web_file(file) || (i.module.len() > 0 && (i.module[0] == '.' || i.module[0]
            == '/')))
    ||| what == "subtype"@ && exists|i: InheritRowModel| #[trigger]
        s.inherits.contains(i) && i.file_path == file && i.super_name == name
    ||| what == "static member access"@ && exists|c: CallRowModel| #[trigger]
        s.calls.contains(c) && c.file_path == file && (c.call.receiver matches Some(r) && (r == name
            || like::like(r, name + ".%"@)))
    ||| what == "type reference"@ && exists|t: TypeRefModel| #[trigger]
        s.type_refs.contains(t) && t.file_path == file && t.name == name
    ||| what == "doc mention"@ && documents.contains(file)
}

proof fn lemma_evidence<M>(
    s: Seq<M>,
    test: spec_fn(M) -> bool,
    file_of: spec_fn(M) -> Seq<char>,
    what: Seq<char>,
    file: Seq<char>,
    w: Seq<char>,
)
    ensures
        usage::evidence(rows::distinct(rows::kept(s, test).map_values(file_of)), what).contains(
            (file, w),
        ) == (w == what && exists|x: M| #[trigger]
            s.contains(x) && test(x) && file_of(x) == file),
{
    let k = rows::kept(s, test);
    let files = k.map_values(file_of);
    let once = rows::distinct(files);
    let e = usage::evidence(once, what);
    rows::lemma_kept(s, test);
    rows::lemma_distinct(files);
    if e.contains((file, w)) {
        let i = choose|i: int| 0 <= i < e.len() && e[i] == (file, w);
        assert(once[i] == file);
        assert(once.contains(file));
        let j = choose|j: int| 0 <= j < files.len() && files[j] == file;
        assert(k.contains(k[j]));
        assert(s.contains(k[j]) && test(k[j]) && file_of(k[j]) == file);
    }
    if w == what && exists|x: M| #[trigger] s.contains(x) && test(x) && file_of(x) == file {
        let x = choose|x: M| #[trigger] s.contains(x) && test(x) && file_of(x) == file;
        assert(k.contains(x));
        let j = choose|j: int| 0 <= j < k.len() && k[j] == x;
        assert(files[j] == file);
        assert(files.contains(file));
        assert(once.contains(file));
        let i = choose|i: int| 0 <= i < once.len() && once[i] == file;
        assert(e[i] == (file, what));
    }
}

proof fn lemma_sum_contains<A>(a: Seq<A>, b: Seq<A>, x: A)
    ensures
        (a + b).contains(x) == (a.contains(x) || b.contains(x)),
{
    if a.contains(x) {
        let i = choose|i: int| 0 <= i < a.len() && a[i] == x;
        assert((a + b)[i] == x);
    }
    if b.contains(x) {
        let i = choose|i: int| 0 <= i < b.len() && b[i] == x;
        assert((a + b)[a.len() + i] == x);
    }
    if (a + b).contains(x) {
        let i = choose|i: int| 0 <= i < (a + b).len() && (a + b)[i] == x;
        if i < a.len() {
            assert(a[i] == x);
        } else {
            assert(b[i - a.len()] == x);
        }
    }
}

proof fn lemma_all_evidence(
    s: StoreModel,
    name: Seq<char>,
    documents: Seq<Seq<char>>,
    file: Seq<char>,
    w: Seq<char>,
)
    ensures
        usage::all_evidence(s, name, documents).contains((file, w)) == shows_use(
            s,
            name,
            documents,
            file,
            w,
        ),
{
    let x = (file, w);
    let tf = |f: FieldRowModel| f.declared_type == name;
    let ff = |f: FieldRowModel| f.file_path;
    let tl = |l: LocalRowModel| l.declared_type == name;
    let fl = |l: LocalRowModel| l.file_path;
    let fi = |i: ImportRowModel| i.file_path;
    let th = |i: InheritRowModel| i.super_name == name;
    let fh = |i: InheritRowModel| i.file_path;
    let tt = |t: TypeRefModel| t.name == name;
    let ft = |t: TypeRefModel| t.file_path;
    let e1 = usage::evidence(
        rows::distinct(rows::kept(s.nodes, usage::defines_type(name)).map_values(usage::node_file())),
        "definition"@,
    );
    let e2 = usage::evidence(
        rows::distinct(rows::kept(s.fields, tf).map_values(ff)),
        "field/DI type"@,
    );
    let e3 = usage::evidence(
        rows::distinct(rows::kept(s.locals, tl).map_values(fl)),
        "typed local"@,
    );
    let e4 = usage::evidence(
        rows::distinct(rows::kept(s.imports, usage::imports_inside(name)).map_values(fi)),
        "import"@,
    );
    let e5 = usage::evidence(
        rows::distinct(rows::kept(s.inherits, th).map_values(fh)),
        "subtype"@,
    );
    let e6 = usage::evidence(
        rows::distinct(
            rows::kept(s.calls, usage::goes_through(name)).map_values(store_lists::call_file()),
        ),
        "static member access"@,
    );
    let e7 = usage::evidence(
        rows::distinct(rows::kept(s.type_refs, tt).map_values(ft)),
        "type reference"@,
    );
    let e8 = usage::evidence(documents, "doc mention"@);
    lemma_evidence(s.nodes, usage::defines_type(name), usage::node_file(), "definition"@, file, w);
    lemma_evidence(s.fields, tf, ff, "field/DI type"@, file, w);
    lemma_evidence(s.locals, tl, fl, "typed local"@, file, w);
    lemma_evidence(s.imports, usage::imports_inside(name), fi, "import"@, file, w);
    lemma_evidence(s.inherits, th, fh, "subtype"@, file, w);
    lemma_evidence(
        s.calls,
        usage::goes_through(name),
        store_lists::call_file(),
        "static member access"@,
        file,
        w,
    );
    lemma_evidence(s.type_refs, tt, ft, "type reference"@, file, w);
    assert(e8.contains(x) == (w == "doc mention"@ && documents.contains(file))) by {
        if e8.contains(x) {
            let i = choose|i: int| 0 <= i < e8.len() && e8[i] == x;
            assert(documents[i] == file);
        }
        if w == "doc mention"@ && documents.contains(file) {
            let i = choose|i: int| 0 <= i < documents.len() && documents[i] == file;
            assert(e8[i] == x);
        }
    }
    let marks = seq!['.', '/'];
    assert(marks[0] == '.' && marks[1] == '/');
    assert forall|i: ImportRowModel| #[trigger] s.imports.contains(i) implies (
    usage::imports_inside(name)(i) == (i.name == name && (!answer_laws::is_web_file(i.file_path)
        || (i.module.len() > 0 && (i.module[0] == '.' || i.module[0] == '/'))))) by {
        answer_laws::lemma_script(i.file_path);
        if i.module.len() > 0 && marks.contains(i.module[0]) {
            let k = choose|k: int| 0 <= k < marks.len() && marks[k] == i.module[0];
            assert(k == 0 || k == 1);
        }
    }
    lemma_sum_contains(e1, e2, x);
    lemma_sum_contains(e1 + e2, e3, x);
    lemma_sum_contains(e1 + e2 + e3, e4, x);
    lemma_sum_contains(e1 + e2 + e3 + e4, e5, x);
    lemma_sum_contains(e1 + e2 + e3 + e4 + e5, e6, x);
    lemma_sum_contains(e1 + e2 + e3 + e4 + e5 + e6, e7, x);
    lemma_sum_contains(e1 + e2 + e3 + e4 + e5 + e6 + e7, e8, x);
    assert(usage::all_evidence(s, name, documents) == e1 + e2 + e3 + e4 + e5 + e6 + e7 + e8);
}

proof fn lemma_pair_order()
    ensures
        order::is_order(usage::pair_order()),
{
    let before = usage::pair_order();
    assert forall|a: (Seq<char>, Seq<char>), b: (Seq<char>, Seq<char>)| #[trigger]
        before(a, b) implies !before(b, a) by {
        order::lemma_text_asymmetric(a.0, b.0);
        order::lemma_text_asymmetric(a.1, b.1);
    }
    assert forall|
        a: (Seq<char>, Seq<char>),
        b: (Seq<char>, Seq<char>),
        c: (Seq<char>, Seq<char>),
    |
        #![trigger before(a, b), before(a, c)]
        #![trigger before(a, b), before(c, b)]
        before(a, b) implies before(a, c) || before(c, b) by {
        order::lemma_text_total(a.0, c.0);
        order::lemma_text_total(c.0, b.0);
        if a.0 != b.0 {
            order::lemma_text_between(a.0, b.0, c.0);
        } else if a.0 == c.0 {
            order::lemma_text_between(a.1, b.1, c.1);
        } else {
            order::lemma_text_asymmetric(a.0, c.0);
        }
    }
}

proof fn lemma_first_per_file(s: Seq<(Seq<char>, Seq<char>)>)
    requires
        order::is_arranged(s, usage::pair_order()),
    ensures
        ({
            let r = usage::first_per_file(s);
            &&& s.len() > 0 ==> r.len() > 0 && r.last().0 == s.last().0
            &&& forall|i: int, j: int|
                0 <= i < j < r.len() ==> text::text_less((#[trigger] r[i]).0, (#[trigger] r[j]).0)
            &&& forall|x: (Seq<char>, Seq<char>)| #[trigger]
                r.contains(x) ==> s.contains(x) && forall|y: (Seq<char>, Seq<char>)| #[trigger]
                    s.contains(y) && y.0 == x.0 ==> !text::text_less(y.1, x.1)
            &&& forall|y: (Seq<char>, Seq<char>)| #[trigger]
                s.contains(y) ==> exists|i: int| 0 <= i < r.len() && (#[trigger] r[i]).0 == y.0
        }),
    decreases s.len(),
{
    let r = usage::first_per_file(s);
    if s.len() > 0 {
        let d = s.drop_last();
        let last = s.last();
        let b = usage::first_per_file(d);
        let before = usage::pair_order();
        assert forall|i: int, j: int| 0 <= i < j < d.len() implies !before(
            #[trigger] d[j],
            #[trigger] d[i],
        ) by {
            assert(d[i] == s[i] && d[j] == s[j]);
        }
        lemma_first_per_file(d);
        assert(s[s.len() - 1] == last);
        assert(s.contains(last));
        assert forall|y: (Seq<char>, Seq<char>)| #[trigger] s.contains(y) implies y == last
            || d.contains(y) by {
            let i = choose|i: int| 0 <= i < s.len() && s[i] == y;
            if i < d.len() {
                assert(d[i] == y);
            }
        }
        assert forall|y: (Seq<char>, Seq<char>)| #[trigger] d.contains(y) implies s.contains(y)
            && !before(last, y) by {
            let i = choose|i: int| 0 <= i < d.len() && d[i] == y;
            assert(s[i] == y);
            assert(!before(s[s.len() - 1], s[i]));
        }
        if b.len() > 0 && b.last().0 == last.0 {
            assert(r == b);
            assert forall|x: (Seq<char>, Seq<char>)| #[trigger] r.contains(x) implies s.contains(x)
                && forall|y: (Seq<char>, Seq<char>)| #[trigger]
                s.contains(y) && y.0 == x.0 ==> !text::text_less(y.1, x.1) by {
                assert(d.contains(x));
                assert(!before(last, x));
            }
            assert(b[b.len() - 1].0 == last.0);
        } else {
            assert(r == b.push(last));
            assert forall|y: (Seq<char>, Seq<char>)| #[trigger] d.contains(y) implies text::text_less(
                y.0,
                last.0,
            ) by {
                assert(!before(last, y));
                order::lemma_text_total(y.0, last.0);
                assert(d.len() > 0);
                assert(d[d.len() - 1] == d.last());
                assert(d.contains(d.last()));
                assert(!before(last, d.last()));
                order::lemma_text_total(d.last().0, last.0);
                let i = choose|i: int| 0 <= i < d.len() && d[i] == y;
                if y.0 == last.0 {
                    if i < d.len() - 1 {
                        assert(!before(d[d.len() - 1], d[i]));
                        order::lemma_text_total(d.last().0, y.0);
                    }
                }
            }
            assert forall|i: int, j: int| 0 <= i < j < r.len() implies text::text_less(
                (#[trigger] r[i]).0,
                (#[trigger] r[j]).0,
            ) by {
                if j < b.len() {
                    assert(r[i] == b[i] && r[j] == b[j]);
                } else {
                    assert(r[i] == b[i]);
                    assert(b.contains(b[i]));
                    assert(d.contains(b[i]));
                }
            }
            assert forall|x: (Seq<char>, Seq<char>)| #[trigger] r.contains(x) implies s.contains(x)
                && forall|y: (Seq<char>, Seq<char>)| #[trigger]
                s.contains(y) && y.0 == x.0 ==> !text::text_less(y.1, x.1) by {
                let i = choose|i: int| 0 <= i < r.len() && r[i] == x;
                if i < b.len() {
                    assert(b[i] == x);
                    assert(b.contains(x));
                    order::lemma_text_asymmetric(x.0, last.0);
                } else {
                    assert(x == last);
                    assert forall|y: (Seq<char>, Seq<char>)| #[trigger]
                        s.contains(y) && y.0 == x.0 implies !text::text_less(y.1, x.1) by {
                        if d.contains(y) {
                            order::lemma_text_asymmetric(y.0, last.0);
                        } else {
                            order::lemma_text_asymmetric(y.1, last.1);
                        }
                    }
                }
            }
            assert forall|y: (Seq<char>, Seq<char>)| #[trigger] s.contains(y) implies exists|i: int|
                0 <= i < r.len() && (#[trigger] r[i]).0 == y.0 by {
                if d.contains(y) {
                    let i = choose|i: int| 0 <= i < b.len() && (#[trigger] b[i]).0 == y.0;
                    assert(r[i] == b[i]);
                } else {
                    assert(r[b.len() as int] == last);
                }
            }
        }
    }
}

/// The files that use a type are those for which something shows it, each once
/// and by name, with the first by name of what shows it.
pub proof fn law_uses_of_a_type_are_shown(
    s: StoreModel,
    name: Seq<char>,
    documents: Seq<Seq<char>>,
)
    ensures
        ({
            let r = usage::uses(s, name, documents);
            &&& forall|f: Seq<char>, w: Seq<char>| #[trigger]
                r.contains((f, w)) ==> shows_use(s, name, documents, f, w) && forall|v: Seq<char>|
                 #[trigger]
                    shows_use(s, name, documents, f, v) ==> !text::text_less(v, w)
            &&& forall|f: Seq<char>, w: Seq<char>| #[trigger]
                shows_use(s, name, documents, f, w) ==> exists|i: int|
                    0 <= i < r.len() && (#[trigger] r[i]).0 == f
            &&& forall|i: int, j: int|
                0 <= i < j < r.len() ==> text::text_less((#[trigger] r[i]).0, (#[trigger] r[j]).0)
        }),
{
    let all = usage::all_evidence(s, name, documents);
    let sorted = order::arranged(all, usage::pair_order());
    let r = usage::uses(s, name, documents);
    lemma_pair_order();
    order::law_arranged(all, usage::pair_order());
    order::lemma_same_items(all, usage::pair_order());
    lemma_first_per_file(sorted);
    assert forall|f: Seq<char>, w: Seq<char>| #[trigger] shows_use(s, name, documents, f, w)
        == sorted.contains((f, w)) by {
        lemma_all_evidence(s, name, documents, f, w);
    }
    assert forall|f: Seq<char>, w: Seq<char>| #[trigger] r.contains((f, w)) implies shows_use(
        s,
        name,
        documents,
        f,
        w,
    ) && forall|v: Seq<char>| #[trigger]
        shows_use(s, name, documents, f, v) ==> !text::text_less(v, w) by {
        assert(sorted.contains((f, w)));
        assert forall|v: Seq<char>| #[trigger] shows_use(s, name, documents, f, v) implies !text::text_less(
            v,
            w,
        ) by {
            assert(sorted.contains((f, v)));
        }
    }
}

} // verus!
