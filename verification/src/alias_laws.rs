//! How an import is followed to a file of the repository, and how the
//! occurrences of a compiler become edges.

use vstd::prelude::*;

use crate::indexstore;
use crate::indexstore::OccModel;
use crate::search_laws;
use crate::store_lists;
use crate::text;
use crate::tsconfig;
use crate::tsconfig::{Rule, ScopeModel};
use crate::types::{EdgeModel, EdgeRelation, NodeLabel, NodeModel, ResolutionTier};

verus! {

proof fn lemma_first_star(a: Seq<char>, b: Seq<char>)
    requires
        !a.contains('*'),
    ensures
        text::find(a + seq!['*'] + b, "*"@) == Some(a.len() as int),
{
    reveal_strlit("*");
    let s = a + seq!['*'] + b;
    text::lemma_find_from(s, "*"@, 0);
    assert(s.subrange(a.len() as int, a.len() as int + 1) =~= "*"@);
    assert(text::occurs_at(s, "*"@, a.len() as int));
    match text::find(s, "*"@) {
        Some(p) => {
            if p < a.len() {
                assert(s.subrange(p, p + 1)[0] == '*');
                assert(a[p] == '*');
            }
        },
        None => {},
    }
}

proof fn lemma_no_star(s: Seq<char>)
    requires
        !s.contains('*'),
    ensures
        text::find(s, "*"@) is None,
{
    reveal_strlit("*");
    text::lemma_find_from(s, "*"@, 0);
    if let Some(p) = text::find(s, "*"@) {
        assert(s.subrange(p, p + 1)[0] == '*');
        assert(s[p] == '*');
    }
}

/// The star of a pattern stands for what is between the text before it and the
/// text behind it, and for nothing else. A pattern without one matches itself
/// alone.
pub proof fn law_star_stands_for_the_middle(
    before: Seq<char>,
    behind: Seq<char>,
    m: Seq<char>,
    spec: Seq<char>,
)
    requires
        !before.contains('*'),
    ensures
        tsconfig::star_match(before + seq!['*'] + behind, before + m + behind) == Some(m),
        tsconfig::star_match(before + seq!['*'] + behind, spec) == Some(m) ==> spec == before + m
            + behind,
        tsconfig::star_match(before, before) == Some(Seq::<char>::empty()),
        spec != before ==> tsconfig::star_match(before, spec) is None,
{
    let p = before + seq!['*'] + behind;
    let t = before + m + behind;
    lemma_first_star(before, behind);
    lemma_no_star(before);
    let k = before.len() as int;
    assert(p.take(k) =~= before);
    assert(p.skip(k + 1) =~= behind);
    assert(t.take(k) =~= before);
    assert(t.skip(t.len() - behind.len()) =~= behind);
    assert(t.subrange(k, t.len() - behind.len()) =~= m);
    if tsconfig::star_match(p, spec) == Some(m) {
        assert(spec =~= spec.take(k) + spec.subrange(k, spec.len() - behind.len()) + spec.skip(
            spec.len() - behind.len(),
        ));
    }
}

/// A target takes what the star stood for in the place of its own first star.
pub proof fn law_target_takes_the_middle(a: Seq<char>, b: Seq<char>, m: Seq<char>)
    requires
        !a.contains('*'),
    ensures
        tsconfig::with_star(a + seq!['*'] + b, m) == a + m + b,
        tsconfig::with_star(a, m) == a,
{
    let t = a + seq!['*'] + b;
    lemma_first_star(a, b);
    lemma_no_star(a);
    assert(t.take(a.len() as int) =~= a);
    assert(t.skip(a.len() as int + 1) =~= b);
}

/// An import goes by the first rule whose pattern it matches, and by that rule's
/// first target.
pub proof fn law_first_rule_that_matches(
    rules: Seq<Rule>,
    base: Seq<char>,
    spec: Seq<char>,
    k: int,
)
    requires
        0 <= k < rules.len(),
        forall|j: int| 0 <= j < k ==> tsconfig::star_match((#[trigger] rules[j]).0, spec) is None,
        rules[k].1.len() > 0,
    ensures
        match tsconfig::star_match(rules[k].0, spec) {
            Some(m) => rules[k].0.contains('*') ==> tsconfig::rule_module(rules, base, spec) == Some(
                "/"@ + tsconfig::joined_path(base, tsconfig::with_star(rules[k].1[0], m)),
            ),
            None => true,
        },
        !rules[k].0.contains('*') && spec == rules[k].0 ==> tsconfig::rule_module(rules, base, spec)
            == Some("/"@ + tsconfig::joined_path(base, rules[k].1[0])),
        (forall|j: int|
            0 <= j < rules.len() ==> tsconfig::star_match((#[trigger] rules[j]).0, spec) is None)
            ==> tsconfig::rule_module(rules, base, spec) is None,
    decreases rules.len(),
{
    let d = rules.drop_first();
    if k == 0 {
        if rules[0].0.contains('*') {
            reveal_strlit("*");
            let i = choose|i: int| 0 <= i < rules[0].0.len() && rules[0].0[i] == '*';
            text::lemma_find_from(rules[0].0, "*"@, 0);
            assert(rules[0].0.subrange(i, i + 1) =~= "*"@);
            assert(text::occurs_at(rules[0].0, "*"@, i));
        } else {
            lemma_no_star(rules[0].0);
        }
        if forall|j: int|
            0 <= j < rules.len() ==> tsconfig::star_match((#[trigger] rules[j]).0, spec) is None {
            lemma_no_rule(rules, base, spec);
        }
    } else {
        assert(tsconfig::star_match(rules[0].0, spec) is None);
        assert forall|j: int| 0 <= j < k - 1 implies tsconfig::star_match(
            (#[trigger] d[j]).0,
            spec,
        ) is None by {
            assert(d[j] == rules[j + 1]);
        }
        assert(d[k - 1] == rules[k]);
        law_first_rule_that_matches(d, base, spec, k - 1);
        if forall|j: int|
            0 <= j < rules.len() ==> tsconfig::star_match((#[trigger] rules[j]).0, spec) is None {
            lemma_no_rule(rules, base, spec);
        }
    }
}

proof fn lemma_no_rule(rules: Seq<Rule>, base: Seq<char>, spec: Seq<char>)
    requires
        forall|j: int|
            0 <= j < rules.len() ==> tsconfig::star_match((#[trigger] rules[j]).0, spec) is None,
    ensures
        tsconfig::rule_module(rules, base, spec) is None,
    decreases rules.len(),
{
    if rules.len() > 0 {
        let d = rules.drop_first();
        assert(tsconfig::star_match(rules[0].0, spec) is None);
        assert forall|j: int| 0 <= j < d.len() implies tsconfig::star_match(
            (#[trigger] d[j]).0,
            spec,
        ) is None by {
            assert(d[j] == rules[j + 1]);
        }
        lemma_no_rule(d, base, spec);
    }
}

/// A segment of a path leads one directory down, `..` leads back to where the
/// one before it began, and `.` and an empty one lead nowhere.
pub proof fn law_segments_lead_down_and_up(segs: Seq<Seq<char>>, x: Seq<char>)
    requires
        x.len() > 0,
        x != "."@,
        x != ".."@,
    ensures
        tsconfig::resolved_segments(segs.push(x)) == tsconfig::resolved_segments(segs).push(x),
        tsconfig::resolved_segments(segs.push(x).push(".."@)) == tsconfig::resolved_segments(segs),
        tsconfig::resolved_segments(segs.push("."@)) == tsconfig::resolved_segments(segs),
        tsconfig::resolved_segments(segs.push(Seq::empty())) == tsconfig::resolved_segments(segs),
        tsconfig::resolved_segments(seq![".."@]) == Seq::<Seq<char>>::empty(),
{
    reveal_strlit(".");
    reveal_strlit("..");
    assert("."@ != ".."@) by {
        assert("."@.len() != ".."@.len());
    }
    assert(segs.push(x).drop_last() =~= segs);
    assert(segs.push("."@).drop_last() =~= segs);
    assert(segs.push(Seq::empty()).drop_last() =~= segs);
    assert(segs.push(x).push(".."@).drop_last() =~= segs.push(x));
    let r = tsconfig::resolved_segments(segs);
    assert(tsconfig::resolved_segments(segs.push(x)) == r.push(x));
    assert(r.push(x).drop_last() =~= r);
    let up = segs.push(x).push(".."@);
    assert(up.last() == ".."@ && ".."@.len() == 2);
    assert(tsconfig::resolved_segments(up) == r.push(x).drop_last());
    let top = seq![".."@];
    assert(top.last() == ".."@);
    assert(top.drop_last() =~= Seq::<Seq<char>>::empty());
    assert(tsconfig::resolved_segments(Seq::<Seq<char>>::empty()).len() == 0);
    assert(tsconfig::resolved_segments(top) =~= Seq::<Seq<char>>::empty());
}

/// A configuration covers the files below its directory, and all files where it
/// stands at the top.
pub proof fn law_configuration_covers_what_is_below(s: ScopeModel, rest: Seq<char>, file: Seq<char>)
    ensures
        tsconfig::scope_covers(s.dir + "/"@ + rest)(s),
        s.dir.len() == 0 ==> tsconfig::scope_covers(file)(s),
        tsconfig::scope_covers(file)(s) && s.dir.len() > 0 ==> file == s.dir + "/"@ + file.skip(
            s.dir.len() as int + 1,
        ),
{
    reveal_strlit("/");
    let p = s.dir + "/"@ + rest;
    assert(p.take(s.dir.len() as int) =~= s.dir);
    if tsconfig::scope_covers(file)(s) && s.dir.len() > 0 {
        assert(file =~= file.take(s.dir.len() as int) + "/"@ + file.skip(s.dir.len() as int + 1));
    }
}

/// The directory of a path is what stands before its last slash.
pub proof fn law_directory_of_a_path(dir: Seq<char>, name: Seq<char>)
    requires
        !name.contains('/'),
    ensures
        tsconfig::dir_of(dir + seq!['/'] + name) == dir,
        tsconfig::dir_of(name) == Seq::<char>::empty(),
{
    let p = dir + seq!['/'] + name;
    assert(p[dir.len() as int] == '/');
    assert(p.contains('/'));
    search_laws::law_last_place_divides(dir, '/', name);
}

/// A path below a root is seen from it without the root; with backslashes read
/// as slashes.
pub proof fn law_path_is_seen_from_the_root(root: Seq<char>, rest: Seq<char>)
    requires
        !rest.contains('\\'),
    ensures
        tsconfig::relative(root, root + seq!['/'] + rest) == rest,
        tsconfig::relative(root, root) == Seq::<char>::empty(),
{
    let p = root + seq!['/'] + rest;
    assert(p.take(root.len() as int) =~= root);
    assert(p.len() > root.len());
    assert(p.skip(root.len() as int + 1) =~= rest);
    assert forall|i: int| 0 <= i < rest.len() implies #[trigger] tsconfig::slashed(rest)[i]
        == rest[i] by {
        assert(rest.contains(rest[i]));
    }
    assert(tsconfig::slashed(rest) =~= rest);
    assert(tsconfig::slashed(Seq::empty()) =~= Seq::<char>::empty());
}

/// A symbol is defined by a node around the line of one of its definitions.
pub proof fn law_symbol_is_defined_by_a_node(
    occs: Seq<OccModel>,
    nodes: Seq<NodeModel>,
    usr: Seq<char>,
)
    ensures
        match indexstore::defined_at(occs, nodes, usr) {
            Some(k) => 0 <= k < nodes.len() && exists|o: OccModel| #[trigger]
                occs.contains(o) && o.usr == usr && o.roles & 0x2 != 0 && nodes[k].file_path
                    == o.file && nodes[k].line_start <= o.line <= nodes[k].line_end,
            None => forall|o: OccModel, i: int|
                #![trigger occs.contains(o), nodes[i]]
                occs.contains(o) && o.usr == usr && o.roles & 0x2 != 0 && 0 <= i < nodes.len()
                    && nodes[i].file_path == o.file && nodes[i].label == NodeLabel::Function
                    ==> !(nodes[i].line_start <= o.line <= nodes[i].line_end),
        },
    decreases occs.len(),
{
    if occs.len() > 0 {
        let d = occs.drop_last();
        let x = occs.last();
        law_symbol_is_defined_by_a_node(d, nodes, usr);
        indexstore::law_enclosing_is_smallest(nodes, x.file, x.line);
        assert(occs[occs.len() - 1] == x);
        assert(occs.contains(x));
        assert forall|o: OccModel| #[trigger] d.contains(o) implies occs.contains(o) by {
            let i = choose|i: int| 0 <= i < d.len() && d[i] == o;
            assert(occs[i] == o);
        }
        assert forall|o: OccModel| #[trigger] occs.contains(o) implies o == x || d.contains(o) by {
            let i = choose|i: int| 0 <= i < occs.len() && occs[i] == o;
            if i < d.len() {
                assert(d[i] == o);
            }
        }
    }
}

/// Whether an edge is that of a call.
pub open spec fn is_edge_of(
    e: EdgeModel,
    o: OccModel,
    occs: Seq<OccModel>,
    nodes: Seq<NodeModel>,
) -> bool {
    &&& o.roles & 0x20 != 0
    &&& o.caller_usr is Some
    &&& match (
        indexstore::defined_at(occs, nodes, o.caller_usr->0),
        indexstore::defined_at(occs, nodes, o.usr),
    ) {
        (Some(a), Some(b)) => e.src == nodes[a].id && e.dst == nodes[b].id,
        _ => false,
    }
}

/// Whether an edge is that of one of the first calls.
pub open spec fn is_of_a_call(
    e: EdgeModel,
    occs: Seq<OccModel>,
    nodes: Seq<NodeModel>,
    k: nat,
) -> bool {
    exists|i: int|
        0 <= i < k && is_edge_of(e, #[trigger] occs[i], occs, nodes) && e.src_file == occs[i].file
            && e.src_line == occs[i].line
}

/// The edges lead from the node that defines the caller to the one that defines
/// what is called, for each call whose two nodes differ.
pub proof fn law_compiled_calls_become_edges(occs: Seq<OccModel>, nodes: Seq<NodeModel>, k: nat)
    requires
        k <= occs.len(),
    ensures
        ({
            let r = indexstore::store_edges(occs, nodes, k);
            &&& forall|j: int|
                0 <= j < r.len() ==> (#[trigger] r[j]).relation == EdgeRelation::Calls && r[j].tier
                    == ResolutionTier::Scip && is_of_a_call(r[j], occs, nodes, k)
            &&& forall|i: int, e: EdgeModel|
                0 <= i < k && #[trigger] is_edge_of(e, occs[i], occs, nodes) && e.src != e.dst
                    ==> exists|j: int|
                    0 <= j < r.len() && (#[trigger] r[j]).src == e.src && r[j].dst == e.dst
        }),
    decreases k,
{
    let r = indexstore::store_edges(occs, nodes, k);
    if k > 0 {
        let p = (k - 1) as nat;
        let b = indexstore::store_edges(occs, nodes, p);
        let o = occs[k - 1];
        law_compiled_calls_become_edges(occs, nodes, p);
        assert forall|j: int| 0 <= j < b.len() implies r[j] == #[trigger] b[j] by {}
        assert forall|j: int| 0 <= j < r.len() implies (#[trigger] r[j]).relation
            == EdgeRelation::Calls && r[j].tier == ResolutionTier::Scip && is_of_a_call(
            r[j],
            occs,
            nodes,
            k,
        ) by {
            if j < b.len() {
                assert(r[j] == b[j]);
                assert(is_of_a_call(b[j], occs, nodes, p));
            } else {
                assert(is_edge_of(r[j], occs[k - 1], occs, nodes));
            }
        }
        assert forall|i: int, e: EdgeModel|
            0 <= i < k && #[trigger] is_edge_of(e, occs[i], occs, nodes) && e.src
                != e.dst implies exists|j: int|
            0 <= j < r.len() && (#[trigger] r[j]).src == e.src && r[j].dst == e.dst by {
            if i < p {
                let j = choose|j: int|
                    0 <= j < b.len() && (#[trigger] b[j]).src == e.src && b[j].dst == e.dst;
                assert(r[j] == b[j]);
            } else if indexstore::has_pair(b, e.src, e.dst) {
                let j = choose|j: int|
                    0 <= j < b.len() && (#[trigger] b[j]).src == e.src && b[j].dst == e.dst;
                assert(r[j] == b[j]);
            } else {
                let j = b.len() as int;
                assert(r[j].src == e.src && r[j].dst == e.dst);
            }
        }
    }
}

/// Of an occurrence what it defines and what it calls are kept, each by itself
/// and where it stands; one without an identity is not.
pub proof fn law_occurrence_is_kept(o: OccModel, x: OccModel)
    ensures
        indexstore::occurrences_of(o).contains(x) ==> x.usr == o.usr && x.file == o.file && x.line
            == o.line && o.usr.len() > 0 && ((x.roles == 0x2 && o.roles & 0x2 != 0) || (x.roles
            == 0x20 && o.roles & 0x20 != 0 && x.caller_usr == o.caller_usr)),
        o.usr.len() > 0 && o.roles & 0x2 != 0 ==> indexstore::occurrences_of(o).len() > 0
            && indexstore::occurrences_of(o)[0].roles == 0x2,
        o.usr.len() > 0 && o.roles & 0x20 != 0 ==> indexstore::occurrences_of(o).len() > 0
            && indexstore::occurrences_of(o).last().roles == 0x20,
{
}

proof fn lemma_shared(a: Seq<Seq<char>>, b: Seq<Seq<char>>)
    ensures
        store_lists::shared_prefix(a, b) <= a.len(),
        store_lists::shared_prefix(a, b) <= b.len(),
        forall|i: int| 0 <= i < store_lists::shared_prefix(a, b) ==> #[trigger] a[i] == b[i],
        store_lists::shared_prefix(a, b) < a.len() && store_lists::shared_prefix(a, b) < b.len()
            ==> a[store_lists::shared_prefix(a, b) as int] != b[store_lists::shared_prefix(
            a,
            b,
        ) as int],
    decreases a.len(),
{
    if a.len() > 0 && b.len() > 0 && a[0] == b[0] {
        let (c, d) = (a.drop_first(), b.drop_first());
        lemma_shared(c, d);
        let n = store_lists::shared_prefix(c, d);
        assert forall|i: int| 0 <= i < n + 1 implies #[trigger] a[i] == b[i] by {
            if i > 0 {
                assert(c[i - 1] == d[i - 1]);
            }
        }
        if n < c.len() && n < d.len() {
            assert(a[n as int + 1] == c[n as int] && b[n as int + 1] == d[n as int]);
        }
    }
}

/// Two files are as near as the number of directories that they share from the
/// top; of several files the nearest counts.
pub proof fn law_files_are_near_by_their_directories(
    a: Seq<char>,
    b: Seq<char>,
    others: Seq<Seq<char>>,
)
    ensures
        ({
            let (x, y) = (text::split_char(a, '/'), text::split_char(b, '/'));
            let n = store_lists::nearness(a, b);
            &&& n <= x.len() && n <= y.len()
            &&& forall|i: int| 0 <= i < n ==> #[trigger] x[i] == y[i]
            &&& n < x.len() && n < y.len() ==> x[n as int] != y[n as int]
        }),
        forall|i: int|
            0 <= i < others.len() ==> store_lists::nearness(a, #[trigger] others[i])
                <= store_lists::best_nearness(a, others),
        store_lists::best_nearness(a, others) > 0 ==> exists|i: int|
            0 <= i < others.len() && store_lists::nearness(a, #[trigger] others[i])
                == store_lists::best_nearness(a, others),
    decreases others.len(),
{
    lemma_shared(text::split_char(a, '/'), text::split_char(b, '/'));
    if others.len() > 0 {
        let d = others.drop_last();
        law_files_are_near_by_their_directories(a, b, d);
        assert forall|i: int| 0 <= i < d.len() implies #[trigger] d[i] == others[i] by {}
        assert forall|i: int| 0 <= i < others.len() implies store_lists::nearness(
            a,
            #[trigger] others[i],
        ) <= store_lists::best_nearness(a, others) by {
            if i < d.len() {
                assert(d[i] == others[i]);
            }
        }
        if store_lists::best_nearness(a, others) > 0 {
            let l = others.len() - 1;
            if store_lists::nearness(a, others[l]) != store_lists::best_nearness(a, others) {
                let i = choose|i: int|
                    0 <= i < d.len() && store_lists::nearness(a, #[trigger] d[i])
                        == store_lists::best_nearness(a, d);
                assert(others[i] == d[i]);
            }
        }
    }
}

} // verus!
