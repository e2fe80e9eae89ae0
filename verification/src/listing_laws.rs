//! What is counted and listed, and how a reply or a question is read.

use vstd::prelude::*;

use crate::explorer;
use crate::llm;
use crate::order;
use crate::query;
use crate::query::WordModel;
use crate::rows;
use crate::store_laws;
use crate::text;
use crate::text_laws;
use crate::types::NodeLabel;
use crate::viz;
use crate::viz::ScoredModel;

verus! {

/// What is there most often has the largest count, and is the last of those that
/// have it where the last is wanted, else the first.
pub proof fn law_largest_count(counts: Seq<(Seq<char>, nat)>, last: bool)
    ensures
        viz::most_often(counts, last) is None <==> counts.len() == 0,
        counts.len() > 0 ==> exists|k: int|
            0 <= k < counts.len() && viz::most_often(counts, last) == Some(#[trigger] counts[k]) && (
            forall|i: int|
                0 <= i < counts.len() && i != k ==> (if (i < k) == last {
                    (#[trigger] counts[i]).1 <= counts[k].1
                } else {
                    counts[i].1 < counts[k].1
                })),
    decreases counts.len(),
{
    if counts.len() > 0 {
        let d = counts.drop_last();
        let n = d.len() as int;
        law_largest_count(d, last);
        assert forall|i: int| 0 <= i < n implies #[trigger] d[i] == counts[i] by {}
        if n == 0 {
            assert(viz::most_often(counts, last) == Some(counts[0]));
        } else {
            let k = choose|k: int|
                0 <= k < d.len() && viz::most_often(d, last) == Some(#[trigger] d[k]) && (forall|
                    i: int,
                |
                    0 <= i < d.len() && i != k ==> (if (i < k) == last {
                        (#[trigger] d[i]).1 <= d[k].1
                    } else {
                        d[i].1 < d[k].1
                    }));
            let at = if counts[n].1 > counts[k].1 || (last && counts[n].1 == counts[k].1) {
                n
            } else {
                k
            };
            assert(counts.last() == counts[n]);
            assert(viz::most_often(counts, last) == Some(counts[at]));
            assert forall|i: int| 0 <= i < counts.len() && i != at implies (if (i < at) == last {
                (#[trigger] counts[i]).1 <= counts[at].1
            } else {
                counts[i].1 < counts[at].1
            }) by {
                if i < n {
                    assert(d[i] == counts[i]);
                    assert(d[k] == counts[k]);
                }
            }
        }
    }
}

/// A community has as many symbols as bear its number: one more for each that
/// comes.
pub proof fn law_members_are_counted(all: Seq<ScoredModel>, s: ScoredModel, c: u32)
    ensures
        viz::size_of(Seq::empty(), c) == 0,
        viz::size_of(all.push(s), c) == viz::size_of(all, c) + (if s.node.community == Some(c)
            && s.node.label != NodeLabel::File && s.node.label != NodeLabel::Document {
            1nat
        } else {
            0nat
        }),
{
    rows::lemma_kept_push(all, s, viz::in_community(c));
}

/// Whether a community has a symbol.
pub open spec fn has_member(all: Seq<ScoredModel>, c: u32) -> bool {
    exists|s: ScoredModel| #[trigger]
        all.contains(s) && s.node.community == Some(c) && s.node.label != NodeLabel::File
            && s.node.label != NodeLabel::Document
}

proof fn lemma_communities(all: Seq<ScoredModel>)
    ensures
        viz::communities_in(all).no_duplicates(),
        forall|c: u32| #[trigger] viz::communities_in(all).contains(c) <==> has_member(all, c),
    decreases all.len(),
{
    let r = viz::communities_in(all);
    if all.len() > 0 {
        let d = all.drop_last();
        let x = all.last();
        let b = viz::communities_in(d);
        lemma_communities(d);
        assert(all[all.len() - 1] == x);
        assert(all.contains(x));
        assert forall|c: u32| #[trigger] r.contains(c) <==> has_member(all, c) by {
            if r.contains(c) {
                let i = choose|i: int| 0 <= i < r.len() && r[i] == c;
                if i < b.len() {
                    assert(b[i] == c);
                    assert(b.contains(c));
                    let s = choose|s: ScoredModel| #[trigger]
                        d.contains(s) && s.node.community == Some(c) && s.node.label
                            != NodeLabel::File && s.node.label != NodeLabel::Document;
                    let j = choose|j: int| 0 <= j < d.len() && d[j] == s;
                    assert(all[j] == s);
                    assert(all.contains(s));
                } else {
                    assert(x.node.community == Some(c));
                }
            }
            if has_member(all, c) {
                let s = choose|s: ScoredModel| #[trigger]
                    all.contains(s) && s.node.community == Some(c) && s.node.label
                        != NodeLabel::File && s.node.label != NodeLabel::Document;
                let j = choose|j: int| 0 <= j < all.len() && all[j] == s;
                if j < d.len() {
                    assert(d[j] == s);
                    assert(d.contains(s));
                    assert(has_member(d, c));
                    assert(b.contains(c));
                } else {
                    assert(s == x);
                }
                if b.contains(c) {
                    let i = choose|i: int| 0 <= i < b.len() && b[i] == c;
                    assert(r[i] == c);
                } else {
                    assert(r[b.len() as int] == c);
                }
            }
        }
    }
}

/// The communities that are told apart are eight at most, each once: the largest
/// come first, of equal ones the one with the lower number, and none that is left
/// out is larger.
pub proof fn law_largest_communities(all: Seq<ScoredModel>)
    ensures
        ({
            let r = viz::top_communities(all);
            &&& r.len() <= 8
            &&& r.no_duplicates()
            &&& forall|c: u32| #[trigger] r.contains(c) ==> has_member(all, c)
            &&& forall|i: int, j: int|
                0 <= i < j < r.len() ==> viz::size_of(all, #[trigger] r[i]) > viz::size_of(
                    all,
                    #[trigger] r[j],
                ) || (viz::size_of(all, r[i]) == viz::size_of(all, r[j]) && r[i] < r[j])
            &&& forall|c: u32, i: int|
                has_member(all, c) && !r.contains(c) && 0 <= i < r.len() ==> r.len() == 8
                    && #[trigger] viz::size_of(all, c) <= viz::size_of(all, #[trigger] r[i])
            &&& (exists|c: u32| has_member(all, c)) ==> r.len() > 0
        }),
{
    let found = viz::communities_in(all);
    let before = viz::size_order(all);
    let sorted = order::arranged(found, before);
    let r = viz::top_communities(all);
    lemma_communities(all);
    assert(order::is_order(before));
    order::law_arranged(found, before);
    order::lemma_same_items(found, before);
    let at = order::lemma_arranged_stable(found, before);
    assert forall|i: int, j: int| 0 <= i < j < sorted.len() implies #[trigger] sorted[i]
        != #[trigger] sorted[j] by {
        assert(at[i] != at[j]);
        assert(found[at[i]] != found[at[j]]);
    }
    assert forall|i: int| 0 <= i < r.len() implies #[trigger] r[i] == sorted[i] by {}
    assert forall|c: u32| #[trigger] r.contains(c) implies has_member(all, c) by {
        let i = choose|i: int| 0 <= i < r.len() && r[i] == c;
        assert(sorted[i] == c);
        assert(sorted.contains(c));
        assert(found.contains(c));
    }
    assert forall|i: int, j: int| 0 <= i < j < r.len() implies viz::size_of(all, #[trigger] r[i])
        > viz::size_of(all, #[trigger] r[j]) || (viz::size_of(all, r[i]) == viz::size_of(all, r[j])
        && r[i] < r[j]) by {
        assert(!before(sorted[j], sorted[i]));
        assert(sorted[i] != sorted[j]);
    }
    assert forall|c: u32, i: int|
        has_member(all, c) && !r.contains(c) && 0 <= i < r.len() implies r.len() == 8
        && #[trigger] viz::size_of(all, c) <= viz::size_of(all, #[trigger] r[i]) by {
        assert(found.contains(c));
        assert(sorted.contains(c));
        let k = choose|k: int| 0 <= k < sorted.len() && sorted[k] == c;
        if k < r.len() {
            assert(r[k] == c);
        }
        assert(!before(sorted[k], sorted[i]));
    }
    if exists|c: u32| has_member(all, c) {
        let c = choose|c: u32| has_member(all, c);
        assert(found.contains(c));
        assert(sorted.contains(c));
    }
}

/// A symbol has the colour of its community's place among those told apart, and
/// the one behind them all where it is in none of them.
pub proof fn law_colour_is_that_of_the_community(top: Seq<u32>, c: u32, k: int)
    requires
        top.no_duplicates(),
    ensures
        0 <= k < top.len() ==> explorer::slot_of(top, Some(top[k])) == k,
        !top.contains(c) ==> explorer::slot_of(top, Some(c)) == 8,
        explorer::slot_of(top, None) == 8,
{
    if 0 <= k < top.len() {
        assert forall|j: int| 0 <= j < k implies !explorer::is_number(top[k])(
            #[trigger] top[j],
        ) by {}
        rows::lemma_first_is(top, explorer::is_number(top[k]), k);
    }
    rows::lemma_first_at(top, explorer::is_number(c));
}

proof fn lemma_first_piece(a: Seq<char>, b: Seq<char>, sep: char)
    requires
        !a.contains(sep),
        b.len() > 0 ==> b[0] == sep,
    ensures
        text::split_char(a + b, sep).len() > 0,
        text::split_char(a + b, sep)[0] == a,
        b.len() > 0 ==> text::split_char(a + b, sep).len() > 1,
    decreases a.len() + b.len(),
{
    let s = a + b;
    if b.len() > 0 {
        let e = b.drop_last();
        lemma_first_piece(a, e, sep);
        assert(s.drop_last() =~= a + e);
        assert(s.last() == b.last());
        text::lemma_split_char(a + e, sep);
    } else if a.len() > 0 {
        let d = a.drop_last();
        assert(b =~= Seq::empty());
        assert(s =~= a);
        assert(d + b =~= d);
        assert forall|i: int| 0 <= i < d.len() implies #[trigger] d[i] == a[i] by {}
        if d.contains(sep) {
            let i = choose|i: int| 0 <= i < d.len() && d[i] == sep;
            assert(a[i] == sep);
        }
        lemma_first_piece(d, b, sep);
        assert(a[a.len() - 1] != sep);
        lemma_one_piece(a, sep);
    } else {
        assert(s =~= Seq::empty());
        assert(a =~= Seq::empty());
    }
}

proof fn lemma_one_piece(a: Seq<char>, sep: char)
    requires
        !a.contains(sep),
    ensures
        text::split_char(a, sep) == seq![a],
    decreases a.len(),
{
    if a.len() > 0 {
        let d = a.drop_last();
        if d.contains(sep) {
            let i = choose|i: int| 0 <= i < d.len() && d[i] == sep;
            assert(a[i] == sep);
        }
        lemma_one_piece(d, sep);
        assert(a[a.len() - 1] != sep);
        assert(a =~= d.push(a.last()));
        assert(text::split_char(a, sep) =~= seq![a]);
    } else {
        assert(a =~= Seq::empty());
        assert(text::split_char(a, sep) =~= seq![a]);
    }
}

proof fn lemma_kept_head<M>(s: Seq<M>, test: spec_fn(M) -> bool)
    requires
        s.len() > 0,
        test(s[0]),
    ensures
        rows::kept(s, test).len() > 0,
        rows::kept(s, test)[0] == s[0],
    decreases s.len(),
{
    let d = s.drop_last();
    if d.len() > 0 {
        lemma_kept_head(d, test);
    } else {
        assert(rows::kept(d, test).len() <= 0) by {
            rows::lemma_kept(d, test);
        }
    }
}

proof fn lemma_distinct_head<M>(s: Seq<M>)
    requires
        s.len() > 0,
    ensures
        rows::distinct(s).len() > 0,
        rows::distinct(s)[0] == s[0],
    decreases s.len(),
{
    let d = s.drop_last();
    if d.len() > 0 {
        lemma_distinct_head(d);
    } else {
        assert(d =~= Seq::empty());
        assert(rows::distinct(d) =~= Seq::empty());
    }
}

/// The hit whose number a reply begins with comes first.
pub proof fn law_reply_names_the_best(n: nat, i: nat, rest: Seq<char>)
    requires
        i < n,
        rest.len() > 0 ==> !('0' <= rest[0] <= '9'),
    ensures
        llm::reordered(text::decimal(i) + rest, n).len() > 0,
        llm::reordered(text::decimal(i) + rest, n)[0] == i,
{
    let a = text::decimal(i);
    let reply = a + rest;
    let b = llm::digits_only(rest);
    store_laws::lemma_decimal(i);
    assert(llm::digits_only(reply) =~= a + b);
    assert(!a.contains(' ')) by {
        if a.contains(' ') {
            let k = choose|k: int| 0 <= k < a.len() && a[k] == ' ';
            assert(text::is_digit(a[k]));
        }
    }
    lemma_first_piece(a, b, ' ');
    let pieces = text::split_char(a + b, ' ');
    let found = rows::kept(pieces, llm::is_place(n));
    assert(text::is_digit(a[0]));
    assert(text::parse_nat(a) == Some(i));
    assert(llm::is_place(n)(pieces[0]));
    lemma_kept_head(pieces, llm::is_place(n));
    let values = found.map_values(|t: Seq<char>| text::parse_nat(t)->0);
    assert(values[0] == i);
    lemma_distinct_head(values);
}

/// The lines of a text that has no carriage return give the text back, but for
/// the line feed at its end.
pub proof fn law_lines_join_to_the_text(s: Seq<char>)
    requires
        !s.contains('\r'),
    ensures
        s == text::join(text::lines(s), seq!['\n']) || s == text::join(
            text::lines(s),
            seq!['\n'],
        ).push('\n'),
        forall|i: int|
            0 <= i < text::lines(s).len() ==> !(#[trigger] text::lines(s)[i]).contains('\n'),
        text::lines(s).len() > 0 && s == text::join(text::lines(s), seq!['\n'])
            ==> text::lines(s).last().len() > 0,
        text::lines(s).len() == 0 <==> s.len() == 0,
{
    let p = text::split_char(s, '\n');
    let l = text::lines(s);
    let sep = seq!['\n'];
    text_laws::law_pieces_join_to_the_text(s, '\n');
    lemma_no_return(s);
    assert forall|i: int| 0 <= i < l.len() implies #[trigger] l[i] == p[i] by {
        if p[i].len() > 0 && p[i].last() == '\r' {
            assert(p[i].contains(p[i].last()));
        }
    }
    if p.last().len() == 0 {
        assert(l =~= p.drop_last());
        assert(p.last() =~= Seq::empty());
        if p.len() > 1 {
            assert(text::join(p, sep) == text::join(l, sep) + sep + p.last());
            assert(s =~= text::join(l, sep).push('\n'));
        } else {
            assert(s =~= Seq::empty());
            assert(text::join(l, sep) =~= Seq::empty());
        }
    } else {
        assert(l =~= p);
        assert(l.last() == p.last());
    }
    if s == text::join(l, sep) && p.last().len() == 0 && l.len() > 0 {
        assert(s.len() == text::join(l, sep).len() + 1);
    }
}

proof fn lemma_no_return(s: Seq<char>)
    requires
        !s.contains('\r'),
    ensures
        forall|i: int|
            0 <= i < text::split_char(s, '\n').len() ==> !(#[trigger] text::split_char(
                s,
                '\n',
            )[i]).contains('\r'),
    decreases s.len(),
{
    let p = text::split_char(s, '\n');
    if s.len() > 0 {
        let d = s.drop_last();
        let r = text::split_char(d, '\n');
        if d.contains('\r') {
            let i = choose|i: int| 0 <= i < d.len() && d[i] == '\r';
            assert(s[i] == '\r');
        }
        assert(s[s.len() - 1] != '\r');
        lemma_no_return(d);
        text::lemma_split_char(d, '\n');
        assert forall|i: int| 0 <= i < p.len() implies !(#[trigger] p[i]).contains('\r') by {
            if i < r.len() - 1 {
                assert(p[i] == r[i]);
            } else {
                assert(!r[r.len() - 1].contains('\r'));
                if p[i].contains('\r') {
                    let k = choose|k: int| 0 <= k < p[i].len() && p[i][k] == '\r';
                    assert(r.last()[k] == '\r');
                }
            }
        }
    }
}

/// Of the words of a question each stays once, whatever the case of its letters,
/// and none is lost.
pub proof fn law_words_are_asked_for_once(s: Seq<WordModel>)
    ensures
        ({
            let r = query::first_words(s);
            &&& forall|w: WordModel| #[trigger] r.contains(w) ==> s.contains(w)
            &&& forall|i: int, j: int|
                0 <= i < j < r.len() ==> (#[trigger] r[i]).1 != (#[trigger] r[j]).1
            &&& forall|k: int|
                0 <= k < s.len() ==> exists|i: int|
                    0 <= i < r.len() && (#[trigger] r[i]).1 == (#[trigger] s[k]).1
        }),
    decreases s.len(),
{
    let r = query::first_words(s);
    if s.len() > 0 {
        let d = s.drop_last();
        let b = query::first_words(d);
        let x = s.last();
        let smalls = b.map_values(|k: WordModel| k.1);
        law_words_are_asked_for_once(d);
        assert(s[s.len() - 1] == x);
        assert forall|w: WordModel| #[trigger] r.contains(w) implies s.contains(w) by {
            let i = choose|i: int| 0 <= i < r.len() && r[i] == w;
            if i < b.len() {
                assert(b[i] == w);
                assert(b.contains(w));
                let k = choose|k: int| 0 <= k < d.len() && d[k] == w;
                assert(s[k] == w);
            }
        }
        assert forall|i: int, j: int| 0 <= i < j < r.len() implies (#[trigger] r[i]).1 != (
        #[trigger] r[j]).1 by {
            assert(b[i] == r[i]);
            if j < b.len() {
                assert(b[j] == r[j]);
            } else {
                assert(smalls[i] == b[i].1);
                assert(smalls.contains(b[i].1));
            }
        }
        assert forall|k: int| 0 <= k < s.len() implies exists|i: int|
            0 <= i < r.len() && (#[trigger] r[i]).1 == (#[trigger] s[k]).1 by {
            if k < d.len() {
                assert(d[k] == s[k]);
                let i = choose|i: int| 0 <= i < b.len() && (#[trigger] b[i]).1 == d[k].1;
                assert(r[i] == b[i]);
            } else if smalls.contains(x.1) {
                let i = choose|i: int| 0 <= i < smalls.len() && smalls[i] == x.1;
                assert(r[i] == b[i]);
                assert(r[i].1 == s[k].1);
            } else {
                assert(r[b.len() as int] == x);
            }
        }
    }
}

/// A question of one word asks for all that begins with it; one more word, up to
/// the eighth, is asked for beside the others.
pub proof fn law_any_word_may_be_found(s: Seq<WordModel>, w: WordModel)
    requires
        forall|i: int| 0 <= i < s.len() ==> (#[trigger] s[i]).1 != w.1,
    ensures
        query::query_of(seq![w]) == w.0 + "*"@,
        0 < query::first_words(s).len() < 8 ==> query::query_of(s.push(w)) == query::query_of(s)
            + " OR "@ + w.0 + "*"@,
        query::first_words(s).len() >= 8 ==> query::query_of(s.push(w)) == query::query_of(s),
{
    let g = |w: WordModel| w.0 + "*"@;
    let r = query::first_words(s);
    let t = s.push(w);
    law_words_are_asked_for_once(s);
    assert(t.drop_last() =~= s);
    let smalls = r.map_values(|k: WordModel| k.1);
    if smalls.contains(w.1) {
        let i = choose|i: int| 0 <= i < smalls.len() && smalls[i] == w.1;
        assert(r.contains(r[i]));
        let k = choose|k: int| 0 <= k < s.len() && s[k] == r[i];
        assert(s[k].1 == w.1);
    }
    assert(query::first_words(t) == r.push(w));
    if r.len() < 8 {
        assert(rows::limited(r.push(w), 8) =~= r.push(w));
        assert(rows::limited(r, 8) =~= r);
        assert(r.push(w).map_values(g) =~= r.map_values(g).push(g(w)));
        if r.len() > 0 {
            let p = r.map_values(g).push(g(w));
            assert(p.drop_last() =~= r.map_values(g));
            assert(text::join(p, " OR "@) =~= text::join(r.map_values(g), " OR "@) + " OR "@ + w.0
                + "*"@);
        }
    } else {
        assert(rows::limited(r.push(w), 8) =~= rows::limited(r, 8));
    }
    let one = seq![w];
    let none = Seq::<WordModel>::empty();
    assert(one.drop_last() =~= none);
    assert(query::first_words(none) == none);
    assert(query::first_words(one) =~= one);
    assert(rows::limited(one, 8) =~= one);
    assert(one.map_values(g) =~= seq![g(w)]);
}

} // verus!
