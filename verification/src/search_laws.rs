//! What an answer to a search is: which hits it has, and in which order.

use vstd::prelude::*;
use vstd::string::*;

use crate::order;
use crate::rows;
use crate::search;
use crate::text;
use crate::types;
use crate::types::{Node, NodeLabel, NodeModel};
use crate::words;
use crate::words::Letter;

verus! {

/// What is asked for, as it is compared.
pub open spec fn asked_for(raw: Seq<char>) -> Seq<char> {
    words::lowercase(text::trim(raw))
}

/// Whether a symbol has the very name that is asked for.
pub open spec fn has_the_name(n: NodeModel, raw: Seq<char>) -> bool {
    words::lowercase(n.name) == asked_for(raw)
}

/// Whether a path ends in a file with the name, or with the name and one more
/// extension, both in lowercase.
pub open spec fn is_file_called(path: Seq<char>, name: Seq<char>) -> bool {
    exists|dir: Seq<char>, file: Seq<char>| #[trigger]
        is_file_in(path, dir, file) && (words::lowercase(file) == name || exists|ext: Seq<char>|
            !#[trigger] ext.contains('.') && words::lowercase(file) == name + seq!['.'] + ext)
}

/// Whether a path is that of a file in a directory.
pub open spec fn is_file_in(path: Seq<char>, dir: Seq<char>, file: Seq<char>) -> bool {
    !file.contains('/') && (path == file || path == dir + seq!['/'] + file)
}

/// Whether a symbol is in a file with the name that is asked for.
pub open spec fn has_the_file(n: NodeModel, raw: Seq<char>) -> bool {
    is_file_called(n.file_path, asked_for(raw))
}

/// Whether the text of a document holds what is asked for.
pub open spec fn has_the_text(n: NodeModel, raw: Seq<char>) -> bool {
    types::meta_text(n.metadata, "text"@) matches Some(t) && exists|i: int| #[trigger]
        text::occurs_at(words::lowercase(t), asked_for(raw), i)
}

proof fn lemma_after_last(s: Seq<char>, c: char) -> (k: int)
    ensures
        0 <= k <= s.len(),
        search::after_last(s, c) == s.skip(k),
        !search::after_last(s, c).contains(c),
        k > 0 <==> s.contains(c),
        k > 0 ==> s[k - 1] == c && search::before_last(s, c) == s.take(k - 1),
        k == 0 ==> search::before_last(s, c) == s,
    decreases s.len(),
{
    if s.len() == 0 {
        assert(s.skip(0) =~= Seq::empty());
        0
    } else if s.last() == c {
        let k = s.len() as int;
        assert(s.skip(k) =~= Seq::empty());
        assert(s[k - 1] == c);
        k
    } else {
        let d = s.drop_last();
        let k = lemma_after_last(d, c);
        assert(s.skip(k) =~= d.skip(k).push(s.last()));
        if k > 0 {
            assert(s[k - 1] == d[k - 1]);
        } else if s.contains(c) {
            let i = choose|i: int| 0 <= i < s.len() && s[i] == c;
            assert(d[i] == c);
        }
        assert forall|i: int| 0 <= i < s.skip(k).len() implies s.skip(k)[i] != c by {
            if i < d.skip(k).len() {
                assert(d.skip(k).contains(d.skip(k)[i]));
            }
        }
        assert(s.skip(k).len() == s.len() - k);
        k
    }
}

/// A text is divided at the last place of a character.
pub proof fn law_last_place_divides(a: Seq<char>, c: char, b: Seq<char>)
    requires
        !b.contains(c),
    ensures
        search::after_last(a + seq![c] + b, c) == b,
        search::before_last(a + seq![c] + b, c) == a,
        search::after_last(b, c) == b,
        search::before_last(b, c) == b,
{
    let s = a + seq![c] + b;
    let k = lemma_after_last(s, c);
    assert(s[a.len() as int] == c);
    assert(s.contains(c));
    if k - 1 < a.len() {
        assert(s.skip(k)[a.len() - k] == c);
        assert(s.skip(k).contains(c));
    } else if k - 1 > a.len() {
        assert(b[k - 1 - a.len() - 1] == s[k - 1]);
    }
    assert(s.skip(k) =~= b);
    assert(s.take(k - 1) =~= a);
    let j = lemma_after_last(b, c);
    assert(b.skip(0) =~= b);
}

proof fn lemma_file(n: NodeModel, raw: Seq<char>)
    ensures
        ({
            let file = words::lowercase(search::after_last(n.file_path, '/'));
            has_the_file(n, raw) == (file == asked_for(raw) || search::before_last(file, '.')
                == asked_for(raw))
        }),
{
    let q = asked_for(raw);
    let path = n.file_path;
    let f = search::after_last(path, '/');
    let low = words::lowercase(f);
    let k = lemma_after_last(path, '/');
    let dir = if k > 0 {
        path.take(k - 1)
    } else {
        Seq::empty()
    };
    assert(is_file_in(path, dir, f)) by {
        if k > 0 {
            assert(path =~= dir + seq!['/'] + f);
        } else {
            assert(path.skip(0) =~= path);
        }
    }
    if search::before_last(low, '.') == q && low != q {
        let j = lemma_after_last(low, '.');
        let ext = search::after_last(low, '.');
        assert(low =~= q + seq!['.'] + ext);
        assert(!ext.contains('.'));
        assert(has_the_file(n, raw));
    }
    if has_the_file(n, raw) {
        let (d, g) = choose|dir: Seq<char>, file: Seq<char>| #[trigger]
            is_file_in(path, dir, file) && (words::lowercase(file) == q || exists|ext: Seq<char>|
                !#[trigger] ext.contains('.') && words::lowercase(file) == q + seq!['.'] + ext);
        law_last_place_divides(d, '/', g);
        assert(g == f);
        if words::lowercase(g) != q {
            let ext = choose|ext: Seq<char>|
                !#[trigger] ext.contains('.') && words::lowercase(g) == q + seq!['.'] + ext;
            law_last_place_divides(q, '.', ext);
        }
    }
}

proof fn lemma_thinned_order(
    s: Seq<NodeModel>,
    has_code: bool,
    before: spec_fn(NodeModel, NodeModel) -> bool,
)
    requires
        order::is_arranged(s, before),
    ensures
        order::is_arranged(search::thinned(s, has_code), before),
        forall|x: NodeModel| #[trigger] search::thinned(s, has_code).contains(x) ==> s.contains(x),
    decreases s.len(),
{
    if s.len() > 0 {
        let d = s.drop_last();
        let t = search::thinned(s, has_code);
        let td = search::thinned(d, has_code);
        assert forall|i: int, j: int| 0 <= i < j < d.len() implies !before(
            #[trigger] d[j],
            #[trigger] d[i],
        ) by {
            assert(d[i] == s[i] && d[j] == s[j]);
        }
        lemma_thinned_order(d, has_code, before);
        assert forall|i: int, j: int| 0 <= i < j < t.len() implies !before(
            #[trigger] t[j],
            #[trigger] t[i],
        ) by {
            if j < td.len() {
                assert(t[i] == td[i] && t[j] == td[j]);
            } else {
                assert(t[i] == td[i]);
                assert(td.contains(td[i]));
                let k = choose|k: int| 0 <= k < d.len() && d[k] == td[i];
                assert(s[k] == td[i]);
                assert(t[j] == s[s.len() - 1]);
            }
        }
        assert forall|x: NodeModel| #[trigger] t.contains(x) implies s.contains(x) by {
            let j = choose|j: int| 0 <= j < t.len() && t[j] == x;
            if j < td.len() {
                assert(td[j] == x);
                assert(td.contains(x));
                let k = choose|k: int| 0 <= k < d.len() && d[k] == x;
                assert(s[k] == x);
            } else {
                assert(s[s.len() - 1] == x);
            }
        }
    }
}

/// The best answers come first: the symbols with the very name, then those in a
/// file with the name, then all other code, then the documents that hold the
/// text, then the other documents.
pub proof fn law_exact_answers_come_first(
    hits: Seq<NodeModel>,
    raw: Seq<char>,
    limit: nat,
    i: int,
    j: int,
)
    requires
        0 <= i < j < search::ranked(hits, raw, limit).len(),
    ensures
        ({
            let a = search::ranked(hits, raw, limit)[i];
            let b = search::ranked(hits, raw, limit)[j];
            &&& has_the_name(b, raw) ==> has_the_name(a, raw)
            &&& has_the_file(b, raw) ==> has_the_name(a, raw) || has_the_file(a, raw)
            &&& b.label != NodeLabel::Document && a.label == NodeLabel::Document ==> has_the_name(
                a,
                raw,
            ) || has_the_file(a, raw)
            &&& has_the_text(b, raw) && a.label == NodeLabel::Document ==> has_the_name(a, raw)
                || has_the_file(a, raw) || has_the_text(a, raw)
        }),
{
    let q = asked_for(raw);
    let before = search::bonus_order(q);
    let sorted = order::arranged(hits, before);
    order::law_arranged(hits, before);
    assert(order::is_order(before));
    let has_code = rows::any(hits, search::is_code());
    lemma_thinned_order(sorted, has_code, before);
    let t = search::thinned(sorted, has_code);
    let (a, b) = (t[i], t[j]);
    assert(!before(b, a));
    lemma_file(a, raw);
    lemma_file(b, raw);
    lemma_text(a, raw);
    lemma_text(b, raw);
}

proof fn lemma_text(n: NodeModel, raw: Seq<char>)
    ensures
        has_the_text(n, raw) == (match types::meta_text(n.metadata, "text"@) {
            Some(t) => text::has_text(words::lowercase(t), asked_for(raw)),
            None => false,
        }),
{
}

/// An answer is made of hits, at most as many as are asked for, and where fewer
/// are answered, no hit that is code is missing.
pub proof fn law_answer_is_made_of_the_hits(hits: Seq<NodeModel>, raw: Seq<char>, limit: nat)
    ensures
        search::ranked(hits, raw, limit).len() <= limit,
        forall|n: NodeModel| #[trigger]
            search::ranked(hits, raw, limit).contains(n) ==> hits.contains(n),
        search::ranked(hits, raw, limit).len() < limit ==> forall|n: NodeModel| #[trigger]
            hits.contains(n) && n.label != NodeLabel::Document ==> search::ranked(
                hits,
                raw,
                limit,
            ).contains(n),
{
    let before = search::bonus_order(asked_for(raw));
    let sorted = order::arranged(hits, before);
    let r = search::ranked(hits, raw, limit);
    order::law_arranged(hits, before);
    assert(order::is_order(before));
    order::lemma_same_items(hits, before);
    let has_code = rows::any(hits, search::is_code());
    let t = search::thinned(sorted, has_code);
    lemma_thinned_order(sorted, has_code, before);
    search::law_documents_are_thinned(sorted, has_code);
    assert forall|n: NodeModel| #[trigger] r.contains(n) implies hits.contains(n) by {
        let k = choose|k: int| 0 <= k < r.len() && r[k] == n;
        assert(t[k] == n);
        assert(t.contains(n));
        assert(sorted.contains(n));
    }
    if r.len() < limit {
        assert(r == t);
        assert forall|n: NodeModel| #[trigger]
            hits.contains(n) && n.label != NodeLabel::Document implies r.contains(n) by {
            assert(sorted.contains(n));
        }
    }
}

/// Where one hit has the very name and something is asked for, it is the first
/// answer that is given.
pub proof fn law_the_named_symbol_is_the_answer(
    hits: Seq<NodeModel>,
    raw: Seq<char>,
    limit: nat,
    n: NodeModel,
)
    requires
        hits.contains(n),
        n.label != NodeLabel::Document,
        has_the_name(n, raw),
        limit > 0,
    ensures
        search::ranked(hits, raw, limit).len() > 0,
        has_the_name(search::ranked(hits, raw, limit)[0], raw),
{
    let before = search::bonus_order(asked_for(raw));
    let sorted = order::arranged(hits, before);
    let r = search::ranked(hits, raw, limit);
    order::law_arranged(hits, before);
    assert(order::is_order(before));
    order::lemma_same_items(hits, before);
    let has_code = rows::any(hits, search::is_code());
    let t = search::thinned(sorted, has_code);
    lemma_thinned_order(sorted, has_code, before);
    search::law_documents_are_thinned(sorted, has_code);
    assert(t.contains(n));
    let k = choose|k: int| 0 <= k < t.len() && t[k] == n;
    assert(r[0] == t[0]);
    if k > 0 {
        assert(!before(t[k], t[0]));
    }
}

/// Whether a hit is code that is asked for neither by its name nor by its file.
pub open spec fn is_other_code(n: NodeModel, raw: Seq<char>) -> bool {
    n.label != NodeLabel::Document && !has_the_name(n, raw) && !has_the_file(n, raw)
}

proof fn lemma_thinned_stable(
    s: Seq<NodeModel>,
    has_code: bool,
) -> (at: Seq<int>)
    ensures
        at.len() == search::thinned(s, has_code).len(),
        forall|i: int|
            0 <= i < at.len() ==> 0 <= #[trigger] at[i] < s.len() && s[at[i]] == search::thinned(
                s,
                has_code,
            )[i],
        forall|i: int, j: int| 0 <= i < j < at.len() ==> #[trigger] at[i] < #[trigger] at[j],
    decreases s.len(),
{
    if s.len() == 0 {
        Seq::empty()
    } else {
        let d = s.drop_last();
        let rest = lemma_thinned_stable(d, has_code);
        let t = search::thinned(s, has_code);
        let td = search::thinned(d, has_code);
        assert forall|i: int| 0 <= i < rest.len() implies s[#[trigger] rest[i]] == td[i] by {
            assert(d[rest[i]] == s[rest[i]]);
        }
        if t.len() > td.len() {
            rest.push(s.len() - 1)
        } else {
            rest
        }
    }
}

/// Hits that are equally good stay in the order in which the index gave them.
pub proof fn law_equal_answers_keep_their_order(
    hits: Seq<NodeModel>,
    raw: Seq<char>,
    limit: nat,
    i: int,
    j: int,
)
    requires
        0 <= i < j < search::ranked(hits, raw, limit).len(),
        ({
            let a = search::ranked(hits, raw, limit)[i];
            let b = search::ranked(hits, raw, limit)[j];
            ||| has_the_name(a, raw) && has_the_name(b, raw)
            ||| is_other_code(a, raw) && is_other_code(b, raw)
        }),
    ensures
        exists|p: int, q: int|
            0 <= p < q < hits.len() && #[trigger] hits[p] == search::ranked(hits, raw, limit)[i]
                && #[trigger] hits[q] == search::ranked(hits, raw, limit)[j],
{
    let before = search::bonus_order(asked_for(raw));
    let sorted = order::arranged(hits, before);
    let has_code = rows::any(hits, search::is_code());
    let t = search::thinned(sorted, has_code);
    let at = order::lemma_arranged_stable(hits, before);
    let to = lemma_thinned_stable(sorted, has_code);
    let (a, b) = (t[i], t[j]);
    lemma_file(a, raw);
    lemma_file(b, raw);
    assert(to[i] < to[j]);
    assert(sorted[to[i]] == a && sorted[to[j]] == b);
    assert(!before(a, b) && !before(b, a));
    assert(at[to[i]] < at[to[j]]);
    assert(hits[at[to[i]]] == a && hits[at[to[j]]] == b);
}

/// Whether an index answers each query with the hits that are given for it.
pub open spec fn answers_by<F: Fn(&str, usize) -> Vec<Node>>(
    index: F,
    width: usize,
    hits: spec_fn(Seq<char>) -> Seq<NodeModel>,
) -> bool {
    forall|q: &str, r: Vec<Node>| #[trigger]
        index.ensures((q, width), r) ==> types::node_views(r@) == hits(q@)
}

/// A search asks for the query as it stands. Where that finds nothing, it asks
/// for all of the terms of the query at once, and where that finds nothing
/// either, for any of them, as far as there are several.
pub proof fn law_search_asks_for_less_and_less<F: Fn(&str, usize) -> Vec<Node>>(
    index: F,
    raw: Seq<char>,
    width: usize,
    hits: spec_fn(Seq<char>) -> Seq<NodeModel>,
    found: Vec<Node>,
)
    requires
        answers_by(index, width, hits),
        search::searched(index, raw, width, found),
    ensures
        ({
            let terms = search::prefix_terms(words::letters(raw));
            let all = hits(text::join(terms, " AND "@));
            let any = hits(text::join(terms, " OR "@));
            let r = types::node_views(found@);
            &&& hits(raw).len() > 0 ==> r == hits(raw)
            &&& hits(raw).len() == 0 && terms.len() == 0 ==> r.len() == 0
            &&& hits(raw).len() == 0 && terms.len() > 0 && all.len() > 0 ==> r == all
            &&& hits(raw).len() == 0 && terms.len() == 1 ==> r == all
            &&& hits(raw).len() == 0 && terms.len() > 1 && all.len() == 0 ==> r == any
        }),
{
    let terms = search::prefix_terms(words::letters(raw));
    let a = choose|a: Vec<Node>| #[trigger]
        search::asked(index, raw, width, a) && if a@.len() > 0 || terms.len() == 0 {
            found == a
        } else {
            exists|b: Vec<Node>| #[trigger]
                search::asked(index, text::join(terms, " AND "@), width, b) && if b@.len() > 0
                    || terms.len() <= 1 {
                    found == b
                } else {
                    search::asked(index, text::join(terms, " OR "@), width, found)
                }
        };
    assert forall|q: Seq<char>, r: Vec<Node>| #[trigger]
        search::asked(index, q, width, r) implies types::node_views(r@) == hits(q)
        && types::node_views(r@).len() == r@.len() by {
        let t = choose|t: &str| t@ == q && #[trigger] index.ensures((t, width), r);
        assert(index.ensures((t, width), r));
    }
    assert(types::node_views(a@) == hits(raw));
    if !(a@.len() > 0 || terms.len() == 0) {
        let b = choose|b: Vec<Node>| #[trigger]
            search::asked(index, text::join(terms, " AND "@), width, b) && if b@.len() > 0
                || terms.len() <= 1 {
                found == b
            } else {
                search::asked(index, text::join(terms, " OR "@), width, found)
            };
        assert(types::node_views(b@) == hits(text::join(terms, " AND "@)));
    }
}

/// The index is asked for three times as many hits as are wanted, and for
/// twenty-four at least.
pub proof fn law_index_is_asked_widely(limit: nat)
    requires
        3 * limit <= usize::MAX,
    ensures
        search::search_width(limit) >= 24,
        search::search_width(limit) >= 3 * limit,
        search::search_width(limit) == 24 || search::search_width(limit) == 3 * limit,
{
}

proof fn lemma_useful(t: Seq<Seq<char>>)
    ensures
        ({
            let r = search::useful_terms(t);
            &&& forall|x: Seq<char>| #[trigger] r.contains(x) ==> t.contains(x) && search::is_long(x)
            &&& forall|x: Seq<char>| #[trigger]
                t.contains(x) && search::is_long(x) ==> exists|i: int|
                    0 <= i < r.len() && words::lowercase(#[trigger] r[i]) == words::lowercase(x)
            &&& forall|i: int, j: int|
                0 <= i < j < r.len() ==> words::lowercase(#[trigger] r[i]) != words::lowercase(
                    #[trigger] r[j],
                )
        }),
    decreases t.len(),
{
    let r = search::useful_terms(t);
    if t.len() > 0 {
        let d = t.drop_last();
        let b = search::useful_terms(d);
        let last = t.last();
        lemma_useful(d);
        assert(t[t.len() - 1] == last);
        assert(t.contains(last));
        assert forall|x: Seq<char>| #[trigger] t.contains(x) implies x == last || d.contains(x) by {
            let i = choose|i: int| 0 <= i < t.len() && t[i] == x;
            if i < d.len() {
                assert(d[i] == x);
            }
        }
        assert forall|x: Seq<char>| #[trigger] d.contains(x) implies t.contains(x) by {
            let i = choose|i: int| 0 <= i < d.len() && d[i] == x;
            assert(t[i] == x);
        }
        let low = search::lowered(b);
        assert(low.contains(words::lowercase(last)) == (exists|i: int|
            0 <= i < b.len() && words::lowercase(#[trigger] b[i]) == words::lowercase(last))) by {
            if low.contains(words::lowercase(last)) {
                let i = choose|i: int| 0 <= i < low.len() && low[i] == words::lowercase(last);
                assert(words::lowercase(b[i]) == words::lowercase(last));
            }
            if exists|i: int|
                0 <= i < b.len() && words::lowercase(#[trigger] b[i]) == words::lowercase(last) {
                let i = choose|i: int|
                    0 <= i < b.len() && words::lowercase(#[trigger] b[i]) == words::lowercase(last);
                assert(low[i] == words::lowercase(last));
            }
        }
        if r.len() > b.len() {
            assert(r == b.push(last));
            assert forall|x: Seq<char>| #[trigger] r.contains(x) implies t.contains(x)
                && search::is_long(x) by {
                let i = choose|i: int| 0 <= i < r.len() && r[i] == x;
                if i < b.len() {
                    assert(b[i] == x);
                    assert(b.contains(x));
                }
            }
            assert forall|i: int, j: int| 0 <= i < j < r.len() implies words::lowercase(
                #[trigger] r[i],
            ) != words::lowercase(#[trigger] r[j]) by {
                if j < b.len() {
                    assert(r[i] == b[i] && r[j] == b[j]);
                } else {
                    assert(r[i] == b[i]);
                }
            }
            assert forall|x: Seq<char>| #[trigger]
                t.contains(x) && search::is_long(x) implies exists|i: int|
                0 <= i < r.len() && words::lowercase(#[trigger] r[i]) == words::lowercase(x) by {
                if d.contains(x) {
                    let i = choose|i: int|
                        0 <= i < b.len() && words::lowercase(#[trigger] b[i]) == words::lowercase(x);
                    assert(r[i] == b[i]);
                } else {
                    assert(r[b.len() as int] == last);
                }
            }
        } else {
            assert(r == b);
        }
    }
}

/// The terms of a search are the words of the query that take more than one
/// byte, each asked for as the beginning of a word; none is asked for twice, in
/// whatever case, and none of them is left out.
pub proof fn law_terms_are_the_words_of_the_query(l: Seq<Letter>)
    ensures
        ({
            let t = search::prefix_terms(l);
            let found = search::all_terms(search::pieces(l));
            &&& forall|i: int|
                0 <= i < t.len() ==> (#[trigger] t[i]).len() > 0 && t[i].last() == '*'
                    && found.contains(t[i].drop_last())
            &&& forall|i: int, j: int|
                0 <= i < j < t.len() ==> words::lowercase((#[trigger] t[i]).drop_last())
                    != words::lowercase((#[trigger] t[j]).drop_last())
            &&& forall|x: Seq<char>| #[trigger]
                found.contains(x) && x.len() > 1 ==> exists|i: int|
                    0 <= i < t.len() && words::lowercase((#[trigger] t[i]).drop_last())
                        == words::lowercase(x)
        }),
{
    let found = search::all_terms(search::pieces(l));
    let u = search::useful_terms(found);
    let t = search::prefix_terms(l);
    lemma_useful(found);
    assert forall|i: int| 0 <= i < t.len() implies (#[trigger] t[i]).len() > 0 && t[i].last() == '*'
        && t[i].drop_last() == u[i] && found.contains(t[i].drop_last()) by {
        assert(t[i] == u[i].push('*'));
        assert(t[i].drop_last() =~= u[i]);
        assert(u.contains(u[i]));
    }
    assert forall|x: Seq<char>| #[trigger] found.contains(x) && x.len() > 1 implies exists|i: int|
        0 <= i < t.len() && words::lowercase((#[trigger] t[i]).drop_last()) == words::lowercase(
            x,
        ) by {
        let i = choose|i: int|
            0 <= i < u.len() && words::lowercase(#[trigger] u[i]) == words::lowercase(x);
        assert(t[i].drop_last() == u[i]);
    }
    assert forall|i: int, j: int| 0 <= i < j < t.len() implies words::lowercase(
        (#[trigger] t[i]).drop_last(),
    ) != words::lowercase((#[trigger] t[j]).drop_last()) by {
        assert(t[i].drop_last() == u[i] && t[j].drop_last() == u[j]);
    }
}

/// A query is divided at what can stand in no term: what stands before such a
/// character and what stands behind it are divided on their own, and what has
/// none is one piece.
pub proof fn law_query_is_divided_into_pieces(a: Seq<Letter>, x: Letter, b: Seq<Letter>)
    requires
        !(x.alphanumeric || x.c == '_'),
        forall|i: int| 0 <= i < b.len() ==> (#[trigger] b[i]).alphanumeric || b[i].c == '_',
    ensures
        search::pieces(b) == seq![b],
        search::pieces(a + seq![x] + b) == search::pieces(a).push(b),
    decreases b.len(),
{
    let w = a + seq![x] + b;
    if b.len() == 0 {
        assert(b =~= Seq::empty());
        assert(w.drop_last() =~= a);
        assert(w.last() == x);
    } else {
        let d = b.drop_last();
        assert(b[b.len() - 1] == b.last());
        assert forall|i: int| 0 <= i < d.len() implies (#[trigger] d[i]).alphanumeric || d[i].c
            == '_' by {
            assert(d[i] == b[i]);
        }
        law_query_is_divided_into_pieces(a, x, d);
        assert(w.drop_last() =~= a + seq![x] + d);
        assert(w.last() == b.last());
        let p = search::pieces(a).push(d);
        assert(p.drop_last() =~= search::pieces(a));
        assert(d.push(b.last()) =~= b);
        assert(seq![d].drop_last() =~= Seq::empty());
        assert(seq![d].drop_last().push(b) =~= seq![b]);
    }
}

/// A search by a regular expression finds the nodes whose name it matches, all
/// of them where the list is not full.
pub proof fn law_regex_finds_names(nodes: Seq<NodeModel>, pattern: Seq<char>, limit: nat)
    ensures
        ({
            let r = rows::limited(rows::kept(nodes, search::name_matches(pattern)), limit);
            &&& r.len() <= limit
            &&& forall|n: NodeModel| #[trigger]
                r.contains(n) ==> nodes.contains(n) && search::regex_found(pattern, n.name)
            &&& r.len() < limit ==> forall|n: NodeModel| #[trigger]
                nodes.contains(n) && n.name.len() > 0 && search::regex_found(pattern, n.name)
                    ==> r.contains(n)
        }),
{
    let found = rows::kept(nodes, search::name_matches(pattern));
    let r = rows::limited(found, limit);
    rows::lemma_kept(nodes, search::name_matches(pattern));
    assert forall|n: NodeModel| #[trigger] r.contains(n) implies nodes.contains(n)
        && search::regex_found(pattern, n.name) by {
        let i = choose|i: int| 0 <= i < r.len() && r[i] == n;
        assert(found[i] == n);
        assert(found.contains(n));
    }
    if r.len() < limit {
        assert(r =~= found);
    }
}

} // verus!
