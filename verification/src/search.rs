//! Searching: the terms of a forgiving query, the ranking of hits, and regular
//! expressions over names.

use regex::Regex;
use vstd::hash_set::StringHashSet;
use vstd::prelude::*;
use vstd::string::*;

use crate::order;
use crate::rows;
use crate::rows::Row;
use crate::store::Store;
use crate::text;
use crate::types;
use crate::types::{Node, NodeLabel, NodeModel};
use crate::words;
use crate::words::Letter;

verus! {

/// Whether a character can stand in a search term.
pub open spec fn is_term_letter(x: Letter) -> bool {
    x.alphanumeric || x.c == '_'
}

/// The pieces of a query between the characters that cannot stand in a term.
pub open spec fn pieces(l: Seq<Letter>) -> Seq<Seq<Letter>>
    decreases l.len(),
{
    if l.len() == 0 {
        seq![Seq::empty()]
    } else {
        let rest = pieces(l.drop_last());
        if is_term_letter(l.last()) {
            rest.drop_last().push(rest.last().push(l.last()))
        } else {
            rest.push(Seq::empty())
        }
    }
}

/// The characters of letters.
pub open spec fn spelled(l: Seq<Letter>) -> Seq<char> {
    Seq::new(l.len(), |i: int| l[i].c)
}

/// The words of a piece; the piece itself where it is one word.
pub open spec fn piece_terms(l: Seq<Letter>) -> Seq<Seq<char>> {
    let found = words::identifier_words(l);
    if found.len() <= 1 {
        seq![spelled(l)]
    } else {
        found
    }
}

/// The words of all pieces.
pub open spec fn all_terms(p: Seq<Seq<Letter>>) -> Seq<Seq<char>>
    decreases p.len(),
{
    if p.len() == 0 {
        Seq::empty()
    } else {
        all_terms(p.drop_last()) + piece_terms(p.last())
    }
}

/// Whether a term takes more than one byte.
pub open spec fn is_long(t: Seq<char>) -> bool {
    t.len() > 1 || (t.len() == 1 && t[0] as u32 >= 128)
}

/// The long terms without those that differ from an earlier one in case only.
pub open spec fn useful_terms(t: Seq<Seq<char>>) -> Seq<Seq<char>>
    decreases t.len(),
{
    if t.len() == 0 {
        t
    } else {
        let rest = useful_terms(t.drop_last());
        if is_long(t.last()) && !lowered(rest).contains(words::lowercase(t.last())) {
            rest.push(t.last())
        } else {
            rest
        }
    }
}

/// The texts in lowercase.
pub open spec fn lowered(t: Seq<Seq<char>>) -> Seq<Seq<char>> {
    t.map_values(|x: Seq<char>| words::lowercase(x))
}

/// The prefix queries of a search: one for each useful term.
pub open spec fn prefix_terms(l: Seq<Letter>) -> Seq<Seq<char>> {
    useful_terms(all_terms(pieces(l))).map_values(|t: Seq<char>| t.push('*'))
}

/// What pieces hold.
pub open spec fn piece_views(v: Seq<Vec<Letter>>) -> Seq<Seq<Letter>> {
    v.map_values(|p: Vec<Letter>| p@)
}

/// See [`pieces`].
fn split_pieces(l: &Vec<Letter>) -> (r: Vec<Vec<Letter>>)
    ensures
        piece_views(r@) == pieces(l@),
{
    let mut done: Vec<Vec<Letter>> = Vec::new();
    let mut open: Vec<Letter> = Vec::new();
    let mut i: usize = 0;
    assert(piece_views(done@).push(open@) =~= pieces(l@.take(0)));
    while i < l.len()
        invariant
            i <= l.len(),
            piece_views(done@).push(open@) == pieces(l@.take(i as int)),
        decreases l.len() - i,
    {
        let x = l[i];
        let ghost was = piece_views(done@);
        let ghost start = open@;
        assert(l@.take(i + 1).drop_last() =~= l@.take(i as int));
        assert(was.push(start).drop_last() =~= was);
        if x.alphanumeric || x.c == '_' {
            open.push(x);
        } else {
            done.push(open);
            open = Vec::new();
            assert(piece_views(done@) =~= was.push(start));
            assert(open@ =~= Seq::<Letter>::empty());
        }
        i += 1;
    }
    let ghost was = piece_views(done@);
    let ghost start = open@;
    done.push(open);
    assert(piece_views(done@) =~= was.push(start));
    assert(l@.take(l@.len() as int) =~= l@);
    done
}

/// See [`spelled`].
fn spell(l: &Vec<Letter>) -> (r: String)
    ensures
        r@ == spelled(l@),
{
    let mut s = String::new();
    let mut i: usize = 0;
    while i < l.len()
        invariant
            i <= l.len(),
            s@ == spelled(l@).take(i as int),
        decreases l.len() - i,
    {
        s.push(l[i].c);
        i += 1;
        assert(spelled(l@).take(i as int) =~= spelled(l@).take(i - 1).push(l@[i - 1].c));
    }
    assert(spelled(l@).take(l@.len() as int) =~= spelled(l@));
    s
}

/// See [`piece_terms`].
fn terms_of(l: &Vec<Letter>) -> (r: Vec<String>)
    ensures
        text::views(r@) == piece_terms(l@),
{
    let found = words::split_words(l);
    assert(text::views(found@).len() == found@.len());
    if found.len() <= 1 {
        let mut v: Vec<String> = Vec::new();
        v.push(spell(l));
        assert(text::views(v@) =~= seq![spelled(l@)]);
        v
    } else {
        found
    }
}

/// See [`is_long`].
fn long_term(t: &str) -> (r: bool)
    ensures
        r == is_long(t@),
{
    let v = text::chars_of(t);
    v.len() > 1 || (v.len() == 1 && v[0] as u32 >= 128)
}

/// See [`prefix_terms`].
pub fn search_terms(l: &Vec<Letter>) -> (r: Vec<String>)
    ensures
        text::views(r@) == prefix_terms(l@),
{
    let parts = split_pieces(l);
    let ghost all_parts = piece_views(parts@);
    let mut all: Vec<String> = Vec::new();
    let mut i: usize = 0;
    assert(all_parts.len() == parts@.len());
    assert(text::views(all@) =~= all_terms(all_parts.take(0)));
    while i < parts.len()
        invariant
            i <= parts.len(),
            all_parts == piece_views(parts@),
            all_parts.len() == parts@.len(),
            text::views(all@) == all_terms(all_parts.take(i as int)),
        decreases parts.len() - i,
    {
        let mut more = terms_of(&parts[i]);
        let ghost was = text::views(all@);
        let ghost extra = text::views(more@);
        assert(all_parts.take(i + 1).drop_last() =~= all_parts.take(i as int));
        all.append(&mut more);
        assert(text::views(all@) =~= was + extra);
        i += 1;
    }
    assert(all_parts.take(parts@.len() as int) =~= all_parts);
    let ghost terms = text::views(all@);
    let mut kept: Vec<String> = Vec::new();
    let mut out: Vec<String> = Vec::new();
    let mut known = StringHashSet::new();
    let mut j: usize = 0;
    let ghost star = |t: Seq<char>| t.push('*');
    assert(terms.len() == all@.len());
    assert(text::views(kept@) =~= useful_terms(terms.take(0)));
    assert(text::views(out@) =~= text::views(kept@).map_values(star));
    while j < all.len()
        invariant
            j <= all.len(),
            terms == text::views(all@),
            terms.len() == all@.len(),
            star == |t: Seq<char>| t.push('*'),
            text::views(kept@) == useful_terms(terms.take(j as int)),
            text::views(out@) == text::views(kept@).map_values(star),
            forall|x: Seq<char>| #[trigger]
                known@.contains(x) <==> lowered(text::views(kept@)).contains(x),
        decreases all.len() - j,
    {
        let t = &all[j];
        let low = t.as_str().to_lowercase();
        assert(terms.take(j + 1).drop_last() =~= terms.take(j as int));
        assert(terms.take(j + 1).last() == t@);
        let ghost was = text::views(kept@);
        let ghost said = text::views(out@);
        if long_term(t.as_str()) && !known.contains(low.as_str()) {
            known.insert(low);
            out.push(t.clone().concat("*"));
            kept.push(t.clone());
            proof {
                reveal_strlit("*");
                assert(t@ + "*"@ =~= t@.push('*'));
                assert(text::views(kept@) =~= was.push(t@));
                assert(text::views(out@) =~= said.push(t@.push('*')));
                assert(was.push(t@).map_values(star) =~= was.map_values(star).push(star(t@)));
                lemma_lowered_push(was, t@);
            }
        }
        j += 1;
    }
    assert(terms.take(all@.len() as int) =~= terms);
    out
}

proof fn lemma_lowered_push(s: Seq<Seq<char>>, t: Seq<char>)
    ensures
        forall|x: Seq<char>| #[trigger]
            lowered(s.push(t)).contains(x) <==> lowered(s).contains(x) || x == words::lowercase(t),
{
    let a = lowered(s);
    let b = lowered(s.push(t));
    assert(b =~= a.push(words::lowercase(t)));
    assert forall|x: Seq<char>| #[trigger]
        b.contains(x) <==> a.contains(x) || x == words::lowercase(t) by {
        if a.contains(x) {
            let i = choose|i: int| 0 <= i < a.len() && a[i] == x;
            assert(b[i] == x);
        }
        if b.contains(x) {
            let i = choose|i: int| 0 <= i < b.len() && b[i] == x;
            if i < a.len() {
                assert(a[i] == x);
            }
        }
        assert(b[a.len() as int] == words::lowercase(t));
    }
}

/// The part of a text behind the last place of a character; all of it where
/// the character is not there.
pub open spec fn after_last(s: Seq<char>, c: char) -> Seq<char>
    decreases s.len(),
{
    if s.len() == 0 || s.last() == c {
        Seq::empty()
    } else {
        after_last(s.drop_last(), c).push(s.last())
    }
}

/// The part of a text before the last place of a character; all of it where
/// the character is not there.
pub open spec fn before_last(s: Seq<char>, c: char) -> Seq<char> {
    if s.contains(c) {
        s.take(s.len() - after_last(s, c).len() - 1)
    } else {
        s
    }
}

proof fn lemma_after_last(s: Seq<char>, c: char, k: int)
    requires
        0 <= k <= s.len(),
        k > 0 ==> s[k - 1] == c,
        forall|i: int| k <= i < s.len() ==> s[i] != c,
    ensures
        after_last(s, c) == s.skip(k),
        s.contains(c) == (k > 0),
    decreases s.len(),
{
    if k == s.len() {
        assert(s.skip(k) =~= Seq::empty());
    } else {
        let d = s.drop_last();
        lemma_after_last(d, c, k);
        assert(s.skip(k) =~= d.skip(k).push(s.last()));
    }
    if k > 0 {
        assert(s[k - 1] == c);
    }
}

/// The place behind the last place of a character.
fn last_place(v: &Vec<char>, c: char) -> (k: usize)
    ensures
        k <= v@.len(),
        after_last(v@, c) == v@.skip(k as int),
        v@.contains(c) == (k > 0),
{
    let mut k: usize = v.len();
    while k > 0 && v[k - 1] != c
        invariant
            k <= v@.len(),
            forall|i: int| k <= i < v@.len() ==> v@[i] != c,
        ensures
            k > 0 ==> v@[k - 1] == c,
        decreases k,
    {
        k -= 1;
    }
    proof {
        lemma_after_last(v@, c, k as int);
    }
    k
}

/// See [`after_last`].
pub fn text_after_last(s: &str, c: char) -> (r: String)
    ensures
        r@ == after_last(s@, c),
{
    let v = text::chars_of(s);
    let k: usize = last_place(&v, c);
    let r = text::slice(v.as_slice(), k, v.len());
    assert(v@.subrange(k as int, v@.len() as int) =~= v@.skip(k as int));
    r
}

/// See [`before_last`].
pub fn text_before_last(s: &str, c: char) -> (r: String)
    ensures
        r@ == before_last(s@, c),
{
    let v = text::chars_of(s);
    let k: usize = last_place(&v, c);
    if k > 0 {
        let r = text::slice(v.as_slice(), 0, k - 1);
        assert(v@.subrange(0, k - 1) =~= v@.take(k - 1));
        r
    } else {
        s.to_owned()
    }
}

/// How exactly a node answers a query: by its name, by its file's name, as
/// code, as a document that holds the query, or not at all.
pub open spec fn bonus(n: NodeModel, q: Seq<char>) -> int {
    let file = words::lowercase(after_last(n.file_path, '/'));
    if words::lowercase(n.name) == q {
        4
    } else if before_last(file, '.') == q || file == q {
        3
    } else if n.label != NodeLabel::Document {
        2
    } else {
        match types::meta_text(n.metadata, "text"@) {
            Some(t) => if text::has_text(words::lowercase(t), q) {
                1
            } else {
                0
            },
            None => 0,
        }
    }
}

/// See [`bonus`].
fn bonus_of(n: &Node, q: &str) -> (r: u8)
    ensures
        r == bonus(n@, q@),
{
    if text::same(n.name.as_str().to_lowercase().as_str(), q) {
        return 4;
    }
    let file = text_after_last(n.file_path.as_str(), '/').as_str().to_lowercase();
    if text::same(text_before_last(file.as_str(), '.').as_str(), q) || text::same(
        file.as_str(),
        q,
    ) {
        return 3;
    }
    if n.label != NodeLabel::Document {
        return 2;
    }
    match n.metadata.text("text") {
        Some(t) => if text::contains_text(t.as_str().to_lowercase().as_str(), q) {
            1
        } else {
            0
        },
        None => 0,
    }
}

/// The order of hits: the more exact first.
pub open spec fn bonus_order(q: Seq<char>) -> spec_fn(NodeModel, NodeModel) -> bool {
    |a: NodeModel, b: NodeModel| bonus(a, q) > bonus(b, q)
}

/// The test for documents.
pub open spec fn is_document() -> spec_fn(NodeModel) -> bool {
    |n: NodeModel| n.label == NodeLabel::Document
}

/// The test for anything but documents.
pub open spec fn is_code() -> spec_fn(NodeModel) -> bool {
    |n: NodeModel| n.label != NodeLabel::Document
}

/// The files of the documents among nodes.
pub open spec fn document_files(s: Seq<NodeModel>) -> Seq<Seq<char>> {
    rows::distinct(rows::kept(s, is_document()).map_values(|n: NodeModel| n.file_path))
}

/// How many documents are shown where code answers too.
pub const MAX_DOCS_WITH_CODE_HITS: usize = 5;

/// The hits without the second and later documents of a file and, where code
/// answers too, without the documents of more than a few files.
pub open spec fn thinned(s: Seq<NodeModel>, has_code: bool) -> Seq<NodeModel>
    decreases s.len(),
{
    if s.len() == 0 {
        s
    } else {
        let rest = thinned(s.drop_last(), has_code);
        let n = s.last();
        if n.label != NodeLabel::Document || (!document_files(s.drop_last()).contains(n.file_path)
            && (!has_code || document_files(s).len() <= MAX_DOCS_WITH_CODE_HITS)) {
            rest.push(n)
        } else {
            rest
        }
    }
}

/// The answer to a query from the hits of the index.
pub open spec fn ranked(hits: Seq<NodeModel>, raw: Seq<char>, limit: nat) -> Seq<NodeModel> {
    let q = words::lowercase(text::trim(raw));
    rows::limited(
        thinned(order::arranged(hits, bonus_order(q)), rows::any(hits, is_code())),
        limit,
    )
}

/// See [`ranked`].
pub fn rank_hits(hits: Vec<Node>, raw: &str, limit: usize) -> (r: Vec<Node>)
    ensures
        types::node_views(r@) == ranked(types::node_views(hits@), raw@, limit as nat),
{
    let q = text::trimmed(raw).as_str().to_lowercase();
    let ghost all = hits@;
    let test = |n: &Node| -> (t: bool)
        ensures
            t == is_code()(n@),
    { n.label != NodeLabel::Document };
    let has_code = rows::exists_row(&hits, Ghost(is_code()), test);
    let ghost before = |a: Node, b: Node| bonus(a@, q@) > bonus(b@, q@);
    let less = |a: &Node, b: &Node| -> (t: bool)
        ensures
            t == (bonus(a@, q@) > bonus(b@, q@)),
    { bonus_of(a, q.as_str()) > bonus_of(b, q.as_str()) };
    let sorted = order::arrange(hits, Ghost(before), less);
    proof {
        order::lemma_arranged_map(all, before, |n: Node| n@, bonus_order(q@));
        assert(types::node_views(sorted@) =~= sorted@.map_values(|n: Node| n@));
        assert(types::node_views(all) =~= all.map_values(|n: Node| n@));
    }
    let ghost s = types::node_views(sorted@);
    let ghost file = |n: NodeModel| n.file_path;
    let mut out: Vec<Node> = Vec::new();
    let mut files = StringHashSet::new();
    let mut count: usize = 0;
    let mut i: usize = 0;
    assert(s.len() == sorted@.len());
    assert(types::node_views(out@) =~= thinned(s.take(0), has_code));
    while i < sorted.len()
        invariant
            i <= sorted.len(),
            s == types::node_views(sorted@),
            s.len() == sorted@.len(),
            file == |n: NodeModel| n.file_path,
            types::node_views(out@) == thinned(s.take(i as int), has_code),
            count <= i,
            count == document_files(s.take(i as int)).len(),
            forall|x: Seq<char>| #[trigger]
                files@.contains(x) <==> document_files(s.take(i as int)).contains(x),
        decreases sorted.len() - i,
    {
        let n = &sorted[i];
        let ghost t = s.take(i as int);
        let ghost u = s.take(i + 1);
        proof {
            assert(u.drop_last() =~= t);
            assert(u.last() == n@);
            rows::lemma_kept_next(s, i as int, is_document());
        }
        let ghost was = types::node_views(out@);
        if n.label != NodeLabel::Document {
            out.push(n.copy());
            assert(types::node_views(out@) =~= was.push(n@));
        } else {
            proof {
                let k = rows::kept(t, is_document());
                assert(k.push(n@).map_values(file) =~= k.map_values(file).push(n@.file_path));
                assert(k.map_values(file).push(n@.file_path).drop_last() =~= k.map_values(file));
            }
            if !files.contains(n.file_path.as_str()) {
                files.insert(n.file_path.clone());
                count += 1;
                proof {
                    text::lemma_push_contains(document_files(t), n@.file_path);
                }
                if !has_code || count <= MAX_DOCS_WITH_CODE_HITS {
                    out.push(n.copy());
                    assert(types::node_views(out@) =~= was.push(n@));
                }
            }
        }
        i += 1;
    }
    assert(s.take(sorted@.len() as int) =~= s);
    rows::limit(out, limit)
}

/// How many hits the index is asked for.
pub open spec fn search_width(limit: nat) -> nat {
    let w = if limit * 3 > usize::MAX {
        usize::MAX as nat
    } else {
        limit * 3
    };
    if w < 24 {
        24
    } else {
        w
    }
}

/// Whether `hits` are what the full-text index gives for a query: for the query
/// as it stands; where that finds nothing, for all of its terms; and where that
/// finds nothing either, for any of several terms.
pub open spec fn searched<F: Fn(&str, usize) -> Vec<Node>>(
    index: F,
    raw: Seq<char>,
    width: usize,
    hits: Vec<Node>,
) -> bool {
    let terms = prefix_terms(words::letters(raw));
    exists|a: Vec<Node>| #[trigger]
        asked(index, raw, width, a) && if a@.len() > 0 || terms.len() == 0 {
            hits == a
        } else {
            exists|b: Vec<Node>| #[trigger]
                asked(index, text::join(terms, " AND "@), width, b) && if b@.len() > 0
                    || terms.len() <= 1 {
                    hits == b
                } else {
                    asked(index, text::join(terms, " OR "@), width, hits)
                }
        }
}

/// Whether the index can answer a query in this way.
pub open spec fn asked<F: Fn(&str, usize) -> Vec<Node>>(
    index: F,
    query: Seq<char>,
    width: usize,
    hits: Vec<Node>,
) -> bool {
    exists|q: &str| q@ == query && #[trigger] index.ensures((q, width), hits)
}

/// The answer to a forgiving query; see [`searched`] and [`ranked`].
pub fn search_smart<F: Fn(&str, usize) -> Vec<Node>>(raw: &str, limit: usize, index: F) -> (r: Vec<
    Node,
>)
    requires
        forall|q: &str, w: usize| #[trigger] index.requires((q, w)),
    ensures
        exists|hits: Vec<Node>| #[trigger]
            searched(index, raw@, search_width(limit as nat) as usize, hits)
                && types::node_views(r@) == ranked(types::node_views(hits@), raw@, limit as nat),
{
    let wide: usize = if limit > usize::MAX / 3 {
        usize::MAX
    } else {
        limit * 3
    };
    let width: usize = if wide < 24 {
        24
    } else {
        wide
    };
    assert(width == search_width(limit as nat) as usize);
    let first = index(raw, width);
    assert(asked(index, raw@, width, first));
    if first.len() > 0 {
        assert(searched(index, raw@, width, first));
        return rank_hits(first, raw, limit);
    }
    let terms = search_terms(&words::letters_of(raw));
    assert(text::views(terms@).len() == terms@.len());
    if terms.len() == 0 {
        assert(searched(index, raw@, width, first));
        return rank_hits(first, raw, limit);
    }
    let all = text::joined(&terms, " AND ");
    let second = index(all.as_str(), width);
    assert(asked(index, text::join(text::views(terms@), " AND "@), width, second));
    if second.len() > 0 || terms.len() <= 1 {
        assert(searched(index, raw@, width, second));
        return rank_hits(second, raw, limit);
    }
    let any = text::joined(&terms, " OR ");
    let third = index(any.as_str(), width);
    assert(asked(index, text::join(text::views(terms@), " OR "@), width, third));
    assert(searched(index, raw@, width, third));
    rank_hits(third, raw, limit)
}

/// `regex::Regex`, a compiled regular expression.
#[verifier::external_type_specification]
#[verifier::external_body]
pub struct ExRegex(Regex);

/// The pattern that a regular expression was compiled from.
pub uninterp spec fn regex_pattern(r: Regex) -> Seq<char>;

/// Why a pattern is no regular expression, in words.
pub uninterp spec fn regex_fault(pattern: Seq<char>) -> Option<Seq<char>>;

/// Whether a pattern matches anywhere in a text.
pub uninterp spec fn regex_found(pattern: Seq<char>, s: Seq<char>) -> bool;

/// `regex::Regex::new`.
#[verifier::external_body]
fn compile_regex(pattern: &str) -> (r: Result<Regex, String>)
    ensures
        match r {
            Ok(re) => regex_pattern(re) == pattern@ && regex_fault(pattern@) is None,
            Err(e) => regex_fault(pattern@) == Some(e@),
        },
{
    Regex::new(pattern).map_err(|e| e.to_string())
}

/// `regex::Regex::is_match`.
#[verifier::external_body]
fn regex_is_match(re: &Regex, s: &str) -> (r: bool)
    ensures
        r == regex_found(regex_pattern(*re), s@),
{
    re.is_match(s)
}

/// The nodes with a name that a pattern matches.
pub open spec fn name_matches(pattern: Seq<char>) -> spec_fn(NodeModel) -> bool {
    |n: NodeModel| n.name.len() > 0 && regex_found(pattern, n.name)
}

impl Store {
    /// The nodes whose names a regular expression matches, at most `limit`.
    pub fn search_regex(&self, pattern: &str, limit: usize) -> (r: Result<Vec<Node>, String>)
        ensures
            match r {
                Ok(found) => regex_fault(pattern@) is None && types::node_views(found@)
                    == rows::limited(
                    rows::kept(self@.nodes, name_matches(pattern@)),
                    limit as nat,
                ),
                Err(e) => match regex_fault(pattern@) {
                    Some(f) => e@ == "bad regex: "@ + f,
                    None => false,
                },
            },
    {
        let re = match compile_regex(pattern) {
            Ok(re) => re,
            Err(e) => return Err("bad regex: ".to_owned().concat(e.as_str())),
        };
        let test = |n: &Node| -> (t: bool)
            ensures
                t == name_matches(pattern@)(n@),
        { !n.name.as_str().is_empty() && regex_is_match(&re, n.name.as_str()) };
        Ok(rows::limit(rows::select(&self.nodes, Ghost(name_matches(pattern@)), test), limit))
    }
}

/// Of the documents of one file only one is shown, and where code answers too,
/// the documents of at most a few files.
pub proof fn law_documents_are_thinned(s: Seq<NodeModel>, has_code: bool)
    ensures
        rows::kept(thinned(s, has_code), is_document()).map_values(
            |n: NodeModel| n.file_path,
        ).no_duplicates(),
        has_code ==> rows::kept(thinned(s, has_code), is_document()).len()
            <= MAX_DOCS_WITH_CODE_HITS,
        forall|n: NodeModel|
            n.label != NodeLabel::Document ==> (#[trigger] thinned(s, has_code).contains(n)
                <==> s.contains(n)),
    decreases s.len(),
{
    let file = |n: NodeModel| n.file_path;
    let t = thinned(s, has_code);
    let k = rows::kept(t, is_document());
    if s.len() > 0 {
        let d = s.drop_last();
        let n = s.last();
        law_documents_are_thinned(d, has_code);
        let td = thinned(d, has_code);
        let kd = rows::kept(td, is_document());
        lemma_thinned_files(d, has_code);
        lemma_thinned_count(s, has_code);
        rows::lemma_kept_push(td, n, is_document());
        rows::lemma_kept(td, is_document());
        if n.label == NodeLabel::Document && t != td {
            assert(k =~= kd.push(n));
            assert(k.map_values(file) =~= kd.map_values(file).push(n.file_path));
            assert forall|i: int| 0 <= i < kd.len() implies #[trigger] kd[i].file_path
                != n.file_path by {
                assert(kd.contains(kd[i]));
                assert(td.contains(kd[i]));
                assert(document_files(d).contains(kd[i].file_path));
            }
        }
        assert forall|x: NodeModel| x.label != NodeLabel::Document implies (
        #[trigger] t.contains(x) <==> s.contains(x)) by {
            if s.contains(x) {
                let i = choose|i: int| 0 <= i < s.len() && s[i] == x;
                if i < d.len() {
                    assert(d[i] == x);
                    assert(d.contains(x));
                    assert(td.contains(x));
                    let j = choose|j: int| 0 <= j < td.len() && td[j] == x;
                    assert(t[j] == x);
                } else {
                    assert(t[t.len() - 1] == x);
                }
            }
            if t.contains(x) {
                let j = choose|j: int| 0 <= j < t.len() && t[j] == x;
                if j < td.len() {
                    assert(td[j] == x);
                    assert(td.contains(x));
                    assert(d.contains(x));
                    let i = choose|i: int| 0 <= i < d.len() && d[i] == x;
                    assert(s[i] == x);
                } else {
                    assert(s[s.len() - 1] == x);
                }
            }
        }
    }
}

proof fn lemma_thinned_files(s: Seq<NodeModel>, has_code: bool)
    ensures
        forall|n: NodeModel|
            n.label == NodeLabel::Document && (#[trigger] thinned(s, has_code).contains(n))
                ==> document_files(s).contains(n.file_path),
    decreases s.len(),
{
    let file = |n: NodeModel| n.file_path;
    if s.len() > 0 {
        let d = s.drop_last();
        lemma_thinned_files(d, has_code);
        let all = rows::kept(s, is_document()).map_values(file);
        let before = rows::kept(d, is_document()).map_values(file);
        rows::lemma_distinct(all);
        rows::lemma_distinct(before);
        let t = thinned(s, has_code);
        let td = thinned(d, has_code);
        assert forall|n: NodeModel|
            n.label == NodeLabel::Document && (#[trigger] t.contains(n)) implies document_files(
            s,
        ).contains(n.file_path) by {
            let j = choose|j: int| 0 <= j < t.len() && t[j] == n;
            if j < td.len() {
                assert(td[j] == n);
                assert(td.contains(n));
                assert(document_files(d).contains(n.file_path));
                let i = choose|i: int| 0 <= i < before.len() && before[i] == n.file_path;
                assert(all[i] == n.file_path);
            } else {
                assert(all[all.len() - 1] == n.file_path);
            }
        }
    }
}

proof fn lemma_thinned_count(s: Seq<NodeModel>, has_code: bool)
    ensures
        rows::kept(thinned(s, has_code), is_document()).len() <= document_files(s).len(),
        has_code ==> rows::kept(thinned(s, has_code), is_document()).len()
            <= MAX_DOCS_WITH_CODE_HITS,
    decreases s.len(),
{
    let file = |n: NodeModel| n.file_path;
    if s.len() > 0 {
        let d = s.drop_last();
        let n = s.last();
        lemma_thinned_count(d, has_code);
        let k = rows::kept(d, is_document());
        rows::lemma_kept_push(thinned(d, has_code), n, is_document());
        if n.label == NodeLabel::Document {
            assert(rows::kept(s, is_document()).map_values(file) =~= k.map_values(file).push(
                n.file_path,
            ));
            assert(k.map_values(file).push(n.file_path).drop_last() =~= k.map_values(file));
        }
    }
}

} // verus!
