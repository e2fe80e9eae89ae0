//! How symbols and files are named: their ids, the languages of files, and which
//! files are tests.

use vstd::prelude::*;
use vstd::string::*;

use crate::parse;
use crate::parse::Language;
use crate::text;
use crate::types;
use crate::words;
use crate::words::Letter;

verus! {

/// Whether a text is made of ASCII letters and digits alone.
pub open spec fn is_alnum_text(s: Seq<char>) -> bool {
    forall|i: int| 0 <= i < s.len() ==> text::is_alnum(#[trigger] s[i])
}

/// Whether a text has no ASCII letter and no digit.
pub open spec fn is_junk(s: Seq<char>) -> bool {
    forall|i: int| 0 <= i < s.len() ==> !text::is_alnum(#[trigger] s[i])
}

/// Whether a text begins and ends with an ASCII letter or a digit.
pub open spec fn has_clean_ends(s: Seq<char>) -> bool {
    s.len() > 0 && text::is_alnum(s[0]) && text::is_alnum(s.last())
}

proof fn lemma_squeeze_more(s: Seq<char>, w: Seq<char>)
    requires
        is_alnum_text(w),
    ensures
        types::squeeze(s + w) == types::squeeze(s) + text::lower(w),
    decreases w.len(),
{
    if w.len() == 0 {
        assert(s + w =~= s);
        assert(types::squeeze(s) + text::lower(w) =~= types::squeeze(s));
    } else {
        let d = w.drop_last();
        assert(w[w.len() - 1] == w.last());
        assert forall|i: int| 0 <= i < d.len() implies text::is_alnum(#[trigger] d[i]) by {
            assert(d[i] == w[i]);
        }
        lemma_squeeze_more(s, d);
        assert((s + w).drop_last() =~= s + d);
        assert((s + w).last() == w.last());
        assert(text::lower(w) =~= text::lower(d).push(text::lower_char(w.last())));
        assert((types::squeeze(s) + text::lower(d)).push(text::lower_char(w.last()))
            =~= types::squeeze(s) + text::lower(w));
    }
}

proof fn lemma_squeeze_junk(s: Seq<char>, j: Seq<char>)
    requires
        is_junk(j),
        j.len() > 0,
        s.len() > 0 ==> text::is_alnum(s.last()),
    ensures
        types::squeeze(s + j) == types::squeeze(s).push('_'),
    decreases j.len(),
{
    let d = j.drop_last();
    assert(j[j.len() - 1] == j.last());
    assert((s + j).drop_last() =~= s + d);
    assert((s + j).last() == j.last());
    if d.len() == 0 {
        assert(s + d =~= s);
        if s.len() > 0 {
            assert((s + j)[(s + j).len() - 2] == s.last());
        } else {
            assert(types::squeeze(s) =~= Seq::empty());
        }
    } else {
        assert forall|i: int| 0 <= i < d.len() implies !text::is_alnum(#[trigger] d[i]) by {
            assert(d[i] == j[i]);
        }
        lemma_squeeze_junk(s, d);
        assert((s + j)[(s + j).len() - 2] == d[d.len() - 1]);
        assert(d.last() == d[d.len() - 1]);
    }
}

proof fn lemma_squeeze_front(j: Seq<char>, s: Seq<char>)
    requires
        is_junk(j),
        j.len() > 0,
        s.len() > 0,
        text::is_alnum(s[0]),
    ensures
        types::squeeze(j + s) == seq!['_'] + types::squeeze(s),
    decreases s.len(),
{
    let e = Seq::<char>::empty();
    let d = s.drop_last();
    let w = j + s;
    assert(w.drop_last() =~= j + d);
    assert(w.last() == s.last());
    if d.len() == 0 {
        lemma_squeeze_junk(e, j);
        assert(e + j =~= j);
        assert(j + d =~= j);
        assert(types::squeeze(e) =~= e);
        assert(types::squeeze(d) =~= e);
        assert(s[0] == s.last());
        assert(types::squeeze(j) =~= seq!['_']);
        assert(types::squeeze(s) =~= e.push(text::lower_char(s.last())));
        assert(types::squeeze(w) =~= seq!['_'] + types::squeeze(s));
    } else {
        assert(d[0] == s[0]);
        lemma_squeeze_front(j, d);
        assert(w[w.len() - 2] == s[s.len() - 2]);
        assert(types::squeeze(w) =~= seq!['_'] + types::squeeze(s));
    }
}

proof fn lemma_squeeze_ends(s: Seq<char>)
    requires
        s.len() > 0,
    ensures
        types::squeeze(s).len() > 0,
        text::is_alnum(s[0]) ==> types::squeeze(s)[0] != '_',
        text::is_alnum(s.last()) ==> types::squeeze(s).last() != '_',
    decreases s.len(),
{
    let d = s.drop_last();
    if d.len() > 0 {
        lemma_squeeze_ends(d);
        assert(d[0] == s[0]);
        assert(types::squeeze(s)[0] == types::squeeze(d)[0]);
    } else {
        assert(types::squeeze(d) =~= Seq::empty());
        assert(s[0] == s.last());
    }
}

proof fn lemma_strip_none(q: Seq<char>)
    requires
        q.len() > 0 ==> q[0] != '_' && q.last() != '_',
    ensures
        text::strip_both(q, '_') == q,
{
}

/// How a name is put into an id: letters and digits stay, in small letters;
/// whatever stands between them becomes one underscore, and whatever stands
/// around them is left out.
pub proof fn law_name_is_put_into_an_id(s: Seq<char>, junk: Seq<char>, w: Seq<char>)
    requires
        has_clean_ends(s),
        is_junk(junk),
        junk.len() > 0,
        is_alnum_text(w),
        w.len() > 0,
    ensures
        types::normalized(w) == text::lower(w),
        types::normalized(s + junk + w) == types::normalized(s) + "_"@ + text::lower(w),
        types::normalized(junk + s) == types::normalized(s),
        types::normalized(s + junk) == types::normalized(s),
        types::normalized(junk).len() == 0,
{
    reveal_strlit("_");
    let e = Seq::<char>::empty();
    assert(types::squeeze(e) =~= e);
    lemma_squeeze_more(e, w);
    assert(e + w =~= w);
    assert(e + text::lower(w) =~= text::lower(w));
    assert(text::is_alnum(w[0]) && text::is_alnum(w[w.len() - 1]));
    lemma_squeeze_ends(w);
    lemma_strip_none(types::squeeze(w));
    lemma_squeeze_ends(s);
    lemma_strip_none(types::squeeze(s));
    lemma_squeeze_junk(s, junk);
    lemma_squeeze_more(s + junk, w);
    let q = types::squeeze(s + junk + w);
    assert(q =~= types::squeeze(s) + "_"@ + text::lower(w));
    assert((s + junk + w)[0] == s[0]);
    assert((s + junk + w).last() == w[w.len() - 1]);
    lemma_squeeze_ends(s + junk + w);
    lemma_strip_none(q);
    let k = types::squeeze(s);
    // Behind the name.
    assert(k.push('_').drop_last() =~= k);
    assert(k.push('_')[0] == k[0]);
    assert(text::strip_lead(k.push('_'), '_') == k.push('_'));
    assert(text::strip_trail(k.push('_'), '_') == text::strip_trail(k, '_'));
    assert(text::strip_trail(k, '_') == k);
    // In front of it.
    lemma_squeeze_front(junk, s);
    let f = seq!['_'] + k;
    assert(f.drop_first() =~= k);
    assert(text::strip_lead(f, '_') == text::strip_lead(k, '_'));
    assert(text::strip_lead(k, '_') == k);
    // Alone.
    lemma_squeeze_junk(e, junk);
    assert(e + junk =~= junk);
    let j = types::squeeze(junk);
    assert(j =~= seq!['_']);
    assert(j.drop_first() =~= e);
    assert(text::strip_lead(j, '_') == text::strip_lead(e, '_'));
    assert(text::strip_lead(e, '_') == e);
    assert(text::strip_trail(e, '_') == e);
}

proof fn lemma_non_empty_push(x: Seq<Seq<char>>, p: Seq<char>)
    ensures
        types::non_empty(x.push(p)) == (if p.len() > 0 {
            types::non_empty(x).push(p)
        } else {
            types::non_empty(x)
        }),
{
    assert(x.push(p).drop_last() =~= x);
}

/// The id of what stands in something is the id of that, a dot, and its own name
/// as it is put into an id: so a symbol has the id of its file in front of its
/// name, and a file that of its directories.
pub proof fn law_id_goes_by_what_it_stands_in(
    project: Seq<char>,
    path: Seq<Seq<char>>,
    place: Seq<char>,
    name: Seq<char>,
)
    requires
        types::normalized(place).len() > 0,
        types::normalized(name).len() > 0,
        types::normalized(project).len() > 0,
    ensures
        types::qualified(project, path.push(place), name) == types::qualified(project, path, place)
            + "."@ + types::normalized(name),
        types::qualified(project, Seq::empty(), name) == types::normalized(project) + "."@
            + types::normalized(name),
{
    let f = |s: Seq<char>| types::normalized(s);
    let a = (seq![project] + path).push(place);
    let b = (seq![project] + path.push(place)).push(name);
    assert(b =~= a.push(name));
    assert(b.map_values(f) =~= a.map_values(f).push(types::normalized(name)));
    lemma_non_empty_push(a.map_values(f), types::normalized(name));
    let x = types::non_empty(a.map_values(f));
    assert(a.map_values(f) =~= (seq![project] + path).map_values(f).push(types::normalized(place)));
    lemma_non_empty_push((seq![project] + path).map_values(f), types::normalized(place));
    assert(x.len() > 0);
    assert(x.push(types::normalized(name)).drop_last() =~= x);
    let e = Seq::<Seq<char>>::empty();
    let c = (seq![project] + e).push(name);
    assert(c =~= seq![project].push(name));
    assert(c.map_values(f) =~= e.push(types::normalized(project)).push(types::normalized(name)));
    lemma_non_empty_push(e, types::normalized(project));
    lemma_non_empty_push(e.push(types::normalized(project)), types::normalized(name));
    assert(types::non_empty(e) =~= e);
    let y = e.push(types::normalized(project));
    assert(y.push(types::normalized(name)).drop_last() =~= y);
    assert(text::join(y, "."@) == types::normalized(project));
}

proof fn lemma_split_last(a: Seq<char>, b: Seq<char>, sep: char)
    requires
        forall|i: int| 0 <= i < b.len() ==> #[trigger] b[i] != sep,
    ensures
        text::split_char(a + seq![sep] + b, sep) == text::split_char(a, sep).push(b),
        text::split_char(b, sep) == seq![b],
    decreases b.len(),
{
    let w = a + seq![sep] + b;
    if b.len() == 0 {
        assert(w.drop_last() =~= a);
        assert(b =~= Seq::empty());
    } else {
        let d = b.drop_last();
        assert(b[b.len() - 1] == b.last());
        assert forall|i: int| 0 <= i < d.len() implies #[trigger] d[i] != sep by {
            assert(d[i] == b[i]);
        }
        lemma_split_last(a, d, sep);
        assert(w.drop_last() =~= a + seq![sep] + d);
        assert(w.last() == b.last());
        let x = text::split_char(a, sep).push(d);
        assert(x.drop_last() =~= text::split_char(a, sep));
        assert(d.push(b.last()) =~= b);
        assert(seq![d].drop_last() =~= Seq::empty());
        assert(seq![d].drop_last().push(b) =~= seq![b]);
    }
}

/// A path is divided at its slashes: what stands behind the last one is the
/// name of the file, and what stands before it is its directories. A slash at
/// the end adds nothing.
pub proof fn law_path_is_divided_at_slashes(a: Seq<char>, b: Seq<char>)
    requires
        b.len() > 0,
        forall|i: int| 0 <= i < b.len() ==> #[trigger] b[i] != '/',
    ensures
        parse::path_parts(b) == seq![b],
        parse::path_parts(a + "/"@ + b) == parse::path_parts(a).push(b),
        parse::path_parts(a + "/"@) == parse::path_parts(a),
        parse::dir_parts(a + "/"@ + b) == parse::path_parts(a),
        parse::file_name(a + "/"@ + b) == b,
        parse::file_name(b) == b,
{
    reveal_strlit("/");
    assert("/"@ =~= seq!['/']);
    let e = Seq::<char>::empty();
    lemma_split_last(a, b, '/');
    lemma_split_last(a, e, '/');
    assert(a + seq!['/'] + e =~= a + "/"@);
    lemma_non_empty_push(text::split_char(a, '/'), b);
    lemma_non_empty_push(text::split_char(a, '/'), e);
    lemma_non_empty_push(Seq::empty(), b);
    assert(Seq::<Seq<char>>::empty().push(b) =~= seq![b]);
    assert(types::non_empty(Seq::empty()) =~= Seq::<Seq<char>>::empty());
    assert(parse::path_parts(a).push(b).drop_last() =~= parse::path_parts(a));
}

/// The language of a file goes by what stands behind its last dot.
pub proof fn law_language_goes_by_the_extension(stem: Seq<char>, ext: Seq<char>)
    requires
        forall|i: int| 0 <= i < ext.len() ==> #[trigger] ext[i] != '.',
    ensures
        ({
            let l = parse::language_of(stem + "."@ + ext);
            &&& l == Some(Language::Rust) <==> ext == "rs"@
            &&& l == Some(Language::Python) <==> ext == "py"@ || ext == "pyi"@
            &&& l == Some(Language::JavaScript) <==> ext == "js"@ || ext == "jsx"@ || ext == "mjs"@
                || ext == "cjs"@
            &&& l == Some(Language::TypeScript) <==> ext == "ts"@ || ext == "mts"@ || ext == "cts"@
            &&& l == Some(Language::Tsx) <==> ext == "tsx"@
            &&& l == Some(Language::Go) <==> ext == "go"@
        }),
{
    reveal_strlit(".");
    assert("."@ =~= seq!['.']);
    lemma_split_last(stem, ext, '.');
    reveal_strlit("rs");
    reveal_strlit("py");
    reveal_strlit("pyi");
    reveal_strlit("js");
    reveal_strlit("jsx");
    reveal_strlit("mjs");
    reveal_strlit("cjs");
    reveal_strlit("ts");
    reveal_strlit("mts");
    reveal_strlit("cts");
    reveal_strlit("tsx");
    reveal_strlit("go");
    assert("rs"@[0] == 'r' && "py"@[0] == 'p' && "pyi"@[0] == 'p' && "js"@[0] == 'j' && "jsx"@[0]
        == 'j' && "mjs"@[1] == 'j' && "cjs"@[1] == 'j' && "ts"@[0] == 't' && "mts"@[1] == 't'
        && "cts"@[1] == 't' && "tsx"@[0] == 't' && "go"@[0] == 'g');
    assert("rs"@.len() == 2 && "py"@.len() == 2 && "pyi"@.len() == 3 && "js"@.len() == 2 && "jsx"@.len()
        == 3 && "mjs"@.len() == 3 && "cjs"@.len() == 3 && "ts"@.len() == 2 && "mts"@.len() == 3
        && "cts"@.len() == 3 && "tsx"@.len() == 3 && "go"@.len() == 2);
    assert("mjs"@[0] == 'm' && "cjs"@[0] == 'c' && "mts"@[0] == 'm' && "cts"@[0] == 'c');
}

/// The ASCII letters of a part of a text in small letters.
pub open spec fn spelled_small(l: Seq<Letter>, i: int, j: int) -> Seq<char> {
    Seq::new((j - i) as nat, |k: int| text::lower_char(l[i + k].c))
}

/// Whether a token begins at a place: there is no letter or digit before it, or
/// a capital behind a small letter is there.
pub open spec fn begins_token(l: Seq<Letter>, i: int) -> bool {
    0 <= i < l.len() && l[i].alphanumeric && (i == 0 || !l[i - 1].alphanumeric || (l[i].uppercase
        && l[i - 1].lowercase))
}

/// Whether a part of a text is one token of it.
pub open spec fn is_token(l: Seq<Letter>, i: int, j: int) -> bool {
    &&& 0 <= i < j <= l.len()
    &&& begins_token(l, i)
    &&& forall|k: int| i < k < j ==> (#[trigger] l[k]).alphanumeric && !begins_token(l, k)
    &&& j < l.len() ==> !l[j].alphanumeric || begins_token(l, j)
}

/// Whether a part of a text is the token that is open at its end.
spec fn is_open(l: Seq<Letter>, i: int) -> bool {
    &&& 0 <= i < l.len()
    &&& begins_token(l, i)
    &&& forall|k: int| i < k < l.len() ==> (#[trigger] l[k]).alphanumeric && !begins_token(l, k)
}

proof fn lemma_tokens(l: Seq<Letter>)
    ensures
        ({
            let (done, open, small) = words::path_tokens(l);
            &&& small == (l.len() > 0 && l.last().alphanumeric && l.last().lowercase)
            &&& open.len() == 0 <==> l.len() == 0 || !l.last().alphanumeric
            &&& open.len() > 0 ==> exists|i: int| #[trigger]
                is_open(l, i) && open == spelled_small(l, i, l.len() as int)
            &&& forall|w: Seq<char>| #[trigger]
                done.contains(w) ==> exists|i: int, j: int|
                    j < l.len() && #[trigger] is_token(l, i, j) && w == spelled_small(l, i, j)
            &&& forall|i: int, j: int|
                j < l.len() && #[trigger] is_token(l, i, j) ==> done.contains(
                    spelled_small(l, i, j),
                )
        }),
    decreases l.len(),
{
    let (done, open, small) = words::path_tokens(l);
    if l.len() > 0 {
        let d = l.drop_last();
        let x = l.last();
        let n = d.len() as int;
        let (bdone, bopen, bsmall) = words::path_tokens(d);
        lemma_tokens(d);
        assert forall|k: int| 0 <= k < n implies #[trigger] d[k] == l[k] by {}
        assert forall|i: int| 0 <= i < n implies #[trigger] begins_token(l, i) == begins_token(
            d,
            i,
        ) by {}
        assert forall|i: int, j: int| j < n implies #[trigger] is_token(l, i, j) == is_token(
            d,
            i,
            j,
        ) by {
            assert forall|k: int| i < k < j && 0 <= i implies begins_token(l, k) == begins_token(
                d,
                k,
            ) by {}
            if is_token(d, i, j) {
                assert forall|k: int| i < k < j implies (#[trigger] l[k]).alphanumeric
                    && !begins_token(l, k) by {
                    assert(d[k].alphanumeric && !begins_token(d, k));
                }
            }
            if is_token(l, i, j) {
                assert forall|k: int| i < k < j implies (#[trigger] d[k]).alphanumeric
                    && !begins_token(d, k) by {
                    assert(l[k].alphanumeric && !begins_token(l, k));
                }
            }
        }
        assert forall|i: int, j: int| 0 <= i <= j <= n implies #[trigger] spelled_small(l, i, j)
            == spelled_small(d, i, j) by {
            assert(spelled_small(l, i, j) =~= spelled_small(d, i, j));
        }
        assert forall|w: Seq<char>| #[trigger] bdone.contains(w) implies exists|i: int, j: int|
            j < l.len() && #[trigger] is_token(l, i, j) && w == spelled_small(l, i, j) by {
            let (i, j) = choose|i: int, j: int|
                j < d.len() && #[trigger] is_token(d, i, j) && w == spelled_small(d, i, j);
            assert(is_token(l, i, j));
            assert(spelled_small(l, i, j) == w);
        }
        assert(begins_token(l, n) == (x.alphanumeric && (n == 0 || !d.last().alphanumeric || (
        x.uppercase && d.last().lowercase))));
        // What is open before the last letter ends here or goes on.
        if bopen.len() > 0 {
            let i = choose|i: int| #[trigger]
                is_open(d, i) && bopen == spelled_small(d, i, d.len() as int);
            assert(begins_token(l, i));
            assert forall|k: int| i < k < n implies (#[trigger] l[k]).alphanumeric
                && !begins_token(l, k) by {
                assert(d[k].alphanumeric && !begins_token(d, k));
            }
            if !x.alphanumeric || begins_token(l, n) {
                assert(is_token(l, i, n));
                assert(bopen == spelled_small(l, i, n));
                assert(done == bdone.push(bopen));
                assert(done[bdone.len() as int] == bopen);
                assert(done.contains(bopen));
            } else {
                assert(is_open(l, i));
                assert(open == bopen.push(text::lower_char(x.c)));
                assert(open =~= spelled_small(l, i, l.len() as int));
            }
        }
        if x.alphanumeric && begins_token(l, n) {
            assert(is_open(l, n));
            if bopen.len() == 0 {
                assert(bopen =~= Seq::empty());
            }
            assert(open =~= seq![text::lower_char(x.c)]);
            assert(open =~= spelled_small(l, n, l.len() as int));
        }
        if bopen.len() == 0 && x.alphanumeric {
            assert(begins_token(l, n));
        }
        // No token is lost.
        assert forall|i: int, j: int|
            j < l.len() && #[trigger] is_token(l, i, j) implies done.contains(
            spelled_small(l, i, j),
        ) by {
            if j < n {
                assert(is_token(d, i, j));
                let w = spelled_small(d, i, j);
                assert(bdone.contains(w));
                let q = choose|q: int| 0 <= q < bdone.len() && bdone[q] == w;
                assert(done[q] == w);
            } else {
                assert(j == n);
                assert(d.last() == l[n - 1]);
                assert(l[n - 1].alphanumeric) by {
                    if i < n - 1 {
                        assert(l[n - 1].alphanumeric);
                    }
                }
                assert(bopen.len() > 0);
                let o = choose|o: int| #[trigger]
                    is_open(d, o) && bopen == spelled_small(d, o, d.len() as int);
                if o < i {
                    assert(d[i].alphanumeric && !begins_token(d, i));
                } else if i < o {
                    assert(l[o].alphanumeric && !begins_token(l, o));
                }
                assert(o == i);
                assert(bopen == spelled_small(l, i, n));
                assert(done == bdone.push(bopen));
                assert(done[bdone.len() as int] == bopen);
            }
        }
        assert forall|w: Seq<char>| #[trigger] done.contains(w) implies exists|i: int, j: int|
            j < l.len() && #[trigger] is_token(l, i, j) && w == spelled_small(l, i, j) by {
            let q = choose|q: int| 0 <= q < done.len() && done[q] == w;
            if q < bdone.len() {
                assert(bdone[q] == w);
                assert(bdone.contains(w));
            } else {
                assert(w == bopen && bopen.len() > 0);
                let i = choose|i: int| #[trigger]
                    is_open(d, i) && bopen == spelled_small(d, i, d.len() as int);
                assert(begins_token(l, i));
                assert forall|k: int| i < k < n implies (#[trigger] l[k]).alphanumeric
                    && !begins_token(l, k) by {
                    assert(d[k].alphanumeric && !begins_token(d, k));
                }
                assert(is_token(l, i, n));
                assert(spelled_small(l, i, n) == w);
            }
        }
    }
}

/// Whether a word is one that tests go by.
pub open spec fn is_mark_of_tests(w: Seq<char>) -> bool {
    w == "test"@ || w == "tests"@ || w == "spec"@ || w == "specs"@ || w == "testing"@
}

/// A path is that of a test just where one of its tokens, whole and in any case,
/// is a word that tests go by. A token is a run of letters and digits, and a
/// capital behind a small letter begins one.
pub proof fn law_tests_are_told_by_a_token(path: Seq<char>)
    ensures
        words::test_path(path) <==> exists|i: int, j: int| #[trigger]
            is_token(words::letters(path), i, j) && is_mark_of_tests(
                spelled_small(words::letters(path), i, j),
            ),
{
    let l = words::letters(path);
    let (done, open, small) = words::path_tokens(l);
    lemma_tokens(l);
    let n = l.len() as int;
    assert forall|w: Seq<char>| words::is_test_word(w) == is_mark_of_tests(w) by {}
    reveal_strlit("test");
    reveal_strlit("tests");
    reveal_strlit("spec");
    reveal_strlit("specs");
    reveal_strlit("testing");
    if words::test_path(path) {
        if words::is_test_word(open) {
            assert(open.len() > 0);
            let i = choose|i: int| #[trigger] is_open(l, i) && open == spelled_small(l, i, n);
            assert(is_token(l, i, n));
        } else {
            let q = choose|q: int|
                0 <= q < done.len() && words::is_test_word(#[trigger] done[q]);
            assert(done.contains(done[q]));
            let (i, j) = choose|i: int, j: int|
                j < l.len() && #[trigger] is_token(l, i, j) && done[q] == spelled_small(l, i, j);
            assert(is_token(l, i, j) && is_mark_of_tests(spelled_small(l, i, j)));
        }
    }
    if exists|i: int, j: int| #[trigger]
        is_token(l, i, j) && is_mark_of_tests(spelled_small(l, i, j)) {
        let (i, j) = choose|i: int, j: int| #[trigger]
            is_token(l, i, j) && is_mark_of_tests(spelled_small(l, i, j));
        let w = spelled_small(l, i, j);
        if j < l.len() {
            assert(done.contains(w));
            let q = choose|q: int| 0 <= q < done.len() && done[q] == w;
            assert(words::is_test_word(done[q]));
        } else {
            assert(l[n - 1].alphanumeric);
            assert(l.last() == l[n - 1]);
            let o = choose|o: int| #[trigger] is_open(l, o) && open == spelled_small(l, o, n);
            if o < i {
                assert(l[i].alphanumeric && !begins_token(l, i));
            } else if i < o {
                assert(l[o].alphanumeric && !begins_token(l, o));
            }
            assert(open == w);
        }
    }
}

/// Whether a word of an identifier begins at a place: there is no letter or digit
/// before it; or a capital stands behind a small letter, or behind a capital and
/// before a small letter; or a digit stands behind a letter or a letter behind a
/// digit.
pub open spec fn begins_word(l: Seq<Letter>, i: int) -> bool {
    0 <= i < l.len() && l[i].alphanumeric && (i == 0 || !l[i - 1].alphanumeric || (l[i].uppercase
        && l[i - 1].lowercase) || (l[i].uppercase && l[i - 1].uppercase && i + 1 < l.len() && l[i
        + 1].lowercase) || ('0' <= l[i].c <= '9') != ('0' <= l[i - 1].c <= '9'))
}

/// Whether a part of an identifier is one word of it.
pub open spec fn is_word_of(l: Seq<Letter>, i: int, j: int) -> bool {
    &&& 0 <= i < j <= l.len()
    &&& begins_word(l, i)
    &&& forall|k: int| i < k < j ==> (#[trigger] l[k]).alphanumeric && !begins_word(l, k)
    &&& j < l.len() ==> !l[j].alphanumeric || begins_word(l, j)
}

/// The characters of a part of a text.
pub open spec fn spelled_out(l: Seq<Letter>, i: int, j: int) -> Seq<char> {
    Seq::new((j - i) as nat, |k: int| l[i + k].c)
}

/// Whether a word is open at a place.
spec fn is_open_word(l: Seq<Letter>, i: int, n: int) -> bool {
    &&& 0 <= i < n
    &&& begins_word(l, i)
    &&& forall|k: int| i < k < n ==> (#[trigger] l[k]).alphanumeric && !begins_word(l, k)
}

proof fn lemma_words(l: Seq<Letter>, n: nat)
    requires
        n <= l.len(),
    ensures
        ({
            let (done, open) = words::words_before(l, n);
            &&& open.len() == 0 <==> n == 0 || !l[n - 1].alphanumeric
            &&& open.len() > 0 ==> exists|i: int| #[trigger]
                is_open_word(l, i, n as int) && open == spelled_out(l, i, n as int)
            &&& forall|w: Seq<char>| #[trigger]
                done.contains(w) ==> exists|i: int, j: int|
                    j < n && #[trigger] is_word_of(l, i, j) && w == spelled_out(l, i, j)
            &&& forall|i: int, j: int|
                j < n && #[trigger] is_word_of(l, i, j) ==> done.contains(spelled_out(l, i, j))
        }),
    decreases n,
{
    if n > 0 {
        let m = n - 1;
        let (bdone, bopen) = words::words_before(l, m as nat);
        let (done, open) = words::words_before(l, n);
        let x = l[m];
        lemma_words(l, m as nat);
        assert(x.alphanumeric && bopen.len() > 0 ==> begins_word(l, m) == words::word_boundary(
            l,
            m,
        ));
        assert(x.alphanumeric && bopen.len() == 0 ==> begins_word(l, m));
        if bopen.len() > 0 {
            let i = choose|i: int| #[trigger]
                is_open_word(l, i, m) && bopen == spelled_out(l, i, m);
            if !x.alphanumeric || begins_word(l, m) {
                assert(is_word_of(l, i, m));
                assert(done == bdone.push(bopen));
                assert(done[bdone.len() as int] == bopen);
            } else {
                assert(is_open_word(l, i, n as int));
                assert(open == bopen.push(x.c));
                assert(open =~= spelled_out(l, i, n as int));
            }
        }
        if x.alphanumeric && begins_word(l, m) {
            assert(is_open_word(l, m, n as int));
            if bopen.len() == 0 {
                assert(bopen =~= Seq::empty());
            }
            assert(open =~= seq![x.c]);
            assert(open =~= spelled_out(l, m, n as int));
        }
        assert forall|i: int, j: int|
            j < n && #[trigger] is_word_of(l, i, j) implies done.contains(
            spelled_out(l, i, j),
        ) by {
            if j < m {
                let w = spelled_out(l, i, j);
                assert(bdone.contains(w));
                let q = choose|q: int| 0 <= q < bdone.len() && bdone[q] == w;
                assert(done[q] == w);
            } else {
                assert(j == m);
                assert(l[m - 1].alphanumeric) by {
                    if i < m - 1 {
                        assert(l[m - 1].alphanumeric);
                    }
                }
                assert(bopen.len() > 0);
                let o = choose|o: int| #[trigger]
                    is_open_word(l, o, m) && bopen == spelled_out(l, o, m);
                if o < i {
                    assert(l[i].alphanumeric && !begins_word(l, i));
                } else if i < o {
                    assert(l[o].alphanumeric && !begins_word(l, o));
                }
                assert(o == i);
                assert(done == bdone.push(bopen));
                assert(done[bdone.len() as int] == bopen);
            }
        }
        assert forall|w: Seq<char>| #[trigger] done.contains(w) implies exists|i: int, j: int|
            j < n && #[trigger] is_word_of(l, i, j) && w == spelled_out(l, i, j) by {
            let q = choose|q: int| 0 <= q < done.len() && done[q] == w;
            if q < bdone.len() {
                assert(bdone[q] == w);
                assert(bdone.contains(w));
                let (i, j) = choose|i: int, j: int|
                    j < m && #[trigger] is_word_of(l, i, j) && w == spelled_out(l, i, j);
                assert(is_word_of(l, i, j));
            } else {
                assert(w == bopen && bopen.len() > 0);
                let i = choose|i: int| #[trigger]
                    is_open_word(l, i, m) && bopen == spelled_out(l, i, m);
                assert(is_word_of(l, i, m));
            }
        }
    }
}

/// The words of an identifier are its parts from where a word begins to where the
/// next one does, or to where no letter or digit stands.
pub proof fn law_identifier_is_divided_into_words(l: Seq<Letter>, w: Seq<char>)
    ensures
        words::written_words(l).contains(w) <==> exists|i: int, j: int| #[trigger]
            is_word_of(l, i, j) && w == spelled_out(l, i, j),
{
    let n = l.len() as int;
    let (done, open) = words::words_before(l, l.len());
    let all = words::written_words(l);
    lemma_words(l, l.len());
    if done.contains(w) {
        let q = choose|q: int| 0 <= q < done.len() && done[q] == w;
        assert(all[q] == w);
    }
    if open.len() > 0 {
        assert(all[done.len() as int] == open);
        let i = choose|i: int| #[trigger] is_open_word(l, i, n) && open == spelled_out(l, i, n);
        assert(is_word_of(l, i, n));
    }
    if all.contains(w) {
        let q = choose|q: int| 0 <= q < all.len() && all[q] == w;
        if q < done.len() {
            assert(done[q] == w);
            assert(done.contains(w));
        }
    }
    if exists|i: int, j: int| #[trigger] is_word_of(l, i, j) && w == spelled_out(l, i, j) {
        let (i, j) = choose|i: int, j: int| #[trigger]
            is_word_of(l, i, j) && w == spelled_out(l, i, j);
        if j == n {
            assert(l[n - 1].alphanumeric);
            let o = choose|o: int| #[trigger] is_open_word(l, o, n) && open == spelled_out(l, o, n);
            if o < i {
                assert(l[i].alphanumeric && !begins_word(l, i));
            } else if i < o {
                assert(l[o].alphanumeric && !begins_word(l, o));
            }
            assert(open == w);
        }
    }
}

} // verus!
