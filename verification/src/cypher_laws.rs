//! What the SQL of a query says: every condition of the query and no other, on
//! the columns that are asked for.

use vstd::prelude::*;
use vstd::string::*;

use crate::cypher;
use crate::text;

verus! {

/// A text is found at the first place at which it stands.
pub proof fn lemma_find_is(s: Seq<char>, pat: Seq<char>, from: int, p: int)
    requires
        0 <= from <= p,
        text::occurs_at(s, pat, p),
        forall|i: int| from <= i < p ==> !text::occurs_at(s, pat, i),
    ensures
        text::find_from(s, pat, from) == Some(p),
{
    text::lemma_find_from(s, pat, from);
    if let Some(q) = text::find_from(s, pat, from) {
        if p < q {
            assert(!text::occurs_at(s, pat, p));
        }
    }
}

/// Making letters small goes text by text.
pub proof fn lemma_lower_sum(a: Seq<char>, b: Seq<char>)
    ensures
        text::lower(a + b) == text::lower(a) + text::lower(b),
        text::lower(a).len() == a.len(),
{
    assert(text::lower(a + b) =~= text::lower(a) + text::lower(b));
}

proof fn lemma_count_sum(a: Seq<char>, b: Seq<char>, c: char)
    ensures
        text::count_char(a + b, c) == text::count_char(a, c) + text::count_char(b, c),
    decreases b.len(),
{
    if b.len() == 0 {
        assert(a + b =~= a);
    } else {
        assert((a + b).drop_last() =~= a + b.drop_last());
        lemma_count_sum(a, b.drop_last(), c);
    }
}

proof fn lemma_count_none(a: Seq<char>, c: char)
    requires
        forall|i: int| 0 <= i < a.len() ==> #[trigger] a[i] != c,
    ensures
        text::count_char(a, c) == 0,
    decreases a.len(),
{
    if a.len() > 0 {
        assert(a[a.len() - 1] != c);
        let d = a.drop_last();
        assert forall|i: int| 0 <= i < d.len() implies #[trigger] d[i] != c by {
            assert(d[i] == a[i]);
        }
        lemma_count_none(d, c);
    }
}

/// Where a text stands in a longer one.
proof fn lemma_occurs_in(c: Seq<char>, b: Seq<char>, pat: Seq<char>, i: int)
    ensures
        i >= 0 ==> text::occurs_at(c + b, pat, i + c.len()) == text::occurs_at(b, pat, i),
        0 <= i && i + pat.len() <= c.len() ==> text::occurs_at(c + b, pat, i) == text::occurs_at(
            c,
            pat,
            i,
        ),
{
    let w = c + b;
    if 0 <= i && i + pat.len() <= b.len() {
        assert(w.subrange(i + c.len(), i + c.len() + pat.len()) =~= b.subrange(i, i + pat.len()));
    }
    if 0 <= i && i + pat.len() <= c.len() {
        assert(w.subrange(i, i + pat.len()) =~= c.subrange(i, i + pat.len()));
    }
}

proof fn lemma_parts_behind(c: Seq<char>, b: Seq<char>, start: nat, from: nat)
    requires
        text::count_char(c, '\'') % 2 == 0,
        start <= from <= b.len(),
    ensures
        cypher::and_parts(c + b, start + c.len(), from + c.len()) == cypher::and_parts(
            b,
            start,
            from,
        ),
    decreases b.len() - from,
{
    let w = c + b;
    let k = c.len();
    let word = " and "@;
    reveal_strlit(" and ");
    lemma_lower_sum(c, b);
    let (lw, lb) = (text::lower(w), text::lower(b));
    assert forall|i: int| 0 <= i implies #[trigger] text::occurs_at(lw, word, i + k)
        == text::occurs_at(lb, word, i) by {
        lemma_occurs_in(text::lower(c), lb, word, i);
    }
    text::lemma_find_from(lb, word, from as int);
    text::lemma_find_from(lw, word, (from + k) as int);
    match text::find_from(lb, word, from as int) {
        Some(p) => {
            assert(text::occurs_at(lw, word, p + k));
            assert forall|i: int| from + k <= i < p + k implies !text::occurs_at(lw, word, i) by {
                assert(text::occurs_at(lw, word, (i - k) + k) == text::occurs_at(lb, word, i - k));
            }
            lemma_find_is(lw, word, (from + k) as int, p + k);
            let next = (p + 5) as nat;
            assert(lb.len() == b.len());
            assert(w.take(p + k) =~= c + b.take(p));
            lemma_count_sum(c, b.take(p), '\'');
            if text::count_char(b.take(p), '\'') % 2 == 1 {
                assert(text::count_char(w.take(p + k), '\'') % 2 == 1);
                lemma_parts_behind(c, b, start, next);
            } else {
                assert(text::count_char(w.take(p + k), '\'') % 2 == 0);
                lemma_parts_behind(c, b, next, next);
                assert(w.subrange((start + k) as int, p + k) =~= b.subrange(start as int, p));
            }
        },
        None => {
            if let Some(q) = text::find_from(lw, word, (from + k) as int) {
                assert(text::occurs_at(lw, word, (q - k) + k));
            }
            assert(w.skip((start + k) as int) =~= b.skip(start as int));
        },
    }
}

/// Whether `AND` can be put behind a condition: no quoted value is open there,
/// and no other `AND` is left without its second space.
pub open spec fn is_whole_condition(a: Seq<char>) -> bool {
    &&& text::count_char(a, '\'') % 2 == 0
    &&& !" and"@.is_suffix_of(text::lower(a))
}

proof fn lemma_parts_around(a: Seq<char>, word: Seq<char>, b: Seq<char>, start: nat, from: nat)
    requires
        is_whole_condition(a),
        text::lower(word) == " and "@,
        text::count_char(word, '\'') == 0,
        start <= from <= a.len(),
    ensures
        cypher::and_parts(a + word + b, start, from) == cypher::and_parts(a, start, from)
            + cypher::and_parts(b, 0, 0),
    decreases a.len() - from,
{
    let c = a + word;
    let w = c + b;
    let pat = " and "@;
    reveal_strlit(" and ");
    reveal_strlit(" and");
    lemma_lower_sum(a, word);
    lemma_lower_sum(c, b);
    lemma_count_sum(a, word, '\'');
    let (lw, la) = (text::lower(w), text::lower(a));
    assert(lw =~= la + (pat + text::lower(b)));
    assert(word.len() == 5);
    assert forall|i: int| 0 <= i < a.len() implies #[trigger] text::occurs_at(lw, pat, i)
        == text::occurs_at(la, pat, i) by {
        lemma_occurs_in(la, pat + text::lower(b), pat, i);
        if i + 5 > a.len() {
            if text::occurs_at(lw, pat, i) {
                let sub = lw.subrange(i, i + 5);
                let j = a.len() - i;
                assert(sub[j] == lw[a.len() as int]);
                assert(lw[a.len() as int] == ' ');
                assert(pat[1] == 'a' && pat[2] == 'n' && pat[3] == 'd');
                assert(j == 4);
                assert(la.subrange(i, i + 4) =~= " and"@) by {
                    assert forall|m: int| 0 <= m < 4 implies la.subrange(i, i + 4)[m]
                        == " and"@[m] by {
                        assert(sub[m] == lw[i + m]);
                        assert(pat[m] == " and"@[m]);
                    }
                }
                assert(" and"@.is_suffix_of(la));
            }
        }
    }
    assert(text::occurs_at(lw, pat, a.len() as int)) by {
        assert(lw.subrange(a.len() as int, (a.len() + 5) as int) =~= pat);
    }
    text::lemma_find_from(la, pat, from as int);
    match text::find_from(la, pat, from as int) {
        Some(p) => {
            assert forall|i: int| from <= i < p implies !text::occurs_at(lw, pat, i) by {
                assert(text::occurs_at(lw, pat, i) == text::occurs_at(la, pat, i));
            }
            assert(text::occurs_at(lw, pat, p) == text::occurs_at(la, pat, p));
            lemma_find_is(lw, pat, from as int, p);
            let next = (p + 5) as nat;
            assert(w.take(p) =~= a.take(p));
            if text::count_char(a.take(p), '\'') % 2 == 1 {
                lemma_parts_around(a, word, b, start, next);
            } else {
                lemma_parts_around(a, word, b, next, next);
                assert(w.subrange(start as int, p) =~= a.subrange(start as int, p));
                let one = seq![a.subrange(start as int, p)];
                assert(one + (cypher::and_parts(a, next, next) + cypher::and_parts(b, 0, 0))
                    =~= (one + cypher::and_parts(a, next, next)) + cypher::and_parts(b, 0, 0));
            }
        },
        None => {
            assert forall|i: int| from <= i < a.len() implies !text::occurs_at(lw, pat, i) by {
                assert(text::occurs_at(lw, pat, i) == text::occurs_at(la, pat, i));
            }
            lemma_find_is(lw, pat, from as int, a.len() as int);
            let next = c.len();
            assert(w.take(a.len() as int) =~= a);
            lemma_parts_behind(c, b, 0, 0);
            assert(w.subrange(start as int, a.len() as int) =~= a.skip(start as int));
        },
    }
}

/// The SQL of two lists of texts is that of the one, then that of the other.
pub proof fn lemma_all_sum(
    x: Seq<Seq<char>>,
    y: Seq<Seq<char>>,
    f: spec_fn(Seq<char>) -> Result<Seq<char>, Seq<char>>,
)
    ensures
        cypher::all_sql(x + y, f) == (match (cypher::all_sql(x, f), cypher::all_sql(y, f)) {
            (Err(e), _) => Err::<Seq<Seq<char>>, Seq<char>>(e),
            (Ok(_), Err(e)) => Err(e),
            (Ok(u), Ok(v)) => Ok(u + v),
        }),
    decreases y.len(),
{
    if y.len() == 0 {
        assert(x + y =~= x);
        if let Ok(u) = cypher::all_sql(x, f) {
            assert(u + Seq::<Seq<char>>::empty() =~= u);
        }
    } else {
        assert((x + y).drop_last() =~= x + y.drop_last());
        lemma_all_sum(x, y.drop_last(), f);
        if let (Ok(u), Ok(v)) = (cypher::all_sql(x, f), cypher::all_sql(y, f)) {
            let d = cypher::all_sql(y.drop_last(), f)->Ok_0;
            assert((u + d).push(v.last()) =~= u + v);
        }
    }
}

proof fn lemma_all_len(
    x: Seq<Seq<char>>,
    f: spec_fn(Seq<char>) -> Result<Seq<char>, Seq<char>>,
)
    ensures
        cypher::all_sql(x, f) matches Ok(u) ==> u.len() == x.len() && forall|i: int|
            0 <= i < x.len() ==> f(#[trigger] x[i]) == Ok::<Seq<char>, Seq<char>>(u[i]),
    decreases x.len(),
{
    if x.len() > 0 {
        lemma_all_len(x.drop_last(), f);
        if let Ok(u) = cypher::all_sql(x, f) {
            let d = cypher::all_sql(x.drop_last(), f)->Ok_0;
            assert forall|i: int| 0 <= i < x.len() implies f(#[trigger] x[i]) == Ok::<
                Seq<char>,
                Seq<char>,
            >(u[i]) by {
                if i < d.len() {
                    assert(x.drop_last()[i] == x[i]);
                }
            }
        }
    }
}

/// Joining two lists puts what separates their parts between them too.
pub proof fn lemma_join_sum(x: Seq<Seq<char>>, y: Seq<Seq<char>>, sep: Seq<char>)
    requires
        x.len() > 0,
        y.len() > 0,
    ensures
        text::join(x + y, sep) == text::join(x, sep) + sep + text::join(y, sep),
    decreases y.len(),
{
    if y.len() == 1 {
        assert((x + y).drop_last() =~= x);
    } else {
        assert((x + y).drop_last() =~= x + y.drop_last());
        lemma_join_sum(x, y.drop_last(), sep);
        assert(text::join(x + y, sep) =~= text::join(x, sep) + sep + text::join(y, sep));
    }
}

proof fn lemma_parts_some(w: Seq<char>, start: nat, from: nat)
    ensures
        cypher::and_parts(w, start, from).len() > 0,
    decreases w.len() + 1 - from,
{
    text::lemma_find_from(text::lower(w), " and "@, from as int);
    reveal_strlit(" and ");
    if let Some(p) = text::find_from(text::lower(w), " and "@, from as int) {
        lemma_parts_some(w, start, (p + 5) as nat);
        lemma_parts_some(w, (p + 5) as nat, (p + 5) as nat);
    }
}

/// A text in round brackets.
pub open spec fn in_brackets(s: Seq<char>) -> Seq<char> {
    "("@ + s + ")"@
}

/// What two conditions with `AND` between them ask for is what both ask for: the
/// SQL of the first, `AND`, and the SQL of the second, in one pair of brackets.
/// Where one of them is refused, so are both.
pub proof fn law_both_conditions_are_asked_for(a: Seq<char>, word: Seq<char>, b: Seq<char>)
    requires
        is_whole_condition(a),
        text::lower(word) == " and "@,
        text::count_char(word, '\'') == 0,
    ensures
        match (cypher::where_sql(a), cypher::where_sql(b)) {
            (Ok(x), Ok(y)) => exists|u: Seq<char>, v: Seq<char>|
                x == #[trigger] in_brackets(u) && y == #[trigger] in_brackets(v)
                    && cypher::where_sql(a + word + b) == Ok::<Seq<char>, Seq<char>>(
                    in_brackets(u + " AND "@ + v),
                ),
            (Err(e), _) => cypher::where_sql(a + word + b) == Err::<Seq<char>, Seq<char>>(e),
            (_, Err(e)) => cypher::where_sql(a + word + b) == Err::<Seq<char>, Seq<char>>(e),
        },
{
    let f = |c: Seq<char>| cypher::clause_sql(c);
    let (p, q) = (cypher::and_parts(a, 0, 0), cypher::and_parts(b, 0, 0));
    lemma_parts_around(a, word, b, 0, 0);
    lemma_all_sum(p, q, f);
    lemma_parts_some(a, 0, 0);
    lemma_parts_some(b, 0, 0);
    lemma_all_len(p, f);
    lemma_all_len(q, f);
    if let (Ok(x), Ok(y)) = (cypher::where_sql(a), cypher::where_sql(b)) {
        let m = cypher::all_sql(p, f)->Ok_0;
        let n = cypher::all_sql(q, f)->Ok_0;
        lemma_join_sum(m, n, " AND "@);
        let u = text::join(m, " AND "@);
        let v = text::join(n, " AND "@);
        assert(x == in_brackets(u) && y == in_brackets(v));
        assert(cypher::all_sql(p + q, f) == Ok::<Seq<Seq<char>>, Seq<char>>(m + n));
        assert(cypher::where_sql(a + word + b) == Ok::<Seq<char>, Seq<char>>(
            in_brackets(u + " AND "@ + v),
        ));
    }
}

/// Whether a property of a query is kept in the column.
pub open spec fn is_kept_in(prop: Seq<char>, column: Seq<char>) -> bool {
    ||| column == "name"@ && prop == "name"@
    ||| column == "file_path"@ && (prop == "file"@ || prop == "file_path"@)
    ||| column == "line_start"@ && (prop == "line"@ || prop == "line_start"@)
    ||| column == "label"@ && (prop == "label"@ || prop == "kind"@)
    ||| column == "language"@ && (prop == "language"@ || prop == "lang"@)
    ||| column == "id"@ && prop == "id"@
    ||| column == "pagerank"@ && prop == "pagerank"@
}

/// Whether a text is a word of ASCII letters, digits and underscores.
pub open spec fn is_word(s: Seq<char>) -> bool {
    forall|i: int|
        0 <= i < s.len() ==> ('a' <= #[trigger] s[i] <= 'z' || 'A' <= s[i] <= 'Z' || '0' <= s[i]
            <= '9' || s[i] == '_')
}

proof fn lemma_kept_in(prop: Seq<char>, column: Seq<char>)
    requires
        is_kept_in(prop, column),
    ensures
        cypher::column(prop) == Some(column),
        is_word(prop),
        prop.len() > 0,
{
    reveal_strlit("name");
    reveal_strlit("file");
    reveal_strlit("file_path");
    reveal_strlit("line");
    reveal_strlit("line_start");
    reveal_strlit("label");
    reveal_strlit("kind");
    reveal_strlit("language");
    reveal_strlit("lang");
    reveal_strlit("id");
    reveal_strlit("pagerank");
    assert("name"@[0] == 'n' && "file"@[0] == 'f' && "line"@[0] == 'l' && "line"@[1] == 'i');
    assert("label"@[1] == 'a' && "kind"@[0] == 'k' && "language"@[0] == 'l' && "lang"@[1] == 'a');
    assert("pagerank"@[0] == 'p' && "file_path"@[0] == 'f' && "line_start"@[0] == 'l');
    assert("label"@.len() == 5 && "language"@.len() == 8 && "lang"@.len() == 4);
}

/// A property of a query is read from its own column and no other.
pub proof fn law_property_is_read_from_its_column(
    var: Seq<char>,
    prop: Seq<char>,
    column: Seq<char>,
)
    requires
        is_word(var),
        is_kept_in(prop, column),
    ensures
        cypher::prop_sql(var + "."@ + prop) == Ok::<Seq<char>, Seq<char>>(var + "."@ + column),
{
    let p = var + "."@ + prop;
    reveal_strlit(".");
    lemma_kept_in(prop, column);
    lemma_first_mark(var, '.', prop);
    assert(seq!['.'] =~= "."@);
    lemma_trim_word(var);
    lemma_trim_word(prop);
    assert(cypher::is_ident(var)) by {
        assert forall|i: int| 0 <= i < var.len() implies text::is_alnum(#[trigger] var[i]) || var[i]
            == '_' by {}
    }
}

/// A text without white space at its ends is not trimmed.
pub proof fn lemma_trim_word(s: Seq<char>)
    requires
        s.len() > 0 ==> !text::is_space(s[0]) && !text::is_space(s.last()),
    ensures
        text::trim(s) == s,
{
    if s.len() > 0 {
        text::lemma_trim_bounds(s, 0, s.len() as int);
        assert(s.subrange(0, s.len() as int) =~= s);
    }
}

/// A text is cut at the first place of a mark.
pub proof fn lemma_first_mark(a: Seq<char>, c: char, b: Seq<char>)
    requires
        !text::is_upper(c),
        !text::is_lower(c),
        forall|i: int| 0 <= i < a.len() ==> #[trigger] a[i] != c,
    ensures
        text::cut(a + seq![c] + b, seq![c]) == Some((a, b)),
{
    let s = a + seq![c] + b;
    let l = text::lower(s);
    let p = a.len() as int;
    assert(l[p] == c);
    assert(text::occurs_at(l, seq![c], p)) by {
        assert(l.subrange(p, p + 1) =~= seq![c]);
    }
    assert forall|i: int| 0 <= i < p implies !text::occurs_at(l, seq![c], i) by {
        if text::occurs_at(l, seq![c], i) {
            assert(l.subrange(i, i + 1)[0] == l[i]);
            assert(l[i] == text::lower_char(s[i]));
            assert(s[i] == a[i]);
        }
    }
    lemma_find_is(l, seq![c], 0, p);
    assert(s.take(p) =~= a);
    assert(s.skip(p + 1) =~= b);
}

proof fn lemma_one_part(w: Seq<char>, start: nat, from: nat)
    requires
        forall|p: int| #[trigger]
            text::occurs_at(text::lower(w), " and "@, p) ==> text::count_char(w.take(p), '\'') % 2
                == 1,
    ensures
        cypher::and_parts(w, start, from) == seq![w.skip(start as int)],
    decreases w.len() + 1 - from,
{
    text::lemma_find_from(text::lower(w), " and "@, from as int);
    reveal_strlit(" and ");
    if let Some(p) = text::find_from(text::lower(w), " and "@, from as int) {
        lemma_one_part(w, start, (p + 5) as nat);
    }
}

/// Whether a text has no single quote.
pub open spec fn is_unquoted(s: Seq<char>) -> bool {
    forall|i: int| 0 <= i < s.len() ==> #[trigger] s[i] != '\''
}

/// A condition on a property, with its value in single quotes.
pub open spec fn condition(
    var: Seq<char>,
    prop: Seq<char>,
    operator: Seq<char>,
    v: Seq<char>,
) -> Seq<char> {
    var + "."@ + prop + operator + "'"@ + v + "'"@
}

/// What holds of the texts of conditions: where white space and quotes stand.
proof fn lemma_condition(
    var: Seq<char>,
    prop: Seq<char>,
    column: Seq<char>,
    operator: Seq<char>,
    v: Seq<char>,
)
    requires
        is_word(var),
        is_kept_in(prop, column),
        is_unquoted(v),
        is_unquoted(operator),
        operator.len() > 0,
        !text::has_text(text::lower(operator), " and "@),
        forall|i: int|
            0 <= i < operator.len() - 4 ==> !(#[trigger] operator[i] == ' ' && operator[i + 4]
                == ' '),
    ensures
        ({
            let w = condition(var, prop, operator, v);
            let lhs = var + "."@ + prop;
            &&& cypher::and_parts(w, 0, 0) == seq![w]
            &&& text::trim(w) == w
            &&& w == lhs + operator + ("'"@ + v + "'"@)
            &&& text::trim(lhs) == lhs
            &&& forall|i: int| 0 <= i < lhs.len() ==> !text::is_space(#[trigger] lhs[i]) && lhs[i]
                != '='
            &&& cypher::raw_value("'"@ + v + "'"@) == Some(v)
            &&& cypher::raw_value(" '"@ + v + "'"@) == Some(v)
        }),
{
    let w = condition(var, prop, operator, v);
    let lhs = var + "."@ + prop;
    let head = lhs + operator;
    let tail = "'"@ + v + "'"@;
    reveal_strlit(".");
    reveal_strlit("'");
    reveal_strlit(" '");
    reveal_strlit(" and ");
    lemma_kept_in(prop, column);
    assert forall|i: int| 0 <= i < lhs.len() implies !text::is_space(#[trigger] lhs[i]) && lhs[i]
        != '=' && lhs[i] != '\'' by {
        if i < var.len() {
            assert(lhs[i] == var[i]);
        } else if i > var.len() {
            assert(lhs[i] == prop[i - var.len() - 1]);
        }
    }
    lemma_trim_word(lhs);
    assert(w =~= lhs + operator + tail);
    assert(w[0] == lhs[0]);
    assert(w.last() == '\'');
    lemma_trim_word(w);
    lemma_trim_word(tail);
    let inner = tail.subrange(1, tail.len() - 1);
    assert(inner =~= v);
    assert(cypher::is_quoted(tail, '\'')) by {
        assert forall|i: int| 0 < i < tail.len() - 1 implies #[trigger] tail[i] != '\'' by {
            assert(tail[i] == v[i - 1]);
        }
    }
    let spaced = " '"@ + v + "'"@;
    assert(spaced =~= seq![' '] + tail + Seq::<char>::empty());
    text::lemma_trim_within(tail, seq![' '], Seq::empty());
    let lw = text::lower(w);
    assert forall|p: int| #[trigger] text::occurs_at(lw, " and "@, p) implies text::count_char(
        w.take(p),
        '\'',
    ) % 2 == 1 by {
        let sub = lw.subrange(p, p + 5);
        assert forall|m: int| 0 <= m < 5 implies text::lower_char(#[trigger] w[p + m])
            == " and "@[m] by {
            assert(sub[m] == lw[p + m]);
        }
        assert(text::lower_char(w[p + 0]) == ' ');
        assert(text::lower_char(w[p + 1]) == 'a');
        assert(text::lower_char(w[p + 2]) == 'n');
        assert(text::lower_char(w[p + 3]) == 'd');
        assert(text::lower_char(w[p + 4]) == ' ');
        assert(w[p] == ' ' && w[p + 4] == ' ');
        let h = head.len() as int;
        assert(w[h] == '\'');
        assert(w[w.len() - 1] == '\'');
        if p < h {
            if p + 4 >= h {
                assert(text::lower_char('\'') == '\'');
                assert(w[p + (h - p)] == '\'');
            } else {
                let l = lhs.len() as int;
                if p < l {
                    assert(w[p] == lhs[p]);
                } else {
                    assert(w[p] == operator[p - l] && w[p + 4] == operator[p - l + 4]);
                }
            }
        }
        assert(p > h);
        assert(w.take(p) =~= head + seq!['\''] + v.take(p - h - 1));
        assert forall|i: int| 0 <= i < head.len() implies #[trigger] head[i] != '\'' by {
            if i < lhs.len() {
                assert(head[i] == lhs[i]);
            } else {
                assert(head[i] == operator[i - lhs.len()]);
            }
        }
        assert forall|i: int| 0 <= i < v.take(p - h - 1).len() implies #[trigger] v.take(
            p - h - 1,
        )[i] != '\'' by {
            assert(v.take(p - h - 1)[i] == v[i]);
        }
        lemma_count_none(head, '\'');
        lemma_count_none(v.take(p - h - 1), '\'');
        lemma_count_sum(head, seq!['\''], '\'');
        lemma_count_sum(head + seq!['\''], v.take(p - h - 1), '\'');
        let q = seq!['\''];
        assert(q.drop_last() =~= Seq::empty());
        assert(text::count_char(q.drop_last(), '\'') == 0);
        assert(text::count_char(q, '\'') == 1);
    }
    lemma_one_part(w, 0, 0);
    assert(w.skip(0) =~= w);
}

proof fn lemma_one_clause(w: Seq<char>)
    requires
        cypher::and_parts(w, 0, 0) == seq![w],
    ensures
        cypher::where_sql(w) == (match cypher::clause_sql(w) {
            Ok(s) => Ok::<Seq<char>, Seq<char>>(in_brackets(s)),
            Err(e) => Err(e),
        }),
{
    let f = |c: Seq<char>| cypher::clause_sql(c);
    let x = seq![w];
    assert(x.drop_last() =~= Seq::empty());
    assert(cypher::all_sql(x.drop_last(), f) == Ok::<Seq<Seq<char>>, Seq<char>>(Seq::empty()));
    if let Ok(s) = cypher::clause_sql(w) {
        assert(cypher::all_sql(x, f) == Ok::<Seq<Seq<char>>, Seq<char>>(Seq::empty().push(s)));
        assert(Seq::empty().push(s) =~= seq![s]);
    }
}

/// A keyword stands first where it was put, behind a text without its first
/// character.
proof fn lemma_keyword(lhs: Seq<char>, spelled: Seq<char>, rest: Seq<char>, word: Seq<char>)
    requires
        text::lower(spelled) == word,
        word.len() > 0,
        word[0] == ' ',
        forall|i: int| 0 <= i < lhs.len() ==> #[trigger] lhs[i] != ' ',
    ensures
        text::cut(lhs + spelled + rest, word) == Some((lhs, rest)),
{
    let s = lhs + spelled + rest;
    let l = text::lower(s);
    let p = lhs.len() as int;
    assert(text::lower(spelled).len() == spelled.len());
    assert(l.subrange(p, p + word.len()) =~= word) by {
        assert forall|m: int| 0 <= m < word.len() implies l.subrange(p, p + word.len())[m]
            == word[m] by {
            assert(s[p + m] == spelled[m]);
            assert(text::lower(spelled)[m] == text::lower_char(spelled[m]));
        }
    }
    assert forall|i: int| 0 <= i < p implies !text::occurs_at(l, word, i) by {
        if text::occurs_at(l, word, i) {
            assert(l.subrange(i, i + word.len())[0] == l[i]);
            assert(l[i] == text::lower_char(s[i]));
            assert(s[i] == lhs[i]);
        }
    }
    lemma_find_is(l, word, 0, p);
    assert(s.take(p) =~= lhs);
    assert(s.skip(p + word.len()) =~= rest);
}

/// What a pattern of `LIKE` between its wildcards matches is the value itself.
pub open spec fn is_pattern_of(pattern: Seq<char>, v: Seq<char>) -> bool {
    &&& cypher::quotes_paired(pattern)
    &&& cypher::no_wildcard(cypher::unquote(pattern))
    &&& cypher::like_plain(cypher::unquote(pattern)) == v
}

/// `CONTAINS` asks whether the column has the value anywhere: a pattern with a
/// wildcard on both sides of the value, which is taken as it stands.
pub proof fn law_contains_looks_anywhere(
    var: Seq<char>,
    prop: Seq<char>,
    column: Seq<char>,
    operator: Seq<char>,
    v: Seq<char>,
)
    requires
        is_word(var),
        is_kept_in(prop, column),
        text::lower(operator) == " contains "@,
        is_unquoted(v),
    ensures
        exists|pattern: Seq<char>| #[trigger]
            is_pattern_of(pattern, v) && cypher::where_sql(condition(var, prop, operator, v))
                == Ok::<Seq<char>, Seq<char>>(
                in_brackets(var + "."@ + column + " LIKE '%"@ + pattern + "%' ESCAPE '\\'"@),
            ),
{
    let w = condition(var, prop, operator, v);
    let lhs = var + "."@ + prop;
    lemma_operator(operator, " contains "@);
    lemma_condition(var, prop, column, operator, v);
    assert forall|i: int| 0 <= i < lhs.len() implies #[trigger] lhs[i] != ' ' by {
        assert(!text::is_space(lhs[i]));
    }
    lemma_keyword(lhs, operator, "'"@ + v + "'"@, " contains "@);
    law_property_is_read_from_its_column(var, prop, column);
    lemma_one_clause(w);
    let pattern = cypher::escape(v, true);
    cypher::law_like_value_is_literal(v);
    assert(is_pattern_of(pattern, v));
}

proof fn lemma_operator(operator: Seq<char>, word: Seq<char>)
    requires
        text::lower(operator) == word,
        word == " contains "@ || word == " starts with "@,
    ensures
        is_unquoted(operator),
        operator.len() == word.len(),
        word.len() > 5,
        word[0] == ' ',
        !text::has_text(text::lower(operator), " and "@),
        forall|i: int|
            0 <= i < operator.len() - 4 ==> !(#[trigger] operator[i] == ' ' && operator[i + 4]
                == ' '),
{
    reveal_strlit(" contains ");
    reveal_strlit(" starts with ");
    reveal_strlit(" and ");
    assert(text::lower(operator).len() == operator.len());
    assert forall|i: int| 0 <= i < operator.len() implies word[i] == text::lower_char(
        #[trigger] operator[i],
    ) by {
        assert(text::lower(operator)[i] == text::lower_char(operator[i]));
    }
    assert forall|i: int| 0 <= i < operator.len() implies #[trigger] operator[i] != '\'' by {
        assert(word[i] == text::lower_char(operator[i]));
    }
    assert forall|i: int| 0 <= i < operator.len() - 4 implies !(#[trigger] operator[i] == ' '
        && operator[i + 4] == ' ') by {
        assert(word[i] == text::lower_char(operator[i]));
        assert(word[i + 4] == text::lower_char(operator[i + 4]));
    }
    assert forall|i: int| !text::occurs_at(word, " and "@, i) by {
        if text::occurs_at(word, " and "@, i) {
            let sub = word.subrange(i, i + 5);
            assert(sub[0] == ' ' && sub[4] == ' ');
            assert(operator[i] == ' ' || word[i] == text::lower_char(operator[i]));
        }
    }
}

/// `STARTS WITH` asks whether the column begins with the value: a pattern with a
/// wildcard behind the value alone.
pub proof fn law_starts_with_looks_at_the_front(
    var: Seq<char>,
    prop: Seq<char>,
    column: Seq<char>,
    operator: Seq<char>,
    v: Seq<char>,
)
    requires
        is_word(var),
        is_kept_in(prop, column),
        text::lower(operator) == " starts with "@,
        is_unquoted(v),
        !text::has_text(
            text::lower(condition(var, prop, operator, v)),
            " contains "@,
        ),
    ensures
        exists|pattern: Seq<char>| #[trigger]
            is_pattern_of(pattern, v) && cypher::where_sql(condition(var, prop, operator, v))
                == Ok::<Seq<char>, Seq<char>>(
                in_brackets(var + "."@ + column + " LIKE '"@ + pattern + "%' ESCAPE '\\'"@),
            ),
{
    let w = condition(var, prop, operator, v);
    let lhs = var + "."@ + prop;
    lemma_operator(operator, " starts with "@);
    lemma_condition(var, prop, column, operator, v);
    assert forall|i: int| 0 <= i < lhs.len() implies #[trigger] lhs[i] != ' ' by {
        assert(!text::is_space(lhs[i]));
    }
    lemma_keyword(lhs, operator, "'"@ + v + "'"@, " starts with "@);
    text::lemma_find_from(text::lower(w), " contains "@, 0);
    law_property_is_read_from_its_column(var, prop, column);
    lemma_one_clause(w);
    let pattern = cypher::escape(v, true);
    cypher::law_like_value_is_literal(v);
    assert(is_pattern_of(pattern, v));
}

/// `=` asks whether the column is the value.
pub proof fn law_equals_asks_for_the_value(
    var: Seq<char>,
    prop: Seq<char>,
    column: Seq<char>,
    v: Seq<char>,
)
    requires
        is_word(var),
        is_kept_in(prop, column),
        is_unquoted(v),
        !text::has_text(text::lower(condition(var, prop, " = "@, v)), " contains "@),
        !text::has_text(text::lower(condition(var, prop, " = "@, v)), " starts with "@),
    ensures
        cypher::where_sql(condition(var, prop, " = "@, v)) == Ok::<Seq<char>, Seq<char>>(
            in_brackets(var + "."@ + column + " = '"@ + v + "'"@),
        ),
{
    let w = condition(var, prop, " = "@, v);
    let lhs = var + "."@ + prop;
    reveal_strlit(" = ");
    reveal_strlit("=");
    reveal_strlit(" ");
    reveal_strlit(" '");
    reveal_strlit("'");
    reveal_strlit(" and ");
    assert forall|i: int| !text::occurs_at(text::lower(" = "@), " and "@, i) by {
        assert(text::lower(" = "@).len() == 3);
    }
    lemma_condition(var, prop, column, " = "@, v);
    text::lemma_find_from(text::lower(w), " contains "@, 0);
    text::lemma_find_from(text::lower(w), " starts with "@, 0);
    let left = lhs + seq![' '];
    let right = " '"@ + v + "'"@;
    assert(w =~= left + seq!['='] + right);
    assert forall|i: int| 0 <= i < left.len() implies #[trigger] left[i] != '=' by {
        if i < lhs.len() {
            assert(left[i] == lhs[i]);
        }
    }
    lemma_first_mark(left, '=', right);
    assert("="@ =~= seq!['=']);
    assert(left =~= Seq::<char>::empty() + lhs + seq![' ']);
    text::lemma_trim_within(lhs, Seq::empty(), seq![' ']);
    law_property_is_read_from_its_column(var, prop, column);
    lemma_one_clause(w);
    lemma_plain_escape(v);
}

proof fn lemma_plain_escape(v: Seq<char>)
    requires
        is_unquoted(v),
    ensures
        cypher::escape(v, false) == v,
    decreases v.len(),
{
    if v.len() > 0 {
        let d = v.drop_last();
        assert(v[v.len() - 1] != '\'');
        assert forall|i: int| 0 <= i < d.len() implies #[trigger] d[i] != '\'' by {
            assert(d[i] == v[i]);
        }
        lemma_plain_escape(d);
        assert(d + seq![v.last()] =~= v);
    }
}

} // verus!
