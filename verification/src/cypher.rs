//! Cypher-lite: a read-only subset of openCypher, turned into SQL over the
//! `nodes` and `edges` tables.
//!
//! Covers patterns of one to three nodes with labels and relations, `WHERE` on
//! properties (`=`, `CONTAINS`, `STARTS WITH`, joined by `AND`), `RETURN` of
//! properties and `LIMIT`. Unsupported syntax is an error, never a wrong answer.

use vstd::prelude::*;
use vstd::string::*;

use crate::text;

verus! {

/// The most rows that one query returns.
pub const MAX_LIMIT: u32 = 500;

/// The rows returned where the query names no limit.
pub const DEFAULT_LIMIT: u32 = 50;

/// A node of a pattern: its variable and the label it asks for.
pub struct NodePattern {
    pub var: String,
    pub label: Option<String>,
}

/// The model of a [`NodePattern`].
pub struct NodeModel {
    pub var: Seq<char>,
    pub label: Option<Seq<char>>,
}

/// The view of an optional text.
pub open spec fn opt_view(o: Option<String>) -> Option<Seq<char>> {
    match o {
        Some(s) => Some(s@),
        None => None,
    }
}

impl View for NodePattern {
    type V = NodeModel;

    open spec fn view(&self) -> NodeModel {
        NodeModel { var: self.var@, label: opt_view(self.label) }
    }
}

/// The nodes of a pattern, and between each two of them the relation asked for.
pub struct Pattern {
    pub nodes: Vec<NodePattern>,
    pub rels: Vec<Option<String>>,
}

/// The model of a [`Pattern`].
#[verifier::ext_equal]
pub struct PatternModel {
    pub nodes: Seq<NodeModel>,
    pub rels: Seq<Option<Seq<char>>>,
}

impl View for Pattern {
    type V = PatternModel;

    open spec fn view(&self) -> PatternModel {
        PatternModel {
            nodes: self.nodes@.map_values(|n: NodePattern| n@),
            rels: self.rels@.map_values(|r: Option<String>| opt_view(r)),
        }
    }
}

/// Whether every character may stand in an identifier.
pub open spec fn is_ident(s: Seq<char>) -> bool {
    forall|i: int| 0 <= i < s.len() ==> text::is_alnum(#[trigger] s[i]) || s[i] == '_'
}

/// The column that a property name stands for.
pub open spec fn column(prop: Seq<char>) -> Option<Seq<char>> {
    if prop == "name"@ {
        Some("name"@)
    } else if prop == "file"@ || prop == "file_path"@ {
        Some("file_path"@)
    } else if prop == "line"@ || prop == "line_start"@ {
        Some("line_start"@)
    } else if prop == "label"@ || prop == "kind"@ {
        Some("label"@)
    } else if prop == "language"@ || prop == "lang"@ {
        Some("language"@)
    } else if prop == "id"@ {
        Some("id"@)
    } else if prop == "pagerank"@ {
        Some("pagerank"@)
    } else {
        None
    }
}

/// The SQL of a property `var.prop`.
pub open spec fn prop_sql(p: Seq<char>) -> Result<Seq<char>, Seq<char>> {
    match text::cut(p, "."@) {
        None => Err("use var.prop, got: "@ + p),
        Some((v, c)) => {
            let var = text::trim(v);
            let prop = text::trim(c);
            if !is_ident(var) {
                Err("bad variable: "@ + var)
            } else {
                match column(prop) {
                    Some(col) => Ok(var + "."@ + col),
                    None => Err(
                        "unknown property: "@ + prop
                            + " (name/file/line/label/language/id/pagerank)"@,
                    ),
                }
            }
        },
    }
}

/// The characters that stand for `c` inside a quoted SQL value: a quote is
/// doubled and, in a `LIKE` pattern, what `LIKE` would read as special gets a
/// backslash in front.
pub open spec fn escape_char(c: char, like: bool) -> Seq<char> {
    if c == '\'' {
        seq!['\'', '\'']
    } else if like && (c == '\\' || c == '%' || c == '_') {
        seq!['\\', c]
    } else {
        seq![c]
    }
}

/// The value as it stands inside a quoted SQL value.
pub open spec fn escape(s: Seq<char>, like: bool) -> Seq<char>
    decreases s.len(),
{
    if s.len() == 0 {
        Seq::empty()
    } else {
        escape(s.drop_last(), like) + escape_char(s.last(), like)
    }
}

/// Whether a text is one literal in the quotes `q`, closed at its end.
pub open spec fn is_quoted(s: Seq<char>, q: char) -> bool {
    &&& s.len() >= 2
    &&& s[0] == q
    &&& s.last() == q
    &&& forall|i: int| 0 < i < s.len() - 1 ==> #[trigger] s[i] != q
}

/// Whether a text is one plain word: without white space and quotes, and not
/// the rest of another operator.
pub open spec fn is_plain_word(s: Seq<char>) -> bool {
    &&& s.len() > 0
    &&& s[0] != '=' && s[0] != '~'
    &&& forall|i: int|
        0 <= i < s.len() ==> !text::is_space(#[trigger] s[i]) && s[i] != '\'' && s[i] != '"'
}

/// The value that the text after an operator stands for: what stands between
/// the quotes of one literal, or one plain word. Anything else stands for none.
pub open spec fn raw_value(s: Seq<char>) -> Option<Seq<char>> {
    let v = text::trim(s);
    if is_quoted(v, '\'') || is_quoted(v, '"') {
        Some(v.subrange(1, v.len() - 1))
    } else if is_plain_word(v) {
        Some(v)
    } else {
        None
    }
}

/// The words that refuse a condition.
pub open spec fn unsupported(c: Seq<char>) -> Seq<char> {
    "unsupported WHERE clause: "@ + c + " (use =, CONTAINS, STARTS WITH, AND)"@
}

/// The SQL of the condition `c` with the operands `l` and `v`; `open` and
/// `close` stand around the value.
pub open spec fn operator_sql(
    c: Seq<char>,
    l: Seq<char>,
    v: Seq<char>,
    open: Seq<char>,
    close: Seq<char>,
    like: bool,
) -> Result<Seq<char>, Seq<char>> {
    match prop_sql(text::trim(l)) {
        Err(e) => Err(e),
        Ok(lhs) => match raw_value(v) {
            Some(raw) => Ok(lhs + open + escape(raw, like) + close),
            None => Err(unsupported(c)),
        },
    }
}

/// The SQL of one condition of a `WHERE`.
pub open spec fn clause_sql(clause: Seq<char>) -> Result<Seq<char>, Seq<char>> {
    let c = text::trim(clause);
    match text::cut(c, " contains "@) {
        Some((l, v)) => operator_sql(c, l, v, " LIKE '%"@, "%' ESCAPE '\\'"@, true),
        None => match text::cut(c, " starts with "@) {
            Some((l, v)) => operator_sql(c, l, v, " LIKE '"@, "%' ESCAPE '\\'"@, true),
            None => match text::cut(c, "="@) {
                Some((l, v)) => operator_sql(c, l, v, " = '"@, "'"@, false),
                None => Err(unsupported(c)),
            },
        },
    }
}

/// The conditions of a `WHERE` from position `start` on: the text between the
/// ` AND `s (in either case) found from position `from` on that do not stand
/// inside a quoted value.
pub open spec fn and_parts(w: Seq<char>, start: nat, from: nat) -> Seq<Seq<char>>
    decreases w.len() + 1 - from,
{
    match text::find_from(text::lower(w), " and "@, from as int) {
        Some(p) => {
            proof {
                text::lemma_find_from(text::lower(w), " and "@, from as int);
                reveal_strlit(" and ");
            }
            let next = (p + " and "@.len()) as nat;
            if text::count_char(w.take(p), '\'') % 2 == 1 {
                and_parts(w, start, next)
            } else {
                seq![w.subrange(start as int, p)] + and_parts(w, next, next)
            }
        },
        None => seq![w.skip(start as int)],
    }
}

/// The SQL of each text by `f`, or the first error.
pub open spec fn all_sql(
    parts: Seq<Seq<char>>,
    f: spec_fn(Seq<char>) -> Result<Seq<char>, Seq<char>>,
) -> Result<Seq<Seq<char>>, Seq<char>>
    decreases parts.len(),
{
    if parts.len() == 0 {
        Ok(Seq::empty())
    } else {
        match all_sql(parts.drop_last(), f) {
            Err(e) => Err(e),
            Ok(done) => match f(parts.last()) {
                Err(e) => Err(e),
                Ok(s) => Ok(done.push(s)),
            },
        }
    }
}

/// The SQL of a whole `WHERE`.
pub open spec fn where_sql(w: Seq<char>) -> Result<Seq<char>, Seq<char>> {
    match all_sql(and_parts(w, 0, 0), |c: Seq<char>| clause_sql(c)) {
        Err(e) => Err(e),
        Ok(parts) => Ok("("@ + text::join(parts, " AND "@) + ")"@),
    }
}

/// The node that the text between round brackets stands for.
pub open spec fn node_model(inner: Seq<char>) -> Result<NodeModel, Seq<char>> {
    let m = match text::cut(inner, ":"@) {
        Some((v, l)) => NodeModel { var: text::trim(v), label: Some(text::trim(l)) },
        None => NodeModel { var: text::trim(inner), label: None },
    };
    if m.var.len() == 0 {
        Err("node variables are required, e.g. (a:Function)"@)
    } else if !is_ident(m.var) {
        Err("bad variable: "@ + m.var)
    } else {
        Ok(m)
    }
}

/// The relation that stands at the start of `rest`, and what follows it.
pub open spec fn rel_model(rest: Seq<char>) -> Result<(Option<Seq<char>>, Seq<char>), Seq<char>> {
    if "-["@.is_prefix_of(rest) {
        match text::cut(rest.skip("-["@.len() as int), "]->"@) {
            None => Err("only outgoing -[:REL]-> supported"@),
            Some((r, after)) => {
                let rel = text::trim(text::strip_lead(text::trim(r), ':'));
                Ok((if rel.len() == 0 { None } else { Some(rel) }, text::trim(after)))
            },
        }
    } else if "-->"@.is_prefix_of(rest) {
        Ok((None, text::trim(rest.skip("-->"@.len() as int))))
    } else {
        Err("expected -[:REL]-> at: "@ + rest)
    }
}

/// The pattern that `rest` continues, after `done`.
pub open spec fn pattern_model(rest: Seq<char>, done: PatternModel) -> Result<
    PatternModel,
    Seq<char>,
>
    decreases 3 - done.nodes.len(),
{
    if !"("@.is_prefix_of(rest) {
        Err("expected '(' at: "@ + rest)
    } else {
        match text::cut(rest, ")"@) {
            None => Err("unclosed node pattern"@),
            Some((opened, after)) => match node_model(opened.skip("("@.len() as int)) {
                Err(e) => Err(e),
                Ok(node) => {
                    let nodes = done.nodes.push(node);
                    let next = text::trim(after);
                    if next.len() == 0 {
                        Ok(PatternModel { nodes, rels: done.rels })
                    } else {
                        match rel_model(next) {
                            Err(e) => Err(e),
                            Ok((rel, tail)) => if nodes.len() >= 3 {
                                Err("max 2 hops (3 nodes) in cypher-lite"@)
                            } else {
                                pattern_model(
                                    tail,
                                    PatternModel { nodes, rels: done.rels.push(rel) },
                                )
                            },
                        }
                    }
                },
            },
        }
    }
}

/// The `FROM` items for the first `k` relations of a pattern.
pub open spec fn from_items(m: PatternModel, k: nat) -> Seq<Seq<char>>
    decreases k,
{
    if k == 0 {
        seq!["nodes "@ + m.nodes[0].var]
    } else {
        from_items(m, (k - 1) as nat).push("edges e"@ + text::decimal((k - 1) as nat)).push(
            "nodes "@ + m.nodes[k as int].var,
        )
    }
}

/// The conditions for the first `k` relations of a pattern.
pub open spec fn rel_conds(m: PatternModel, k: nat) -> Result<Seq<Seq<char>>, Seq<char>>
    decreases k,
{
    if k == 0 {
        Ok(Seq::empty())
    } else {
        let e = "e"@ + text::decimal((k - 1) as nat);
        match rel_conds(m, (k - 1) as nat) {
            Err(x) => Err(x),
            Ok(done) => {
                let both = done.push(
                    e + ".src = "@ + m.nodes[k - 1].var + ".id AND "@ + e + ".dst = "@
                        + m.nodes[k as int].var + ".id"@,
                );
                match m.rels[k - 1] {
                    None => Ok(both),
                    Some(r) => if is_ident(r) {
                        Ok(both.push(e + ".relation = '"@ + r + "'"@))
                    } else {
                        Err("bad identifier: "@ + r)
                    },
                }
            },
        }
    }
}

/// The conditions for the labels of the first `k` nodes, after `conds`.
pub open spec fn label_conds(m: PatternModel, conds: Seq<Seq<char>>, k: nat) -> Result<
    Seq<Seq<char>>,
    Seq<char>,
>
    decreases k,
{
    if k == 0 {
        Ok(conds)
    } else {
        match label_conds(m, conds, (k - 1) as nat) {
            Err(x) => Err(x),
            Ok(done) => match m.nodes[k - 1].label {
                None => Ok(done),
                Some(l) => if is_ident(l) {
                    Ok(done.push(m.nodes[k - 1].var + ".label = '"@ + l + "'"@))
                } else {
                    Err("bad identifier: "@ + l)
                },
            },
        }
    }
}

/// Every condition of a query.
pub open spec fn conditions(m: PatternModel, cond: Option<Seq<char>>) -> Result<
    Seq<Seq<char>>,
    Seq<char>,
> {
    match rel_conds(m, m.rels.len()) {
        Err(e) => Err(e),
        Ok(a) => match label_conds(m, a, m.nodes.len()) {
            Err(e) => Err(e),
            Ok(b) => match cond {
                None => Ok(b),
                Some(w) => match where_sql(w) {
                    Err(e) => Err(e),
                    Ok(s) => Ok(b.push(s)),
                },
            },
        },
    }
}

/// The `SELECT` for a pattern, a `WHERE`, the returned properties and a limit.
pub open spec fn select_sql(
    m: PatternModel,
    cond: Option<Seq<char>>,
    ret: Seq<char>,
    limit: nat,
) -> Result<Seq<char>, Seq<char>> {
    match conditions(m, cond) {
        Err(e) => Err(e),
        Ok(conds) => match all_sql(text::split_char(ret, ','), |c: Seq<char>| prop_sql(text::trim(c))) {
            Err(e) => Err(e),
            Ok(cols) => Ok(
                "SELECT DISTINCT "@ + text::join(cols, ", "@) + " FROM "@ + text::join(
                    from_items(m, m.rels.len()),
                    ", "@,
                ) + (if conds.len() == 0 {
                    ""@
                } else {
                    " WHERE "@ + text::join(conds, " AND "@)
                }) + " LIMIT "@ + text::decimal(limit),
            ),
        },
    }
}

/// What follows `RETURN`: the properties and the number of rows asked for.
pub open spec fn return_model(tail: Seq<char>) -> Result<(Seq<char>, nat), Seq<char>> {
    match text::cut(tail, " limit "@) {
        None => Ok((text::trim(tail), DEFAULT_LIMIT as nat)),
        Some((ret, n)) => match text::parse_nat(text::trim(n)) {
            Some(k) => if k <= u32::MAX {
                Ok((text::trim(ret), k))
            } else {
                Err("bad LIMIT"@)
            },
            None => Err("bad LIMIT"@),
        },
    }
}

/// The SQL that a query stands for, or why it stands for none.
pub open spec fn query_sql(query: Seq<char>) -> Result<Seq<char>, Seq<char>> {
    let q = text::trim(query);
    if !"match"@.is_prefix_of(text::lower(q)) {
        Err("only MATCH … [WHERE …] RETURN … [LIMIT n] is supported"@)
    } else {
        match text::cut(q.skip("match"@.len() as int), " return "@) {
            None => Err("missing RETURN"@),
            Some((head, tail)) => {
                let (pattern, cond) = match text::cut(head, " where "@) {
                    Some((p, w)) => (text::trim(p), Some(text::trim(w))),
                    None => (text::trim(head), None),
                };
                match return_model(tail) {
                    Err(e) => Err(e),
                    Ok((ret, limit)) => match pattern_model(
                        pattern,
                        PatternModel { nodes: Seq::empty(), rels: Seq::empty() },
                    ) {
                        Err(e) => Err(e),
                        Ok(m) => select_sql(
                            m,
                            cond,
                            ret,
                            if limit < MAX_LIMIT {
                                limit
                            } else {
                                MAX_LIMIT as nat
                            },
                        ),
                    },
                }
            },
        }
    }
}


/// Whether every character may stand in an identifier.
fn ident_test(s: &str) -> (r: bool)
    ensures
        r == is_ident(s@),
{
    let v = text::chars_of(s);
    let mut i: usize = 0;
    while i < v.len()
        invariant
            i <= v.len(),
            v@ == s@,
            forall|k: int| 0 <= k < i ==> text::is_alnum(#[trigger] s@[k]) || s@[k] == '_',
        decreases v.len() - i,
    {
        if !(text::alnum_char_test(v[i]) || v[i] == '_') {
            assert(!(text::is_alnum(s@[i as int]) || s@[i as int] == '_'));
            return false;
        }
        i += 1;
    }
    true
}

/// The text as an identifier, or why it is none.
pub fn sane(s: &str) -> (r: Result<String, String>)
    ensures
        text::text_result(r) == (if is_ident(s@) {
            Ok::<Seq<char>, Seq<char>>(s@)
        } else {
            Err("bad identifier: "@ + s@)
        }),
{
    if ident_test(s) {
        Ok(s.to_owned())
    } else {
        Err("bad identifier: ".to_owned().concat(s))
    }
}

/// See [`prop_sql`].
pub fn prop_to_sql(p: &str) -> (r: Result<String, String>)
    ensures
        text::text_result(r) == prop_sql(p@),
{
    match text::cut_text(p, ".") {
        None => Err("use var.prop, got: ".to_owned().concat(p)),
        Some(pair) => {
            let var = text::trimmed(pair.0.as_str());
            let prop = text::trimmed(pair.1.as_str());
            if !ident_test(var.as_str()) {
                return Err("bad variable: ".to_owned().concat(var.as_str()));
            }
            let q = prop.as_str();
            let col = if text::same(q, "name") {
                "name"
            } else if text::same(q, "file") || text::same(q, "file_path") {
                "file_path"
            } else if text::same(q, "line") || text::same(q, "line_start") {
                "line_start"
            } else if text::same(q, "label") || text::same(q, "kind") {
                "label"
            } else if text::same(q, "language") || text::same(q, "lang") {
                "language"
            } else if text::same(q, "id") {
                "id"
            } else if text::same(q, "pagerank") {
                "pagerank"
            } else {
                return Err(
                    "unknown property: ".to_owned().concat(q).concat(
                        " (name/file/line/label/language/id/pagerank)",
                    ),
                );
            };
            Ok(var.concat(".").concat(col))
        },
    }
}

/// See [`escape`].
fn escaped(s: &str, like: bool) -> (r: String)
    ensures
        r@ == escape(s@, like),
{
    let v = text::chars_of(s);
    let mut r = String::new();
    let mut i: usize = 0;
    while i < v.len()
        invariant
            i <= v.len(),
            v@ == s@,
            r@ == escape(s@.take(i as int), like),
        decreases v.len() - i,
    {
        let c = v[i];
        proof {
            assert(s@.take(i + 1).drop_last() =~= s@.take(i as int));
        }
        let ghost before = r@;
        if c == '\'' {
            r.push('\'');
            r.push('\'');
        } else if like && (c == '\\' || c == '%' || c == '_') {
            r.push('\\');
            r.push(c);
        } else {
            r.push(c);
        }
        assert(r@ =~= before + escape_char(c, like));
        i += 1;
    }
    assert(s@.take(s@.len() as int) =~= s@);
    r
}

/// See [`is_quoted`].
fn quoted_test(v: &Vec<char>, q: char) -> (r: bool)
    ensures
        r == is_quoted(v@, q),
{
    if v.len() < 2 || v[0] != q || v[v.len() - 1] != q {
        return false;
    }
    let mut i: usize = 1;
    while i < v.len() - 1
        invariant
            1 <= i <= v.len() - 1,
            v.len() >= 2,
            forall|k: int| 0 < k < i ==> #[trigger] v@[k] != q,
        decreases v.len() - i,
    {
        if v[i] == q {
            return false;
        }
        i += 1;
    }
    true
}

/// See [`is_plain_word`].
fn plain_word_test(v: &Vec<char>) -> (r: bool)
    ensures
        r == is_plain_word(v@),
{
    if v.len() == 0 || v[0] == '=' || v[0] == '~' {
        return false;
    }
    let mut i: usize = 0;
    while i < v.len()
        invariant
            i <= v.len(),
            forall|k: int|
                0 <= k < i ==> !text::is_space(#[trigger] v@[k]) && v@[k] != '\'' && v@[k] != '"',
        decreases v.len() - i,
    {
        if text::space_char_test(v[i]) || v[i] == '\'' || v[i] == '"' {
            return false;
        }
        i += 1;
    }
    true
}

/// See [`raw_value`].
fn value_text(s: &str) -> (r: Option<String>)
    ensures
        opt_view(r) == raw_value(s@),
{
    let t = text::trimmed(s);
    let v = text::chars_of(t.as_str());
    if quoted_test(&v, '\'') || quoted_test(&v, '"') {
        let r = text::slice(v.as_slice(), 1, v.len() - 1);
        assert(r@ =~= v@.subrange(1, v@.len() - 1));
        Some(r)
    } else if plain_word_test(&v) {
        Some(t)
    } else {
        None
    }
}

/// See [`unsupported`].
fn say_unsupported(c: &str) -> (r: String)
    ensures
        r@ == unsupported(c@),
{
    "unsupported WHERE clause: ".to_owned().concat(c).concat(
        " (use =, CONTAINS, STARTS WITH, AND)",
    )
}

/// See [`operator_sql`].
fn operator_to_sql(c: &str, l: &str, v: &str, open: &str, close: &str, like: bool) -> (r: Result<
    String,
    String,
>)
    ensures
        text::text_result(r) == operator_sql(c@, l@, v@, open@, close@, like),
{
    let lhs = match prop_to_sql(text::trimmed(l).as_str()) {
        Ok(l) => l,
        Err(e) => return Err(e),
    };
    match value_text(v) {
        Some(raw) => {
            let val = escaped(raw.as_str(), like);
            Ok(lhs.concat(open).concat(val.as_str()).concat(close))
        },
        None => Err(say_unsupported(c)),
    }
}

/// See [`clause_sql`].
fn clause_to_sql(clause: &str) -> (r: Result<String, String>)
    ensures
        text::text_result(r) == clause_sql(clause@),
{
    let c = text::trimmed(clause);
    if let Some(p) = text::cut_text(c.as_str(), " contains ") {
        return operator_to_sql(
            c.as_str(),
            p.0.as_str(),
            p.1.as_str(),
            " LIKE '%",
            "%' ESCAPE '\\'",
            true,
        );
    }
    if let Some(p) = text::cut_text(c.as_str(), " starts with ") {
        return operator_to_sql(
            c.as_str(),
            p.0.as_str(),
            p.1.as_str(),
            " LIKE '",
            "%' ESCAPE '\\'",
            true,
        );
    }
    if let Some(p) = text::cut_text(c.as_str(), "=") {
        return operator_to_sql(c.as_str(), p.0.as_str(), p.1.as_str(), " = '", "'", false);
    }
    Err(say_unsupported(c.as_str()))
}

/// Whether an odd number of single quotes stands before position `p`.
fn inside_quotes(v: &[char], p: usize) -> (r: bool)
    requires
        p <= v.len(),
    ensures
        r == (text::count_char(v@.take(p as int), '\'') % 2 == 1),
{
    let mut odd: bool = false;
    let mut i: usize = 0;
    while i < p
        invariant
            i <= p <= v.len(),
            odd == (text::count_char(v@.take(i as int), '\'') % 2 == 1),
        decreases p - i,
    {
        assert(v@.take(i + 1).drop_last() =~= v@.take(i as int));
        if v[i] == '\'' {
            odd = !odd;
        }
        i += 1;
    }
    odd
}

/// Splits the body of a `WHERE` on ` AND ` in either case, leaving alone what
/// stands inside single-quoted values.
pub fn split_and(w: &str) -> (r: Vec<String>)
    ensures
        text::views(r@) == and_parts(w@, 0, 0),
{
    let v = text::chars_of(w);
    let low = text::lower_chars(&v);
    let word = text::chars_of(" and ");
    proof {
        reveal_strlit(" and ");
    }
    let mut parts: Vec<String> = Vec::new();
    let mut start: usize = 0;
    let mut from: usize = 0;
    let mut more: bool = true;
    while more
        invariant
            v@ == w@,
            low@ == text::lower(w@),
            word@ == " and "@,
            word@.len() == 5,
            start <= from <= v.len(),
            more ==> and_parts(w@, 0, 0) == text::views(parts@) + and_parts(
                w@,
                start as nat,
                from as nat,
            ),
            !more ==> and_parts(w@, 0, 0) == text::views(parts@).push(w@.skip(start as int)),
        decreases
                (if more {
                    1 + v.len() - from
                } else {
                    0
                }),
    {
        proof {
            text::lemma_find_from(low@, word@, from as int);
        }
        match text::find_chars(&low, &word, from) {
            Some(p) => {
                if inside_quotes(&v, p) {
                    from = p + 5;
                } else {
                    let ghost old_parts = text::views(parts@);
                    let part = text::slice(&v, start, p);
                    parts.push(part);
                    proof {
                        assert(text::views(parts@) =~= old_parts.push(part@));
                        assert(old_parts + (seq![part@] + and_parts(
                            w@,
                            (p + 5) as nat,
                            (p + 5) as nat,
                        )) =~= old_parts.push(part@) + and_parts(w@, (p + 5) as nat, (p + 5) as nat));
                    }
                    start = p + 5;
                    from = start;
                }
            },
            None => {
                proof {
                    assert(text::views(parts@) + seq![w@.skip(start as int)] =~= text::views(
                        parts@,
                    ).push(w@.skip(start as int)));
                }
                more = false;
            },
        }
    }
    let ghost old_parts = text::views(parts@);
    let part = text::slice(&v, start, v.len());
    parts.push(part);
    assert(part@ =~= w@.skip(start as int));
    assert(text::views(parts@) =~= old_parts.push(part@));
    parts
}

/// See [`where_sql`].
pub fn where_to_sql(w: &str) -> (r: Result<String, String>)
    ensures
        text::text_result(r) == where_sql(w@),
{
    let clauses = split_and(w);
    let mut parts: Vec<String> = Vec::new();
    let ghost f = |c: Seq<char>| clause_sql(c);
    let ghost all = and_parts(w@, 0, 0);
    assert(text::views(parts@) =~= Seq::empty());
    let mut i: usize = 0;
    while i < clauses.len()
        invariant
            i <= clauses.len(),
            text::views(clauses@) == all,
            f == (|c: Seq<char>| clause_sql(c)),
            all == and_parts(w@, 0, 0),
            all_sql(all.take(i as int), f) == Ok::<Seq<Seq<char>>, Seq<char>>(text::views(parts@)),
        decreases clauses.len() - i,
    {
        proof {
            assert(all[i as int] == clauses@[i as int]@);
            assert(all.take(i + 1).drop_last() =~= all.take(i as int));
            assert(all.take(i + 1).last() == clauses@[i as int]@);
        }
        let one = clause_to_sql(clauses[i].as_str());
        match one {
            Ok(s) => {
                let ghost old_parts = text::views(parts@);
                parts.push(s);
                assert(text::views(parts@) =~= old_parts.push(s@));
            },
            Err(e) => {
                proof {
                    lemma_all_sql_err(all, i + 1, f);
                }
                return Err(e);
            },
        }
        i += 1;
    }
    assert(all.take(all.len() as int) =~= all);
    Ok("(".to_owned().concat(text::joined(&parts, " AND ").as_str()).concat(")"))
}

/// An error among the first texts is the error of all of them.
proof fn lemma_all_sql_err(
    parts: Seq<Seq<char>>,
    k: int,
    f: spec_fn(Seq<char>) -> Result<Seq<char>, Seq<char>>,
)
    requires
        0 <= k <= parts.len(),
        all_sql(parts.take(k), f) is Err,
    ensures
        all_sql(parts, f) == all_sql(parts.take(k), f),
    decreases parts.len(),
{
    if k == parts.len() {
        assert(parts.take(k) =~= parts);
    } else {
        assert(parts.drop_last().take(k) =~= parts.take(k));
        lemma_all_sql_err(parts.drop_last(), k, f);
    }
}


/// See [`node_model`].
fn parse_node(inner: &str) -> (r: Result<NodePattern, String>)
    ensures
        match r {
            Ok(n) => node_model(inner@) == Ok::<NodeModel, Seq<char>>(n@),
            Err(e) => node_model(inner@) == Err::<NodeModel, Seq<char>>(e@),
        },
{
    let n = match text::cut_text(inner, ":") {
        Some(p) => NodePattern {
            var: text::trimmed(p.0.as_str()),
            label: Some(text::trimmed(p.1.as_str())),
        },
        None => NodePattern { var: text::trimmed(inner), label: None },
    };
    if n.var.as_str().is_empty() {
        return Err("node variables are required, e.g. (a:Function)".to_owned());
    }
    if !ident_test(n.var.as_str()) {
        return Err("bad variable: ".to_owned().concat(n.var.as_str()));
    }
    Ok(n)
}

/// The text without its first `n` characters.
fn skip_chars(s: &str, n: usize) -> (r: String)
    requires
        n <= s@.len(),
    ensures
        r@ == s@.skip(n as int),
{
    let v = text::chars_of(s);
    let r = text::slice(&v, n, v.len());
    assert(r@ =~= s@.skip(n as int));
    r
}

/// See [`rel_model`].
fn parse_rel(rest: &str) -> (r: Result<(Option<String>, String), String>)
    ensures
        match r {
            Ok(p) => rel_model(rest@) == Ok::<(Option<Seq<char>>, Seq<char>), Seq<char>>(
                (opt_view(p.0), p.1@),
            ),
            Err(e) => rel_model(rest@) == Err::<(Option<Seq<char>>, Seq<char>), Seq<char>>(e@),
        },
{
    proof {
        reveal_strlit("-[");
        reveal_strlit("-->");
    }
    if text::begins_with(rest, "-[") {
        match text::cut_text(skip_chars(rest, 2).as_str(), "]->") {
            None => Err("only outgoing -[:REL]-> supported".to_owned()),
            Some(p) => {
                let rel = text::trimmed(
                    text::without_lead(text::trimmed(p.0.as_str()).as_str(), ':').as_str(),
                );
                let after = text::trimmed(p.1.as_str());
                if rel.as_str().is_empty() {
                    Ok((None, after))
                } else {
                    Ok((Some(rel), after))
                }
            },
        }
    } else if text::begins_with(rest, "-->") {
        Ok((None, text::trimmed(skip_chars(rest, 3).as_str())))
    } else {
        Err("expected -[:REL]-> at: ".to_owned().concat(rest))
    }
}

/// The pattern that a text stands for.
fn parse_pattern(pattern: &str) -> (r: Result<Pattern, String>)
    ensures
        match r {
            Ok(p) => pattern_model(
                pattern@,
                PatternModel { nodes: Seq::empty(), rels: Seq::empty() },
            ) == Ok::<PatternModel, Seq<char>>(p@) && p@.rels.len() + 1 == p@.nodes.len(),
            Err(e) => pattern_model(
                pattern@,
                PatternModel { nodes: Seq::empty(), rels: Seq::empty() },
            ) == Err::<PatternModel, Seq<char>>(e@),
        },
{
    proof {
        reveal_strlit("(");
        reveal_strlit(")");
    }
    let mut p = Pattern { nodes: Vec::new(), rels: Vec::new() };
    let ghost none = PatternModel { nodes: Seq::empty(), rels: Seq::empty() };
    assert(p@ =~= none);
    let mut rest = pattern.to_owned();
    loop
        invariant
            none == (PatternModel { nodes: Seq::empty(), rels: Seq::empty() }),
            pattern_model(pattern@, none) == pattern_model(rest@, p@),
            p@.nodes.len() == p@.rels.len(),
            p@.nodes.len() < 3,
            "("@ == seq!['('],
            ")"@ == seq![')'],
        decreases 3 - p@.nodes.len(),
    {
        if !text::begins_with(rest.as_str(), "(") {
            return Err("expected '(' at: ".to_owned().concat(rest.as_str()));
        }
        let (opened, after) = match text::cut_text(rest.as_str(), ")") {
            None => return Err("unclosed node pattern".to_owned()),
            Some(pair) => pair,
        };
        proof {
            text::lemma_find_from(text::lower(rest@), ")"@, 0);
            let at = text::find(text::lower(rest@), ")"@)->0;
            if at == 0 {
                assert(text::lower(rest@).subrange(0, 1)[0] == ')');
                assert(rest@.subrange(0, 1)[0] == '(');
            }
        }
        let node = match parse_node(skip_chars(opened.as_str(), 1).as_str()) {
            Ok(n) => n,
            Err(e) => return Err(e),
        };
        let ghost before = p@;
        p.nodes.push(node);
        assert(p@.nodes =~= before.nodes.push(node@));
        let next = text::trimmed(after.as_str());
        if next.as_str().is_empty() {
            assert(p@ =~= (PatternModel { nodes: before.nodes.push(node@), rels: before.rels }));
            return Ok(p);
        }
        let (rel, tail) = match parse_rel(next.as_str()) {
            Ok(pair) => pair,
            Err(e) => return Err(e),
        };
        if p.nodes.len() >= 3 {
            return Err("max 2 hops (3 nodes) in cypher-lite".to_owned());
        }
        let ghost rv = opt_view(rel);
        p.rels.push(rel);
        assert(p@ =~= (PatternModel {
            nodes: before.nodes.push(node@),
            rels: before.rels.push(rv),
        }));
        rest = tail;
    }
}


/// See [`from_items`].
fn from_list(p: &Pattern) -> (r: Vec<String>)
    requires
        p@.rels.len() + 1 == p@.nodes.len(),
    ensures
        text::views(r@) == from_items(p@, p@.rels.len()),
{
    let mut r: Vec<String> = Vec::new();
    assert(p@.nodes[0] == p.nodes@[0]@);
    r.push("nodes ".to_owned().concat(p.nodes[0].var.as_str()));
    assert(text::views(r@) =~= seq!["nodes "@ + p@.nodes[0].var]);
    let mut i: usize = 0;
    while i < p.rels.len()
        invariant
            i <= p.rels.len(),
            p@.rels.len() + 1 == p@.nodes.len(),
            text::views(r@) == from_items(p@, i as nat),
        decreases p.rels.len() - i,
    {
        let ghost before = text::views(r@);
        let e = "edges e".to_owned().concat(text::to_decimal(i as u64).as_str());
        let n = "nodes ".to_owned().concat(p.nodes[i + 1].var.as_str());
        assert(p@.nodes[i + 1] == p.nodes@[i + 1]@);
        r.push(e);
        r.push(n);
        assert(text::views(r@) =~= before.push(e@).push(n@));
        i += 1;
    }
    r
}

/// An error for the first relations is the error for all of them.
proof fn lemma_rel_conds_err(m: PatternModel, k: nat, n: nat)
    requires
        k <= n,
        rel_conds(m, k) is Err,
    ensures
        rel_conds(m, n) == rel_conds(m, k),
    decreases n,
{
    if k < n {
        lemma_rel_conds_err(m, k, (n - 1) as nat);
    }
}

/// An error for the first labels is the error for all of them.
proof fn lemma_label_conds_err(m: PatternModel, conds: Seq<Seq<char>>, k: nat, n: nat)
    requires
        k <= n,
        label_conds(m, conds, k) is Err,
    ensures
        label_conds(m, conds, n) == label_conds(m, conds, k),
    decreases n,
{
    if k < n {
        lemma_label_conds_err(m, conds, k, (n - 1) as nat);
    }
}

/// The view of a result whose value is a list of texts.
pub open spec fn list_result(r: Result<Vec<String>, String>) -> Result<Seq<Seq<char>>, Seq<char>> {
    match r {
        Ok(v) => Ok(text::views(v@)),
        Err(e) => Err(e@),
    }
}

/// See [`rel_conds`].
fn relation_conditions(p: &Pattern) -> (r: Result<Vec<String>, String>)
    requires
        p@.rels.len() + 1 == p@.nodes.len(),
    ensures
        list_result(r) == rel_conds(p@, p@.rels.len()),
{
    let mut r: Vec<String> = Vec::new();
    assert(text::views(r@) =~= Seq::empty());
    let mut i: usize = 0;
    while i < p.rels.len()
        invariant
            i <= p.rels.len(),
            p@.rels.len() + 1 == p@.nodes.len(),
            rel_conds(p@, i as nat) == Ok::<Seq<Seq<char>>, Seq<char>>(text::views(r@)),
        decreases p.rels.len() - i,
    {
        let ghost before = text::views(r@);
        let e = "e".to_owned().concat(text::to_decimal(i as u64).as_str());
        proof {
            assert(p@.nodes[i as int] == p.nodes@[i as int]@);
            assert(p@.nodes[i + 1] == p.nodes@[i + 1]@);
            assert(p@.rels[i as int] == opt_view(p.rels@[i as int]));
        }
        let c = e.clone().concat(".src = ").concat(p.nodes[i].var.as_str()).concat(
            ".id AND ",
        ).concat(e.as_str()).concat(".dst = ").concat(p.nodes[i + 1].var.as_str()).concat(".id");
        r.push(c);
        assert(text::views(r@) =~= before.push(c@));
        match &p.rels[i] {
            None => {},
            Some(rel) => {
                match sane(rel.as_str()) {
                    Ok(name) => {
                        let d = e.concat(".relation = '").concat(name.as_str()).concat("'");
                        r.push(d);
                        assert(text::views(r@) =~= before.push(c@).push(d@));
                    },
                    Err(x) => {
                        proof {
                            lemma_rel_conds_err(p@, (i + 1) as nat, p@.rels.len());
                        }
                        return Err(x);
                    },
                }
            },
        }
        i += 1;
    }
    Ok(r)
}

/// See [`label_conds`].
fn label_conditions(p: &Pattern, conds: Vec<String>) -> (r: Result<Vec<String>, String>)
    ensures
        list_result(r) == label_conds(p@, text::views(conds@), p@.nodes.len()),
{
    let ghost first = text::views(conds@);
    let mut r = conds;
    let mut i: usize = 0;
    while i < p.nodes.len()
        invariant
            i <= p.nodes.len(),
            first == text::views(conds@),
            label_conds(p@, first, i as nat) == Ok::<Seq<Seq<char>>, Seq<char>>(text::views(r@)),
        decreases p.nodes.len() - i,
    {
        let ghost before = text::views(r@);
        assert(p@.nodes[i as int] == p.nodes@[i as int]@);
        match &p.nodes[i].label {
            None => {},
            Some(l) => {
                match sane(l.as_str()) {
                    Ok(name) => {
                        let d = p.nodes[i].var.clone().concat(".label = '").concat(
                            name.as_str(),
                        ).concat("'");
                        r.push(d);
                        assert(text::views(r@) =~= before.push(d@));
                    },
                    Err(x) => {
                        proof {
                            lemma_label_conds_err(p@, first, (i + 1) as nat, p@.nodes.len());
                        }
                        return Err(x);
                    },
                }
            },
        }
        i += 1;
    }
    Ok(r)
}

/// See [`conditions`].
fn all_conditions(p: &Pattern, cond: &Option<String>) -> (r: Result<Vec<String>, String>)
    requires
        p@.rels.len() + 1 == p@.nodes.len(),
    ensures
        list_result(r) == conditions(p@, opt_view(*cond)),
{
    let a = match relation_conditions(p) {
        Ok(v) => v,
        Err(e) => return Err(e),
    };
    let mut b = match label_conditions(p, a) {
        Ok(v) => v,
        Err(e) => return Err(e),
    };
    match cond {
        None => {},
        Some(w) => {
            match where_to_sql(w.as_str()) {
                Ok(s) => {
                    let ghost before = text::views(b@);
                    b.push(s);
                    assert(text::views(b@) =~= before.push(s@));
                },
                Err(e) => return Err(e),
            }
        },
    }
    Ok(b)
}

/// The SQL of the returned properties.
fn columns(ret: &str) -> (r: Result<Vec<String>, String>)
    ensures
        list_result(r) == all_sql(
            text::split_char(ret@, ','),
            |c: Seq<char>| prop_sql(text::trim(c)),
        ),
{
    let items = text::split_on(ret, ',');
    let ghost f = |c: Seq<char>| prop_sql(text::trim(c));
    let ghost all = text::split_char(ret@, ',');
    let mut cols: Vec<String> = Vec::new();
    assert(text::views(cols@) =~= Seq::empty());
    let mut i: usize = 0;
    while i < items.len()
        invariant
            i <= items.len(),
            text::views(items@) == all,
            f == (|c: Seq<char>| prop_sql(text::trim(c))),
            all_sql(all.take(i as int), f) == Ok::<Seq<Seq<char>>, Seq<char>>(text::views(cols@)),
            all == text::split_char(ret@, ','),
        decreases items.len() - i,
    {
        proof {
            assert(all[i as int] == items@[i as int]@);
            assert(all.take(i + 1).drop_last() =~= all.take(i as int));
            assert(all.take(i + 1).last() == items@[i as int]@);
        }
        match prop_to_sql(text::trimmed(items[i].as_str()).as_str()) {
            Ok(c) => {
                let ghost before = text::views(cols@);
                cols.push(c);
                assert(text::views(cols@) =~= before.push(c@));
            },
            Err(e) => {
                proof {
                    lemma_all_sql_err(all, i + 1, f);
                }
                return Err(e);
            },
        }
        i += 1;
    }
    assert(all.take(all.len() as int) =~= all);
    Ok(cols)
}

/// See [`return_model`].
fn parse_return(tail: &str) -> (r: Result<(String, u32), String>)
    ensures
        match r {
            Ok(p) => return_model(tail@) == Ok::<(Seq<char>, nat), Seq<char>>((p.0@, p.1 as nat)),
            Err(e) => return_model(tail@) == Err::<(Seq<char>, nat), Seq<char>>(e@),
        },
{
    match text::cut_text(tail, " limit ") {
        None => Ok((text::trimmed(tail), DEFAULT_LIMIT)),
        Some(p) => {
            match text::parse_number(text::trimmed(p.1.as_str()).as_str(), u32::MAX as u64) {
                Some(n) => Ok((text::trimmed(p.0.as_str()), n as u32)),
                None => Err("bad LIMIT".to_owned()),
            }
        },
    }
}

/// The SQL of a query such as
/// `MATCH (a:Label)-[:REL]->(b) WHERE a.name = 'x' RETURN a.name, b.file LIMIT 10`,
/// or why there is none; see [`query_sql`].
pub fn to_sql(q: &str) -> (r: Result<String, String>)
    ensures
        text::text_result(r) == query_sql(q@),
{
    let q = text::trimmed(q);
    proof {
        reveal_strlit("match");
    }
    let low = text::to_lower(q.as_str());
    if !text::begins_with(low.as_str(), "match") {
        return Err("only MATCH … [WHERE …] RETURN … [LIMIT n] is supported".to_owned());
    }
    let (head, tail) = match text::cut_text(skip_chars(q.as_str(), 5).as_str(), " return ") {
        None => return Err("missing RETURN".to_owned()),
        Some(p) => p,
    };
    let (pattern, cond) = match text::cut_text(head.as_str(), " where ") {
        Some(p) => (text::trimmed(p.0.as_str()), Some(text::trimmed(p.1.as_str()))),
        None => (text::trimmed(head.as_str()), None),
    };
    let (ret, limit) = match parse_return(tail.as_str()) {
        Ok(p) => p,
        Err(e) => return Err(e),
    };
    let p = match parse_pattern(pattern.as_str()) {
        Ok(p) => p,
        Err(e) => return Err(e),
    };
    let conds = match all_conditions(&p, &cond) {
        Ok(c) => c,
        Err(e) => return Err(e),
    };
    let cols = match columns(ret.as_str()) {
        Ok(c) => c,
        Err(e) => return Err(e),
    };
    let capped: u32 = if limit < MAX_LIMIT {
        limit
    } else {
        MAX_LIMIT
    };
    let where_part = if conds.len() == 0 {
        "".to_owned()
    } else {
        " WHERE ".to_owned().concat(text::joined(&conds, " AND ").as_str())
    };
    Ok(
        "SELECT DISTINCT ".to_owned().concat(text::joined(&cols, ", ").as_str()).concat(
            " FROM ",
        ).concat(text::joined(&from_list(&p), ", ").as_str()).concat(where_part.as_str()).concat(
            " LIMIT ",
        ).concat(text::to_decimal(capped as u64).as_str()),
    )
}


/// Whether every single quote is followed by a second one that belongs to it,
/// so that none of them ends the quoted value in which `s` stands.
pub open spec fn quotes_paired(s: Seq<char>) -> bool
    decreases s.len(),
{
    if s.len() == 0 {
        true
    } else if s[0] == '\'' {
        s.len() > 1 && s[1] == '\'' && quotes_paired(s.skip(2))
    } else {
        quotes_paired(s.skip(1))
    }
}

/// What SQL reads between the quotes of a value: two quotes are one.
pub open spec fn unquote(s: Seq<char>) -> Seq<char>
    decreases s.len(),
{
    if s.len() == 0 {
        Seq::empty()
    } else if s.len() > 1 && s[0] == '\'' && s[1] == '\'' {
        seq!['\''] + unquote(s.skip(2))
    } else {
        seq![s[0]] + unquote(s.skip(1))
    }
}

/// The text that a `LIKE` pattern without wildcards matches: a backslash makes
/// the next character plain.
pub open spec fn like_plain(s: Seq<char>) -> Seq<char>
    decreases s.len(),
{
    if s.len() == 0 {
        Seq::empty()
    } else if s.len() > 1 && s[0] == '\\' {
        seq![s[1]] + like_plain(s.skip(2))
    } else {
        seq![s[0]] + like_plain(s.skip(1))
    }
}

/// Whether `LIKE` reads every character of `s` as plain: each `%` and `_`
/// comes after a backslash that belongs to it.
pub open spec fn no_wildcard(s: Seq<char>) -> bool
    decreases s.len(),
{
    if s.len() == 0 {
        true
    } else if s[0] == '\\' {
        s.len() > 1 && no_wildcard(s.skip(2))
    } else {
        s[0] != '%' && s[0] != '_' && no_wildcard(s.skip(1))
    }
}

proof fn lemma_escape_front(s: Seq<char>, like: bool)
    requires
        s.len() > 0,
    ensures
        escape(s, like) == escape_char(s[0], like) + escape(s.drop_first(), like),
    decreases s.len(),
{
    if s.len() == 1 {
        assert(s.drop_last() =~= Seq::empty());
        assert(s.drop_first() =~= Seq::empty());
        assert(escape(s.drop_last(), like) + escape_char(s.last(), like) =~= escape_char(
            s[0],
            like,
        ) + escape(s.drop_first(), like));
    } else {
        lemma_escape_front(s.drop_last(), like);
        assert(s.drop_last().drop_first() =~= s.drop_first().drop_last());
        assert(s.drop_first().last() == s.last());
        assert(escape(s, like) =~= escape_char(s[0], like) + (escape(
            s.drop_first().drop_last(),
            like,
        ) + escape_char(s.last(), like)));
    }
}

/// A value in a query cannot end the SQL literal in which it stands, and SQL
/// reads back exactly the value.
pub proof fn law_value_stays_in_literal(v: Seq<char>)
    ensures
        quotes_paired(escape(v, false)),
        unquote(escape(v, false)) == v,
    decreases v.len(),
{
    if v.len() > 0 {
        lemma_escape_front(v, false);
        law_value_stays_in_literal(v.drop_first());
        let e = escape(v, false);
        let rest = escape(v.drop_first(), false);
        assert(e.skip(escape_char(v[0], false).len() as int) =~= rest);
        assert(unquote(e) =~= seq![v[0]] + v.drop_first());
        assert(seq![v[0]] + v.drop_first() =~= v);
    }
}

/// A value of `CONTAINS` or `STARTS WITH` cannot end the SQL literal in which
/// it stands, holds no wildcard, and `LIKE` reads back exactly the value.
pub proof fn law_like_value_is_literal(v: Seq<char>)
    ensures
        quotes_paired(escape(v, true)),
        no_wildcard(unquote(escape(v, true))),
        like_plain(unquote(escape(v, true))) == v,
    decreases v.len(),
{
    if v.len() > 0 {
        lemma_escape_front(v, true);
        law_like_value_is_literal(v.drop_first());
        let e = escape(v, true);
        let c = v[0];
        let rest = escape(v.drop_first(), true);
        let u = unquote(rest);
        assert(e.skip(escape_char(c, true).len() as int) =~= rest);
        assert(seq![c] + v.drop_first() =~= v);
        if c == '\'' {
            assert(unquote(e) =~= seq![c] + u);
            assert((seq![c] + u).skip(1) =~= u);
        } else if c == '\\' || c == '%' || c == '_' {
            assert(e.skip(1) =~= seq![c] + rest);
            assert((seq![c] + rest).skip(1) =~= rest);
            assert(unquote(seq![c] + rest) =~= seq![c] + u);
            assert(unquote(e) =~= seq!['\\'] + (seq![c] + u));
            assert((seq!['\\'] + (seq![c] + u)).skip(2) =~= u);
            assert(quotes_paired(seq![c] + rest));
        } else {
            assert(unquote(e) =~= seq![c] + u);
            assert((seq![c] + u).skip(1) =~= u);
        }
    }
}

/// A query only ever reads: what it is turned into is one `SELECT` with a
/// limit of at most [`MAX_LIMIT`] rows.
pub proof fn law_query_reads_only(q: Seq<char>)
    ensures
        query_sql(q) matches Ok(sql) ==> "SELECT DISTINCT "@.is_prefix_of(sql) && exists|n: nat|
            n <= MAX_LIMIT && #[trigger] (" LIMIT "@ + text::decimal(n)).is_suffix_of(sql),
{
    if let Ok(sql) = query_sql(q) {
        let t = text::trim(q);
        let (head, tail) = text::cut(t.skip("match"@.len() as int), " return "@)->0;
        let (pattern, cond) = match text::cut(head, " where "@) {
            Some((p, w)) => (text::trim(p), Some(text::trim(w))),
            None => (text::trim(head), None),
        };
        let (ret, limit) = return_model(tail)->Ok_0;
        let n = if limit < MAX_LIMIT {
            limit
        } else {
            MAX_LIMIT as nat
        };
        let m = pattern_model(
            pattern,
            PatternModel { nodes: Seq::empty(), rels: Seq::empty() },
        )->Ok_0;
        let conds = conditions(m, cond)->Ok_0;
        let cols = all_sql(
            text::split_char(ret, ','),
            |c: Seq<char>| prop_sql(text::trim(c)),
        )->Ok_0;
        let body = text::join(cols, ", "@);
        let mid = text::join(from_items(m, m.rels.len()), ", "@);
        let w = if conds.len() == 0 {
            ""@
        } else {
            " WHERE "@ + text::join(conds, " AND "@)
        };
        let end = " LIMIT "@ + text::decimal(n);
        assert(sql =~= "SELECT DISTINCT "@ + body + " FROM "@ + mid + w + end);
        assert(end.is_suffix_of(sql));
    }
}

/// Whether two translations came to the same: both to the same text, or both to
/// none.
pub open spec fn same_outcome<T>(a: Result<T, Seq<char>>, b: Result<T, Seq<char>>) -> bool {
    match (a, b) {
        (Ok(x), Ok(y)) => x == y,
        (Err(_), Err(_)) => true,
        _ => false,
    }
}

/// Whether a keyword divides two texts into the same parts, or neither of them,
/// which are the same.
pub open spec fn same_around(a: Seq<char>, b: Seq<char>, word: Seq<char>) -> bool {
    match text::cut(a, word) {
        Some(parts) => text::cut(b, word) == Some(parts),
        None => a == b,
    }
}

/// Whether two conditions differ at most in the case of their operator and in the
/// white space around them.
pub open spec fn respelled_clause(a: Seq<char>, b: Seq<char>) -> bool {
    let (x, y) = (text::trim(a), text::trim(b));
    if text::cut(x, " contains "@) is Some {
        same_around(x, y, " contains "@)
    } else {
        text::cut(y, " contains "@) is None && same_around(x, y, " starts with "@)
    }
}

/// Whether two lists of conditions differ at most in the case of their `AND`s and
/// operators.
pub open spec fn respelled_where(a: Seq<char>, b: Seq<char>) -> bool {
    let (x, y) = (and_parts(a, 0, 0), and_parts(b, 0, 0));
    x.len() == y.len() && forall|i: int|
        0 <= i < x.len() ==> respelled_clause(#[trigger] x[i], y[i])
}

/// Whether two heads of queries differ at most in the case of `WHERE` and of what
/// is in it.
pub open spec fn respelled_head(a: Seq<char>, b: Seq<char>) -> bool {
    match (text::cut(a, " where "@), text::cut(b, " where "@)) {
        (Some((p, v)), Some((q, w))) => p == q && respelled_where(text::trim(v), text::trim(w)),
        (None, None) => a == b,
        _ => false,
    }
}

/// Whether two queries differ at most in the case of their keywords (`MATCH`,
/// `WHERE`, `AND`, `CONTAINS`, `STARTS WITH`, `RETURN`, `LIMIT`) and in the white
/// space around them.
pub open spec fn respelled(a: Seq<char>, b: Seq<char>) -> bool {
    let (x, y) = (text::trim(a), text::trim(b));
    &&& text::lower(x) == text::lower(y)
    &&& match (
        text::cut(x.skip("match"@.len() as int), " return "@),
        text::cut(y.skip("match"@.len() as int), " return "@),
    ) {
        (Some((g, s)), Some((h, t))) => respelled_head(g, h) && same_around(s, t, " limit "@),
        (None, None) => true,
        _ => false,
    }
}

proof fn lemma_same_clause(a: Seq<char>, b: Seq<char>)
    requires
        respelled_clause(a, b),
    ensures
        same_outcome(clause_sql(a), clause_sql(b)),
{
    let (x, y) = (text::trim(a), text::trim(b));
    if text::cut(x, " contains "@) is None && text::cut(x, " starts with "@) is None {
        assert(x == y);
    }
}

proof fn lemma_same_clauses(x: Seq<Seq<char>>, y: Seq<Seq<char>>)
    requires
        x.len() == y.len(),
        forall|i: int| 0 <= i < x.len() ==> respelled_clause(#[trigger] x[i], y[i]),
    ensures
        same_outcome(
            all_sql(x, |c: Seq<char>| clause_sql(c)),
            all_sql(y, |c: Seq<char>| clause_sql(c)),
        ),
    decreases x.len(),
{
    if x.len() > 0 {
        let (d, e) = (x.drop_last(), y.drop_last());
        assert forall|i: int| 0 <= i < d.len() implies respelled_clause(#[trigger] d[i], e[i]) by {
            assert(d[i] == x[i] && e[i] == y[i]);
        }
        lemma_same_clauses(d, e);
        assert(respelled_clause(x[x.len() - 1], y[x.len() - 1]));
        lemma_same_clause(x.last(), y.last());
    }
}

/// The case of the letters of a keyword does not matter, nor does the white space
/// around a query: queries that differ in nothing else are turned into the same
/// text, or none of them is turned into one.
pub proof fn law_keywords_in_any_case(a: Seq<char>, b: Seq<char>)
    requires
        respelled(a, b),
    ensures
        same_outcome(query_sql(a), query_sql(b)),
{
    let (x, y) = (text::trim(a), text::trim(b));
    let first = text::cut(x.skip("match"@.len() as int), " return "@);
    let second = text::cut(y.skip("match"@.len() as int), " return "@);
    if let (Some((g, s)), Some((h, t))) = (first, second) {
        assert(return_model(s) == return_model(t));
        if let (Some((p, v)), Some((q, w))) = (
            text::cut(g, " where "@),
            text::cut(h, " where "@),
        ) {
            lemma_same_clauses(and_parts(text::trim(v), 0, 0), and_parts(text::trim(w), 0, 0));
            assert(same_outcome(where_sql(text::trim(v)), where_sql(text::trim(w))));
        }
    }
}

/// Where a keyword divides a text, it does so in any case of its letters.
pub proof fn law_keyword_divides_in_any_case(
    before: Seq<char>,
    spelled: Seq<char>,
    other: Seq<char>,
    after: Seq<char>,
    word: Seq<char>,
)
    requires
        text::lower(spelled) == word,
        text::lower(other) == word,
        text::cut(before + spelled + after, word) == Some((before, after)),
    ensures
        text::cut(before + other + after, word) == Some((before, after)),
        same_around(before + spelled + after, before + other + after, word),
{
    let a = before + spelled + after;
    let b = before + other + after;
    assert(text::lower(spelled).len() == spelled.len());
    assert(text::lower(other).len() == other.len());
    assert(spelled.len() == word.len() && other.len() == word.len());
    assert forall|i: int| 0 <= i < a.len() implies text::lower_char(a[i]) == text::lower_char(
        b[i],
    ) by {
        let j = i - before.len();
        if 0 <= j < word.len() {
            assert(text::lower(spelled)[j] == text::lower_char(spelled[j]));
            assert(text::lower(other)[j] == text::lower_char(other[j]));
        }
    }
    assert(text::lower(a) =~= text::lower(b));
    let p = text::find(text::lower(a), word)->0;
    text::lemma_find_from(text::lower(a), word, 0);
    assert(a.take(p).len() == p);
    assert(b.take(p) =~= before);
    assert(b.skip(p + word.len()) =~= after);
}

/// White space before and after a query does not matter.
pub proof fn law_space_around_a_query(q: Seq<char>, before: Seq<char>, after: Seq<char>)
    requires
        forall|i: int| 0 <= i < before.len() ==> text::is_space(#[trigger] before[i]),
        forall|i: int| 0 <= i < after.len() ==> text::is_space(#[trigger] after[i]),
    ensures
        query_sql(before + q + after) == query_sql(q),
{
    text::lemma_trim_within(q, before, after);
}

} // verus!
