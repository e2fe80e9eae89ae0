//! What the parts of a whole query ask for: its pattern, the properties that it
//! returns and its limit.

use vstd::prelude::*;
use vstd::string::*;

use crate::cypher;
use crate::cypher::{NodeModel, PatternModel};
use crate::cypher_laws;
use crate::store_laws;
use crate::text;

verus! {

/// What a list of properties is read from.
pub open spec fn columns(ret: Seq<char>) -> Result<Seq<Seq<char>>, Seq<char>> {
    cypher::all_sql(
        text::split_char(ret, ','),
        |c: Seq<char>| cypher::prop_sql(text::trim(c)),
    )
}

proof fn lemma_split_plain(s: Seq<char>, sep: char)
    requires
        forall|i: int| 0 <= i < s.len() ==> #[trigger] s[i] != sep,
    ensures
        text::split_char(s, sep) == seq![s],
    decreases s.len(),
{
    if s.len() == 0 {
        assert(s =~= Seq::<char>::empty());
    } else {
        let d = s.drop_last();
        assert(s[s.len() - 1] != sep);
        assert forall|i: int| 0 <= i < d.len() implies #[trigger] d[i] != sep by {
            assert(d[i] == s[i]);
        }
        lemma_split_plain(d, sep);
        let rest = text::split_char(d, sep);
        assert(rest.last() == d);
        assert(d.push(s.last()) =~= s);
        assert(rest.drop_last() =~= Seq::empty());
        assert(rest.drop_last().push(s) =~= seq![s]);
    }
}

proof fn lemma_split_sum(a: Seq<char>, b: Seq<char>, sep: char)
    requires
        forall|i: int| 0 <= i < a.len() ==> #[trigger] a[i] != sep,
    ensures
        text::split_char(a + seq![sep] + b, sep) == seq![a] + text::split_char(b, sep),
    decreases b.len(),
{
    let w = a + seq![sep] + b;
    if b.len() == 0 {
        assert(w.drop_last() =~= a);
        assert(w.last() == sep);
        lemma_split_plain(a, sep);
        assert(seq![a].push(Seq::empty()) =~= seq![a] + seq![Seq::empty()]);
        assert(text::split_char(b, sep) =~= seq![Seq::empty()]);
    } else {
        let d = b.drop_last();
        assert(w.drop_last() =~= a + seq![sep] + d);
        assert(w.last() == b.last());
        lemma_split_sum(a, d, sep);
        text::lemma_split_char(d, sep);
        let x = text::split_char(d, sep);
        let y = seq![a] + x;
        if b.last() == sep {
            assert(y.push(Seq::empty()) =~= seq![a] + x.push(Seq::empty()));
        } else {
            assert(y.last() == x.last());
            assert(y.drop_last() =~= seq![a] + x.drop_last());
            assert(y.drop_last().push(x.last().push(b.last())) =~= seq![a] + x.drop_last().push(
                x.last().push(b.last()),
            ));
        }
    }
}

/// Each property that is returned is a column, in the order in which they stand:
/// one property is one column, and what stands behind a comma follows.
pub proof fn law_returned_properties_are_columns(first: Seq<char>, rest: Seq<char>)
    requires
        forall|i: int| 0 <= i < first.len() ==> #[trigger] first[i] != ',',
    ensures
        columns(first) == (match cypher::prop_sql(text::trim(first)) {
            Ok(c) => Ok::<Seq<Seq<char>>, Seq<char>>(seq![c]),
            Err(e) => Err(e),
        }),
        columns(first + ","@ + rest) == (match (cypher::prop_sql(text::trim(first)), columns(rest)) {
            (Err(e), _) => Err::<Seq<Seq<char>>, Seq<char>>(e),
            (Ok(_), Err(e)) => Err(e),
            (Ok(c), Ok(more)) => Ok(seq![c] + more),
        }),
{
    let f = |c: Seq<char>| cypher::prop_sql(text::trim(c));
    reveal_strlit(",");
    assert(","@ =~= seq![',']);
    lemma_split_plain(first, ',');
    lemma_split_sum(first, rest, ',');
    let x = seq![first];
    assert(x.drop_last() =~= Seq::empty());
    assert(cypher::all_sql(x.drop_last(), f) == Ok::<Seq<Seq<char>>, Seq<char>>(Seq::empty()));
    if let Ok(c) = cypher::prop_sql(text::trim(first)) {
        assert(Seq::empty().push(c) =~= seq![c]);
    }
    cypher_laws::lemma_all_sum(x, text::split_char(rest, ','), f);
}

/// A condition, and behind it another one where there is one.
pub open spec fn and_also(s: Seq<char>, more: Option<Seq<char>>) -> Seq<char> {
    match more {
        Some(m) => s + " AND "@ + m,
        None => s,
    }
}

/// What a label asks of a node.
pub open spec fn label_asked(n: NodeModel) -> Option<Seq<char>> {
    match n.label {
        Some(l) => Some(n.var + ".label = '"@ + l + "'"@),
        None => None,
    }
}

/// What a relation asks of an edge.
pub open spec fn relation_asked(edge: Seq<char>, rel: Option<Seq<char>>) -> Option<Seq<char>> {
    match rel {
        Some(r) => Some(edge + ".relation = '"@ + r + "'"@),
        None => None,
    }
}

/// Whether what is asked for by name is a word.
pub open spec fn is_plain(name: Option<Seq<char>>) -> bool {
    name matches Some(n) ==> cypher_laws::is_word(n)
}

/// Whether the SQL of a condition, where there is one, is this.
pub open spec fn is_condition(cond: Option<Seq<char>>, sql: Option<Seq<char>>) -> bool {
    match cond {
        Some(w) => sql is Some && cypher::where_sql(w) == Ok::<Seq<char>, Seq<char>>(sql->0),
        None => sql is None,
    }
}

proof fn lemma_word(s: Seq<char>)
    requires
        cypher_laws::is_word(s),
    ensures
        cypher::is_ident(s),
{
    assert forall|i: int| 0 <= i < s.len() implies text::is_alnum(#[trigger] s[i]) || s[i]
        == '_' by {}
}

proof fn lemma_join_push(x: Seq<Seq<char>>, p: Seq<char>, sep: Seq<char>)
    requires
        x.len() > 0,
    ensures
        text::join(x.push(p), sep) == text::join(x, sep) + sep + p,
{
    assert(x.push(p).drop_last() =~= x);
}

/// The SQL of what a query asks for, with its parts one after the other.
pub open spec fn select(
    cols: Seq<Seq<char>>,
    from: Seq<char>,
    conds: Seq<char>,
    limit: nat,
) -> Seq<char> {
    "SELECT DISTINCT "@ + text::join(cols, ", "@) + " FROM "@ + from + conds + " LIMIT "@
        + text::decimal(limit)
}

/// A pattern of one node asks for the nodes with its label that meet the
/// condition.
pub proof fn law_one_node_is_asked_for(
    a: NodeModel,
    cond: Option<Seq<char>>,
    sql: Option<Seq<char>>,
    ret: Seq<char>,
    cols: Seq<Seq<char>>,
    limit: nat,
)
    requires
        is_plain(a.label),
        is_condition(cond, sql),
        columns(ret) == Ok::<Seq<Seq<char>>, Seq<char>>(cols),
    ensures
        cypher::select_sql(
            PatternModel { nodes: seq![a], rels: Seq::empty() },
            cond,
            ret,
            limit,
        ) == Ok::<Seq<char>, Seq<char>>(
            select(
                cols,
                "nodes "@ + a.var,
                match (label_asked(a), sql) {
                    (Some(l), _) => " WHERE "@ + and_also(l, sql),
                    (None, Some(w)) => " WHERE "@ + w,
                    (None, None) => ""@,
                },
                limit,
            ),
        ),
{
    let m = PatternModel { nodes: seq![a], rels: Seq::<Option<Seq<char>>>::empty() };
    if let Some(l) = a.label {
        lemma_word(l);
    }
    reveal_with_fuel(cypher::rel_conds, 2);
    reveal_with_fuel(cypher::label_conds, 3);
    reveal_with_fuel(cypher::from_items, 2);
    let none = Seq::<Seq<char>>::empty();
    assert(m.nodes[0] == a);
    assert(cypher::rel_conds(m, 0) == Ok::<Seq<Seq<char>>, Seq<char>>(none));
    let b = match label_asked(a) {
        Some(l) => none.push(l),
        None => none,
    };
    assert(cypher::label_conds(m, none, 1) == Ok::<Seq<Seq<char>>, Seq<char>>(b));
    let c = match sql {
        Some(w) => b.push(w),
        None => b,
    };
    assert(cypher::conditions(m, cond) == Ok::<Seq<Seq<char>>, Seq<char>>(c));
    if label_asked(a) is Some && sql is Some {
        lemma_join_push(b, sql->0, " AND "@);
    }
    assert(cypher::from_items(m, 0) == seq!["nodes "@ + a.var]);
}

/// What an edge asks of the two nodes that it stands between: it leads from the
/// first to the second.
pub open spec fn leads_over(edge: Seq<char>, a: Seq<char>, b: Seq<char>) -> Seq<char> {
    edge + ".src = "@ + a + ".id AND "@ + edge + ".dst = "@ + b + ".id"@
}

/// A pattern of two nodes asks for the pairs of nodes such that an edge of the
/// relation leads from the first to the second, with their labels, that meet the
/// condition.
pub proof fn law_edge_leads_to_the_second_node(
    a: NodeModel,
    rel: Option<Seq<char>>,
    b: NodeModel,
    cond: Option<Seq<char>>,
    sql: Option<Seq<char>>,
    ret: Seq<char>,
    cols: Seq<Seq<char>>,
    limit: nat,
)
    requires
        is_plain(a.label),
        is_plain(b.label),
        is_plain(rel),
        is_condition(cond, sql),
        columns(ret) == Ok::<Seq<Seq<char>>, Seq<char>>(cols),
    ensures
        cypher::select_sql(
            PatternModel { nodes: seq![a, b], rels: seq![rel] },
            cond,
            ret,
            limit,
        ) == Ok::<Seq<char>, Seq<char>>(
            select(
                cols,
                "nodes "@ + a.var + ", edges e0, nodes "@ + b.var,
                " WHERE "@ + and_also(
                    and_also(
                        and_also(
                            and_also(
                                leads_over("e0"@, a.var, b.var),
                                relation_asked("e0"@, rel),
                            ),
                            label_asked(a),
                        ),
                        label_asked(b),
                    ),
                    sql,
                ),
                limit,
            ),
        ),
{
    let m = PatternModel { nodes: seq![a, b], rels: seq![rel] };
    let and = " AND "@;
    lemma_plain(a.label);
    lemma_plain(b.label);
    lemma_plain(rel);
    assert(m.nodes[0] == a && m.nodes[1] == b && m.rels[0] == rel);
    lemma_number_names();
    let none = Seq::<Seq<char>>::empty();
    assert(cypher::rel_conds(m, 0) == Ok::<Seq<Seq<char>>, Seq<char>>(none));
    let c0 = none.push(leads_over("e0"@, a.var, b.var));
    let c1 = added(c0, relation_asked("e0"@, rel));
    assert(cypher::rel_conds(m, 1) == Ok::<Seq<Seq<char>>, Seq<char>>(c1));
    assert(cypher::label_conds(m, c1, 0) == Ok::<Seq<Seq<char>>, Seq<char>>(c1));
    let c2 = added(c1, label_asked(a));
    assert(cypher::label_conds(m, c1, 1) == Ok::<Seq<Seq<char>>, Seq<char>>(c2));
    let c3 = added(c2, label_asked(b));
    assert(cypher::label_conds(m, c1, 2) == Ok::<Seq<Seq<char>>, Seq<char>>(c3));
    let c4 = added(c3, sql);
    assert(cypher::conditions(m, cond) == Ok::<Seq<Seq<char>>, Seq<char>>(c4));
    assert(text::join(c0, and) == c0[0]);
    lemma_added(c0, relation_asked("e0"@, rel));
    lemma_added(c1, label_asked(a));
    lemma_added(c2, label_asked(b));
    lemma_added(c3, sql);
    lemma_from_two(m);
}

/// A pattern of three nodes asks for an edge from the first to the second and
/// for one from the second to the third.
pub proof fn law_edges_lead_on_to_the_third_node(
    a: NodeModel,
    rel: Option<Seq<char>>,
    b: NodeModel,
    next: Option<Seq<char>>,
    c: NodeModel,
    cond: Option<Seq<char>>,
    sql: Option<Seq<char>>,
    ret: Seq<char>,
    cols: Seq<Seq<char>>,
    limit: nat,
)
    requires
        is_plain(a.label),
        is_plain(b.label),
        is_plain(c.label),
        is_plain(rel),
        is_plain(next),
        is_condition(cond, sql),
        columns(ret) == Ok::<Seq<Seq<char>>, Seq<char>>(cols),
    ensures
        cypher::select_sql(
            PatternModel { nodes: seq![a, b, c], rels: seq![rel, next] },
            cond,
            ret,
            limit,
        ) == Ok::<Seq<char>, Seq<char>>(
            select(
                cols,
                "nodes "@ + a.var + ", edges e0, nodes "@ + b.var + ", edges e1, nodes "@ + c.var,
                " WHERE "@ + and_also(
                    and_also(
                        and_also(
                            and_also(
                                and_also(
                                    and_also(
                                        and_also(
                                            leads_over("e0"@, a.var, b.var),
                                            relation_asked("e0"@, rel),
                                        ),
                                        Some(leads_over("e1"@, b.var, c.var)),
                                    ),
                                    relation_asked("e1"@, next),
                                ),
                                label_asked(a),
                            ),
                            label_asked(b),
                        ),
                        label_asked(c),
                    ),
                    sql,
                ),
                limit,
            ),
        ),
{
    let m = PatternModel { nodes: seq![a, b, c], rels: seq![rel, next] };
    let and = " AND "@;
    lemma_plain(a.label);
    lemma_plain(b.label);
    lemma_plain(c.label);
    lemma_plain(rel);
    lemma_plain(next);
    assert(m.nodes[0] == a && m.nodes[1] == b && m.nodes[2] == c);
    assert(m.rels[0] == rel && m.rels[1] == next);
    lemma_number_names();
    let none = Seq::<Seq<char>>::empty();
    assert(cypher::rel_conds(m, 0) == Ok::<Seq<Seq<char>>, Seq<char>>(none));
    let c0 = none.push(leads_over("e0"@, a.var, b.var));
    let c1 = added(c0, relation_asked("e0"@, rel));
    assert(cypher::rel_conds(m, 1) == Ok::<Seq<Seq<char>>, Seq<char>>(c1));
    let c2 = c1.push(leads_over("e1"@, b.var, c.var));
    let c3 = added(c2, relation_asked("e1"@, next));
    assert(cypher::rel_conds(m, 2) == Ok::<Seq<Seq<char>>, Seq<char>>(c3));
    assert(cypher::label_conds(m, c3, 0) == Ok::<Seq<Seq<char>>, Seq<char>>(c3));
    let c4 = added(c3, label_asked(a));
    assert(cypher::label_conds(m, c3, 1) == Ok::<Seq<Seq<char>>, Seq<char>>(c4));
    let c5 = added(c4, label_asked(b));
    assert(cypher::label_conds(m, c3, 2) == Ok::<Seq<Seq<char>>, Seq<char>>(c5));
    let c6 = added(c5, label_asked(c));
    assert(cypher::label_conds(m, c3, 3) == Ok::<Seq<Seq<char>>, Seq<char>>(c6));
    let c7 = added(c6, sql);
    assert(cypher::conditions(m, cond) == Ok::<Seq<Seq<char>>, Seq<char>>(c7));
    assert(text::join(c0, and) == c0[0]);
    lemma_added(c0, relation_asked("e0"@, rel));
    lemma_added(c1, Some(leads_over("e1"@, b.var, c.var)));
    lemma_added(c2, relation_asked("e1"@, next));
    lemma_added(c3, label_asked(a));
    lemma_added(c4, label_asked(b));
    lemma_added(c5, label_asked(c));
    lemma_added(c6, sql);
    lemma_from_three(m);
}

spec fn added(x: Seq<Seq<char>>, more: Option<Seq<char>>) -> Seq<Seq<char>> {
    match more {
        Some(m) => x.push(m),
        None => x,
    }
}

proof fn lemma_added(x: Seq<Seq<char>>, more: Option<Seq<char>>)
    requires
        x.len() > 0,
    ensures
        text::join(added(x, more), " AND "@) == and_also(text::join(x, " AND "@), more),
        added(x, more).len() > 0,
{
    if let Some(m) = more {
        lemma_join_push(x, m, " AND "@);
    }
}

proof fn lemma_plain(name: Option<Seq<char>>)
    requires
        is_plain(name),
    ensures
        name matches Some(n) ==> cypher::is_ident(n),
{
    if let Some(n) = name {
        lemma_word(n);
    }
}

proof fn lemma_number_names()
    ensures
        "e"@ + text::decimal(0) == "e0"@,
        "e"@ + text::decimal(1) == "e1"@,
        "edges e"@ + text::decimal(0) == "edges e0"@,
        "edges e"@ + text::decimal(1) == "edges e1"@,
{
    reveal_strlit("e");
    reveal_strlit("e0");
    reveal_strlit("e1");
    reveal_strlit("edges e");
    reveal_strlit("edges e0");
    reveal_strlit("edges e1");
    assert(text::decimal(0) =~= seq!['0']);
    assert(text::decimal(1) =~= seq!['1']);
    assert("e"@ + text::decimal(0) =~= "e0"@);
    assert("e"@ + text::decimal(1) =~= "e1"@);
    assert("edges e"@ + text::decimal(0) =~= "edges e0"@);
    assert("edges e"@ + text::decimal(1) =~= "edges e1"@);
}

proof fn lemma_from_two(m: PatternModel)
    requires
        m.nodes.len() >= 2,
    ensures
        text::join(cypher::from_items(m, 1), ", "@) == "nodes "@ + m.nodes[0].var
            + ", edges e0, nodes "@ + m.nodes[1].var,
        cypher::from_items(m, 1).len() == 3,
{
    reveal_strlit(", ");
    reveal_strlit("edges e0");
    reveal_strlit("nodes ");
    reveal_strlit(", edges e0, nodes ");
    lemma_number_names();
    let x = seq!["nodes "@ + m.nodes[0].var];
    assert(cypher::from_items(m, 0) == x);
    let y = x.push("edges e0"@);
    let z = y.push("nodes "@ + m.nodes[1].var);
    assert(cypher::from_items(m, 1) == z);
    lemma_join_push(x, "edges e0"@, ", "@);
    lemma_join_push(y, "nodes "@ + m.nodes[1].var, ", "@);
    assert(", edges e0, nodes "@ =~= ", "@ + "edges e0"@ + ", "@ + "nodes "@);
    assert(text::join(z, ", "@) =~= "nodes "@ + m.nodes[0].var + ", edges e0, nodes "@
        + m.nodes[1].var);
}

proof fn lemma_from_three(m: PatternModel)
    requires
        m.nodes.len() >= 3,
    ensures
        text::join(cypher::from_items(m, 2), ", "@) == "nodes "@ + m.nodes[0].var
            + ", edges e0, nodes "@ + m.nodes[1].var + ", edges e1, nodes "@ + m.nodes[2].var,
{
    reveal_strlit(", ");
    reveal_strlit("edges e1");
    reveal_strlit("nodes ");
    reveal_strlit(", edges e1, nodes ");
    lemma_number_names();
    lemma_from_two(m);
    let x = cypher::from_items(m, 1);
    let y = x.push("edges e1"@);
    let z = y.push("nodes "@ + m.nodes[2].var);
    assert(cypher::from_items(m, 2) == z);
    lemma_join_push(x, "edges e1"@, ", "@);
    lemma_join_push(y, "nodes "@ + m.nodes[2].var, ", "@);
    assert(", edges e1, nodes "@ =~= ", "@ + "edges e1"@ + ", "@ + "nodes "@);
    assert(text::join(z, ", "@) =~= text::join(x, ", "@) + ", edges e1, nodes "@ + m.nodes[2].var);
}

/// A node is written as a variable, with a label behind a colon or without one.
pub proof fn law_node_is_read(var: Seq<char>, label: Seq<char>)
    requires
        var.len() > 0,
        cypher_laws::is_word(var),
        cypher_laws::is_word(label),
    ensures
        cypher::node_model(var) == Ok::<NodeModel, Seq<char>>(NodeModel { var, label: None }),
        cypher::node_model(var + ":"@ + label) == Ok::<NodeModel, Seq<char>>(
            NodeModel { var, label: Some(label) },
        ),
{
    reveal_strlit(":");
    assert(":"@ =~= seq![':']);
    lemma_word(var);
    cypher_laws::lemma_trim_word(var);
    cypher_laws::lemma_trim_word(label);
    cypher_laws::lemma_first_mark(var, ':', label);
    lemma_no_mark(var, ':');
}

proof fn lemma_no_mark(s: Seq<char>, c: char)
    requires
        !text::is_upper(c),
        !text::is_lower(c),
        forall|i: int| 0 <= i < s.len() ==> #[trigger] s[i] != c,
    ensures
        text::cut(s, seq![c]) is None,
{
    let l = text::lower(s);
    text::lemma_find_from(l, seq![c], 0);
    if let Some(p) = text::find_from(l, seq![c], 0) {
        assert(l.subrange(p, p + 1)[0] == l[p]);
        assert(l[p] == text::lower_char(s[p]));
    }
}

/// What a text in round brackets opens with is read up to the bracket that
/// closes it.
proof fn lemma_bracket(inner: Seq<char>, after: Seq<char>)
    requires
        forall|i: int| 0 <= i < inner.len() ==> #[trigger] inner[i] != ')',
    ensures
        "("@.is_prefix_of("("@ + inner + ")"@ + after),
        text::cut("("@ + inner + ")"@ + after, ")"@) == Some(("("@ + inner, after)),
        ("("@ + inner).skip("("@.len() as int) == inner,
{
    reveal_strlit("(");
    reveal_strlit(")");
    assert(")"@ =~= seq![')']);
    let opened = "("@ + inner;
    assert forall|i: int| 0 <= i < opened.len() implies #[trigger] opened[i] != ')' by {
        if i > 0 {
            assert(opened[i] == inner[i - 1]);
        }
    }
    cypher_laws::lemma_first_mark(opened, ')', after);
    assert(opened.skip(1) =~= inner);
    let all = opened + ")"@ + after;
    assert(all.subrange(0, 1) =~= "("@);
}

/// The last node of a pattern ends it.
pub proof fn law_last_node_ends_a_pattern(inner: Seq<char>, node: NodeModel, done: PatternModel)
    requires
        forall|i: int| 0 <= i < inner.len() ==> #[trigger] inner[i] != ')',
        cypher::node_model(inner) == Ok::<NodeModel, Seq<char>>(node),
    ensures
        cypher::pattern_model("("@ + inner + ")"@, done) == Ok::<PatternModel, Seq<char>>(
            PatternModel { nodes: done.nodes.push(node), rels: done.rels },
        ),
{
    lemma_bracket(inner, Seq::empty());
    assert("("@ + inner + ")"@ + Seq::<char>::empty() =~= "("@ + inner + ")"@);
    cypher_laws::lemma_trim_word(Seq::empty());
}

/// What leads on from a node of a pattern is the relation between it and the
/// next node, in the direction in which they stand; an arrow without a name
/// leads over any relation.
pub proof fn law_pattern_leads_on(
    inner: Seq<char>,
    node: NodeModel,
    rel: Seq<char>,
    rest: Seq<char>,
    done: PatternModel,
)
    requires
        forall|i: int| 0 <= i < inner.len() ==> #[trigger] inner[i] != ')',
        cypher::node_model(inner) == Ok::<NodeModel, Seq<char>>(node),
        done.nodes.len() < 2,
        rel.len() > 0,
        cypher_laws::is_word(rel),
        rest.len() > 0,
        !text::is_space(rest[0]),
        !text::is_space(rest.last()),
    ensures
        cypher::pattern_model("("@ + inner + ")-[:"@ + rel + "]->"@ + rest, done)
            == cypher::pattern_model(
            rest,
            PatternModel { nodes: done.nodes.push(node), rels: done.rels.push(Some(rel)) },
        ),
        cypher::pattern_model("("@ + inner + ")-->"@ + rest, done) == cypher::pattern_model(
            rest,
            PatternModel { nodes: done.nodes.push(node), rels: done.rels.push(None) },
        ),
{
    reveal_strlit(")");
    reveal_strlit("-[");
    reveal_strlit("-->");
    reveal_strlit("]->");
    reveal_strlit(")-[:");
    reveal_strlit(")-->");
    let after = "-["@ + (seq![':'] + rel) + "]->"@ + rest;
    let arrow = "-->"@ + rest;
    assert("("@ + inner + ")-[:"@ + rel + "]->"@ + rest =~= "("@ + inner + ")"@ + after);
    assert("("@ + inner + ")-->"@ + rest =~= "("@ + inner + ")"@ + arrow);
    lemma_bracket(inner, after);
    lemma_bracket(inner, arrow);
    cypher_laws::lemma_trim_word(rest);
    // The named relation.
    assert(after.last() == rest.last() && after[0] == '-');
    cypher_laws::lemma_trim_word(after);
    assert("-["@.is_prefix_of(after)) by {
        assert(after.subrange(0, 2) =~= "-["@);
    }
    let head = seq![':'] + rel;
    assert(after.skip(2) =~= head + "]->"@ + rest);
    lemma_arrow(head, rest);
    assert(head.last() == rel.last());
    cypher_laws::lemma_trim_word(head);
    cypher_laws::lemma_trim_word(rel);
    assert(text::strip_lead(head, ':') == rel) by {
        assert(head.drop_first() =~= rel);
        assert(rel[0] != ':');
        assert(text::strip_lead(rel, ':') == rel);
    }
    assert(cypher::rel_model(after) == Ok::<(Option<Seq<char>>, Seq<char>), Seq<char>>(
        (Some(rel), rest),
    ));
    // The arrow alone.
    assert(arrow.last() == rest.last() && arrow[0] == '-');
    cypher_laws::lemma_trim_word(arrow);
    assert(!"-["@.is_prefix_of(arrow)) by {
        assert(arrow[1] == '-');
        if "-["@.is_prefix_of(arrow) {
            assert(arrow.subrange(0, 2) == "-["@);
            assert(arrow.subrange(0, 2)[1] == arrow[1]);
        }
    }
    assert("-->"@.is_prefix_of(arrow)) by {
        assert(arrow.subrange(0, 3) =~= "-->"@);
    }
    assert(arrow.skip(3) =~= rest);
    assert(cypher::rel_model(arrow) == Ok::<(Option<Seq<char>>, Seq<char>), Seq<char>>(
        (None, rest),
    ));
}

proof fn lemma_arrow(head: Seq<char>, rest: Seq<char>)
    requires
        forall|i: int| 0 <= i < head.len() ==> #[trigger] head[i] != ']',
    ensures
        text::cut(head + "]->"@ + rest, "]->"@) == Some((head, rest)),
{
    reveal_strlit("]->");
    let s = head + "]->"@ + rest;
    let l = text::lower(s);
    let p = head.len() as int;
    assert(l.subrange(p, p + 3) =~= "]->"@);
    assert forall|i: int| 0 <= i < p implies !text::occurs_at(l, "]->"@, i) by {
        if text::occurs_at(l, "]->"@, i) {
            assert(l.subrange(i, i + 3)[0] == l[i]);
            assert(l[i] == text::lower_char(s[i]));
            assert(s[i] == head[i]);
        }
    }
    cypher_laws::lemma_find_is(l, "]->"@, 0, p);
    assert(s.take(p) =~= head);
    assert(s.skip(p + 3) =~= rest);
}

/// Whether a word, in either case, stands in a text for the first time behind
/// its first part.
pub open spec fn first_behind(part: Seq<char>, word: Seq<char>, s: Seq<char>) -> bool {
    text::find(text::lower(s), word) == Some(part.len() as int)
}

/// What is returned, and how many rows: fifty where no limit is given, else as
/// many as it says.
pub proof fn law_limit_is_read(ret: Seq<char>, k: nat)
    requires
        !text::has_text(text::lower(ret), " limit "@),
        first_behind(ret, " limit "@, ret + " LIMIT "@ + text::decimal(k)),
        k <= u32::MAX,
    ensures
        cypher::return_model(ret) == Ok::<(Seq<char>, nat), Seq<char>>((text::trim(ret), 50)),
        cypher::return_model(ret + " LIMIT "@ + text::decimal(k)) == Ok::<
            (Seq<char>, nat),
            Seq<char>,
        >((text::trim(ret), k)),
{
    text::lemma_find_from(text::lower(ret), " limit "@, 0);
    reveal_strlit(" limit ");
    reveal_strlit(" LIMIT ");
    let s = ret + " LIMIT "@ + text::decimal(k);
    assert(s.take(ret.len() as int) =~= ret);
    assert(s.skip((ret.len() + 7) as int) =~= text::decimal(k));
    store_laws::lemma_decimal(k);
    let d = text::decimal(k);
    assert(text::is_digit(d[0]) && text::is_digit(d[d.len() - 1]));
    cypher_laws::lemma_trim_word(d);
    store_laws::law_number_reads_back(k);
}

/// A whole query is divided at its words: the pattern stands behind `MATCH`, the
/// condition behind `WHERE`, and what is returned behind `RETURN`. No query
/// returns more than five hundred rows.
pub proof fn law_query_is_divided(
    pattern: Seq<char>,
    m: PatternModel,
    cond: Seq<char>,
    tail: Seq<char>,
    ret: Seq<char>,
    k: nat,
)
    requires
        pattern.len() > 0,
        pattern[0] == '(',
        !text::is_space(pattern.last()),
        cond.len() > 0,
        !text::is_space(cond[0]),
        !text::is_space(cond.last()),
        tail.len() > 0,
        !text::is_space(tail.last()),
        cypher::pattern_model(
            pattern,
            PatternModel { nodes: Seq::empty(), rels: Seq::empty() },
        ) == Ok::<PatternModel, Seq<char>>(m),
        cypher::return_model(tail) == Ok::<(Seq<char>, nat), Seq<char>>((ret, k)),
        !text::has_text(text::lower(" "@ + pattern), " where "@),
        first_behind(" "@ + pattern, " where "@, " "@ + pattern + " WHERE "@ + cond),
        first_behind(" "@ + pattern, " return "@, " "@ + pattern + " RETURN "@ + tail),
        first_behind(
            " "@ + pattern + " WHERE "@ + cond,
            " return "@,
            " "@ + pattern + " WHERE "@ + cond + " RETURN "@ + tail,
        ),
    ensures
        cypher::query_sql("MATCH "@ + pattern + " RETURN "@ + tail) == cypher::select_sql(
            m,
            None,
            ret,
            if k < 500 {
                k
            } else {
                500
            },
        ),
        cypher::query_sql("MATCH "@ + pattern + " WHERE "@ + cond + " RETURN "@ + tail)
            == cypher::select_sql(
            m,
            Some(cond),
            ret,
            if k < 500 {
                k
            } else {
                500
            },
        ),
{
    let plain = " "@ + pattern;
    let head = plain + " WHERE "@ + cond;
    reveal_strlit(" where ");
    reveal_strlit(" WHERE ");
    lemma_spelled(plain, tail);
    lemma_spelled(head, tail);
    assert("MATCH"@ + plain + " RETURN "@ + tail =~= "MATCH "@ + pattern + " RETURN "@ + tail) by {
        lemma_space();
        assert("MATCH"@ + (" "@ + pattern) =~= "MATCH "@ + pattern);
    }
    assert("MATCH"@ + head + " RETURN "@ + tail =~= "MATCH "@ + pattern + " WHERE "@ + cond
        + " RETURN "@ + tail) by {
        lemma_space();
        assert("MATCH"@ + (" "@ + pattern + " WHERE "@ + cond) =~= "MATCH "@ + pattern + " WHERE "@
            + cond);
    }
    lemma_divided(plain, " WHERE "@, cond, " where "@);
    text::lemma_find_from(text::lower(plain), " where "@, 0);
    cypher_laws::lemma_trim_word(pattern);
    cypher_laws::lemma_trim_word(cond);
    assert(text::trim(plain) == pattern) by {
        reveal_strlit(" ");
        assert(plain =~= seq![' '] + pattern + Seq::<char>::empty());
        text::lemma_trim_within(pattern, seq![' '], Seq::empty());
    }
}

proof fn lemma_space()
    ensures
        "MATCH"@ + " "@ == "MATCH "@,
{
    reveal_strlit("MATCH");
    reveal_strlit(" ");
    reveal_strlit("MATCH ");
    assert("MATCH"@ + " "@ =~= "MATCH "@);
}

proof fn lemma_spelled(head: Seq<char>, tail: Seq<char>)
    requires
        tail.len() > 0,
        !text::is_space(tail.last()),
        first_behind(head, " return "@, head + " RETURN "@ + tail),
    ensures
        ({
            let q = "MATCH"@ + head + " RETURN "@ + tail;
            &&& text::trim(q) == q
            &&& "match"@.is_prefix_of(text::lower(q))
            &&& text::cut(q.skip("match"@.len() as int), " return "@) == Some((head, tail))
        }),
{
    let q = "MATCH"@ + head + " RETURN "@ + tail;
    reveal_strlit("MATCH");
    reveal_strlit("match");
    reveal_strlit(" return ");
    reveal_strlit(" RETURN ");
    assert(q.last() == tail.last());
    assert(q[0] == 'M');
    cypher_laws::lemma_trim_word(q);
    assert(text::lower(q).subrange(0, 5) =~= "match"@);
    assert(q.skip(5) =~= head + " RETURN "@ + tail);
    lemma_divided(head, " RETURN "@, tail, " return "@);
}

proof fn lemma_divided(a: Seq<char>, spelled: Seq<char>, b: Seq<char>, word: Seq<char>)
    requires
        first_behind(a, word, a + spelled + b),
        spelled.len() == word.len(),
    ensures
        text::cut(a + spelled + b, word) == Some((a, b)),
{
    let s = a + spelled + b;
    assert(s.take(a.len() as int) =~= a);
    assert(s.skip((a.len() + word.len()) as int) =~= b);
}

} // verus!
