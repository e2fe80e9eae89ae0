//! The report on a graph: every number in it is one of the graph's.

use vstd::prelude::*;
use vstd::string::*;

use crate::order;
use crate::rebuild;
use crate::rows;
use crate::rows::Row;
use crate::store;
use crate::store::{Store, StoreModel};
use crate::store_edges;
use crate::store_lists;
use crate::store_queries;
use crate::tables::{CoChange, CoChangeModel};
use crate::text;
use crate::tools_lists;
use crate::types;
use crate::types::{
    Edge, EdgeModel, EdgeRelation, MetaModel, MetaValue, Metadata, Node, NodeLabel, NodeModel,
};
use crate::value;
use crate::value::{Datum, DatumModel};
use crate::viz;
use crate::viz::{Scored, ScoredModel};

verus! {

/// The lines of a report one under the other.
pub open spec fn written(lines: Seq<Seq<char>>) -> Seq<char>
    decreases lines.len(),
{
    if lines.len() == 0 {
        Seq::empty()
    } else {
        written(lines.drop_last()) + lines.last() + "\n"@
    }
}

/// See [`written`].
pub fn write_lines(lines: &Vec<String>) -> (r: String)
    ensures
        r@ == written(text::views(lines@)),
{
    let ghost all = text::views(lines@);
    let mut out = String::new();
    let mut i: usize = 0;
    assert(out@ =~= written(all.take(0)));
    while i < lines.len()
        invariant
            i <= lines.len(),
            all == text::views(lines@),
            out@ == written(all.take(i as int)),
        decreases lines.len() - i,
    {
        assert(all.take(i + 1).drop_last() =~= all.take(i as int));
        assert(all.take(i + 1).last() == lines@[i as int]@);
        out = out.concat(lines[i].as_str()).concat("\n");
        i += 1;
    }
    assert(all.take(lines@.len() as int) =~= all);
    out
}

fn push_line(lines: &mut Vec<String>, s: String)
    ensures
        text::views(final(lines)@) == text::views(old(lines)@).push(s@),
{
    let ghost was = text::views(lines@);
    lines.push(s);
    assert(text::views(lines@) =~= was.push(s@));
}

/// The lines at the top of a report.
pub open spec fn title_lines(project: Seq<char>, version: Seq<char>, generation: nat) -> Seq<
    Seq<char>,
> {
    seq![
        "# CodeGraph report — "@ + project,
        "\n_Deterministic snapshot (no LLM involved) — codegraph v"@ + version
            + ", graph generation "@ + text::decimal(generation) + "._\n"@,
    ]
}

/// Adds the lines at the top.
fn add_title(lines: &mut Vec<String>, project: &str, version: &str, generation: u64)
    ensures
        text::views(final(lines)@) == text::views(old(lines)@) + title_lines(
            project@,
            version@,
            generation as nat,
        ),
{
    let ghost was = text::views(lines@);
    push_line(lines, "# CodeGraph report — ".to_owned().concat(project));
    let g = text::to_decimal(generation);
    push_line(
        lines,
        "\n_Deterministic snapshot (no LLM involved) — codegraph v".to_owned().concat(
            version,
        ).concat(", graph generation ").concat(g.as_str()).concat("._\n"),
    );
    assert(text::views(lines@) =~= was + title_lines(project@, version@, generation as nat));
}

/// A count with a word before it, or in brackets behind it.
pub open spec fn count_text(brackets: bool) -> spec_fn((Seq<char>, nat)) -> Seq<char> {
    |c: (Seq<char>, nat)|
        if brackets {
            c.0 + " ("@ + text::decimal(c.1) + ")"@
        } else {
            c.0 + " "@ + text::decimal(c.1)
        }
}

/// Counts in one line.
pub open spec fn count_line(
    counts: Seq<(Seq<char>, nat)>,
    brackets: bool,
    sep: Seq<char>,
) -> Seq<char> {
    text::join(counts.map_values(count_text(brackets)), sep)
}

fn say_counts(counts: &Vec<(String, usize)>, brackets: bool, sep: &str) -> (r: String)
    ensures
        r@ == count_line(viz::count_views(counts@), brackets, sep@),
{
    let ghost all = viz::count_views(counts@);
    let mut parts: Vec<String> = Vec::new();
    let mut i: usize = 0;
    while i < counts.len()
        invariant
            i <= counts.len(),
            all == viz::count_views(counts@),
            text::views(parts@) == all.take(i as int).map_values(count_text(brackets)),
        decreases counts.len() - i,
    {
        let ghost was = text::views(parts@);
        assert(all[i as int] == (counts@[i as int].0@, counts@[i as int].1 as nat));
        let n = text::to_decimal(counts[i].1 as u64);
        let s = if brackets {
            counts[i].0.clone().concat(" (").concat(n.as_str()).concat(")")
        } else {
            counts[i].0.clone().concat(" ").concat(n.as_str())
        };
        push_line(&mut parts, s);
        assert(all.take(i + 1).map_values(count_text(brackets)) =~= was.push(s@));
        i += 1;
    }
    assert(all.take(all.len() as int) =~= all);
    text::joined(&parts, sep)
}

/// The languages of symbols.
pub open spec fn speaks() -> spec_fn(NodeModel) -> bool {
    |n: NodeModel| viz::is_symbol(n) && n.language.len() > 0
}

/// The kinds of nodes, each with how many there are.
pub open spec fn label_counts(nodes: Seq<NodeModel>) -> Seq<(Seq<char>, nat)> {
    viz::counted(nodes.map_values(|n: NodeModel| n.label.text()))
}

/// The relations of edges, each with how many there are.
pub open spec fn relation_counts(edges: Seq<EdgeModel>) -> Seq<(Seq<char>, nat)> {
    viz::counted(edges.map_values(|e: EdgeModel| e.relation.text()))
}

/// The languages of symbols, each with how many there are.
pub open spec fn language_counts(nodes: Seq<NodeModel>) -> Seq<(Seq<char>, nat)> {
    viz::counted(rows::kept(nodes, speaks()).map_values(|n: NodeModel| n.language))
}

/// See [`label_counts`].
pub fn count_labels(nodes: &Vec<Node>) -> (r: Vec<(String, usize)>)
    ensures
        viz::count_views(r@) == label_counts(types::node_views(nodes@)),
{
    let mut keys: Vec<String> = Vec::new();
    let say = |n: &Node| -> (t: String)
        ensures
            t@ == n@.label.text(),
    { n.label.as_str().to_owned() };
    assert(text::views(keys@) =~= Seq::empty());
    rows::say_all(&mut keys, nodes, Ghost(|n: NodeModel| n.label.text()), say);
    assert(text::views(keys@) =~= types::node_views(nodes@).map_values(
        |n: NodeModel| n.label.text(),
    ));
    viz::count_texts(&keys)
}

/// See [`relation_counts`].
pub fn count_relations(edges: &Vec<Edge>) -> (r: Vec<(String, usize)>)
    ensures
        viz::count_views(r@) == relation_counts(types::edge_views(edges@)),
{
    let mut keys: Vec<String> = Vec::new();
    let say = |e: &Edge| -> (t: String)
        ensures
            t@ == e@.relation.text(),
    { e.relation.as_str().to_owned() };
    assert(text::views(keys@) =~= Seq::empty());
    rows::say_all(&mut keys, edges, Ghost(|e: EdgeModel| e.relation.text()), say);
    assert(text::views(keys@) =~= types::edge_views(edges@).map_values(
        |e: EdgeModel| e.relation.text(),
    ));
    viz::count_texts(&keys)
}

/// See [`language_counts`].
pub fn count_languages(nodes: &Vec<Node>) -> (r: Vec<(String, usize)>)
    ensures
        viz::count_views(r@) == language_counts(types::node_views(nodes@)),
{
    let test = |n: &Node| -> (t: bool)
        ensures
            t == speaks()(n@),
    {
        n.label != NodeLabel::File && n.label != NodeLabel::Document
            && !n.language.as_str().is_empty()
    };
    let found = rows::select(nodes, Ghost(speaks()), test);
    let mut keys: Vec<String> = Vec::new();
    let say = |n: &Node| -> (t: String)
        ensures
            t@ == n@.language,
    { n.language.clone() };
    assert(text::views(keys@) =~= Seq::empty());
    rows::say_all(&mut keys, &found, Ghost(|n: NodeModel| n.language), say);
    assert(text::views(keys@) =~= types::node_views(found@).map_values(
        |n: NodeModel| n.language,
    ));
    viz::count_texts(&keys)
}

/// The lines that give an overview.
pub open spec fn overview_lines(nodes: Seq<NodeModel>, edges: Seq<EdgeModel>) -> Seq<Seq<char>> {
    seq![
        "## Overview"@,
        "- **"@ + text::decimal(nodes.len()) + " nodes**, **"@ + text::decimal(edges.len())
            + " edges**"@,
        "- nodes by kind: "@ + count_line(label_counts(nodes), false, " · "@),
        "- edges by relation: "@ + count_line(relation_counts(edges), false, " · "@),
        "- languages: "@ + count_line(language_counts(nodes), true, ", "@),
    ]
}

fn add_overview(lines: &mut Vec<String>, nodes: &Vec<Node>, edges: &Vec<Edge>)
    ensures
        text::views(final(lines)@) == text::views(old(lines)@) + overview_lines(
            types::node_views(nodes@),
            types::edge_views(edges@),
        ),
{
    let ghost was = text::views(lines@);
    assert(types::node_views(nodes@).len() == nodes@.len());
    assert(types::edge_views(edges@).len() == edges@.len());
    push_line(lines, "## Overview".to_owned());
    let n = text::to_decimal(nodes.len() as u64);
    let e = text::to_decimal(edges.len() as u64);
    push_line(
        lines,
        "- **".to_owned().concat(n.as_str()).concat(" nodes**, **").concat(e.as_str()).concat(
            " edges**",
        ),
    );
    let labels = say_counts(&count_labels(nodes), false, " · ");
    push_line(lines, "- nodes by kind: ".to_owned().concat(labels.as_str()));
    let relations = say_counts(&count_relations(edges), false, " · ");
    push_line(lines, "- edges by relation: ".to_owned().concat(relations.as_str()));
    let languages = say_counts(&count_languages(nodes), true, ", ");
    push_line(lines, "- languages: ".to_owned().concat(languages.as_str()));
    assert(text::views(lines@) =~= was + overview_lines(
        types::node_views(nodes@),
        types::edge_views(edges@),
    ));
}

/// The edges that are calls.
pub open spec fn is_call() -> spec_fn(EdgeModel) -> bool {
    |e: EdgeModel| e.relation == EdgeRelation::Calls
}

/// Whether the notation of a number is that of an integer.
pub open spec fn is_integral(n: Seq<char>) -> bool {
    forall|i: int| 0 <= i < n.len() ==> (#[trigger] n[i] == '-' || '0' <= n[i] <= '9')
}

/// See [`is_integral`].
fn integral_text(n: &str) -> (r: bool)
    ensures
        r == is_integral(n@),
{
    let v = text::chars_of(n);
    let mut i: usize = 0;
    while i < v.len()
        invariant
            i <= v.len(),
            v@ == n@,
            forall|k: int| 0 <= k < i ==> (#[trigger] n@[k] == '-' || '0' <= n@[k] <= '9'),
        decreases v.len() - i,
    {
        let c = v[i];
        if !(c == '-' || ('0' <= c && c <= '9')) {
            assert(!(n@[i as int] == '-' || '0' <= n@[i as int] <= '9'));
            return false;
        }
        i += 1;
    }
    true
}

/// What a query reads as the reason of an edge.
pub enum Reason {
    Nothing,
    Number(String),
    Text(String),
}

/// The model of a [`Reason`].
pub enum ReasonModel {
    Nothing,
    Number(Seq<char>),
    Text(Seq<char>),
}

impl View for Reason {
    type V = ReasonModel;

    open spec fn view(&self) -> ReasonModel {
        match self {
            Reason::Nothing => ReasonModel::Nothing,
            Reason::Number(n) => ReasonModel::Number(n@),
            Reason::Text(t) => ReasonModel::Text(t@),
        }
    }
}

/// Why an edge was drawn, as a query reads the metadata: null is nothing, a
/// switch is one or zero, and a list or an object is its notation. A number
/// with a fraction counts as a text too.
pub open spec fn reason_of(m: types::MetaEntries) -> ReasonModel {
    match types::meta_get(m, "justification"@) {
        None => ReasonModel::Nothing,
        Some(MetaModel::Text(t)) => ReasonModel::Text(t),
        Some(MetaModel::Count(n)) => ReasonModel::Number(text::decimal(n as nat)),
        Some(MetaModel::Json(j)) => if j == "null"@ {
            ReasonModel::Nothing
        } else if j == "true"@ {
            ReasonModel::Number("1"@)
        } else if j == "false"@ {
            ReasonModel::Number("0"@)
        } else if is_integral(j) {
            ReasonModel::Number(j)
        } else {
            ReasonModel::Text(j)
        },
    }
}

/// See [`reason_of`].
fn find_reason(m: &Metadata) -> (r: Reason)
    ensures
        r@ == reason_of(m@),
{
    match m.get("justification") {
        None => Reason::Nothing,
        Some(MetaValue::Text(t)) => Reason::Text(t.clone()),
        Some(MetaValue::Count(n)) => Reason::Number(text::to_decimal(*n)),
        Some(MetaValue::Json(j)) => if text::same(j.as_str(), "null") {
            Reason::Nothing
        } else if text::same(j.as_str(), "true") {
            Reason::Number("1".to_owned())
        } else if text::same(j.as_str(), "false") {
            Reason::Number("0".to_owned())
        } else if integral_text(j.as_str()) {
            Reason::Number(j.clone())
        } else {
            Reason::Text(j.clone())
        },
    }
}

/// The reasons that are texts.
pub open spec fn reason_texts(rs: Seq<ReasonModel>) -> Seq<Seq<char>>
    decreases rs.len(),
{
    if rs.len() == 0 {
        Seq::empty()
    } else {
        match rs.last() {
            ReasonModel::Text(t) => reason_texts(rs.drop_last()).push(t),
            _ => reason_texts(rs.drop_last()),
        }
    }
}

/// The reasons that are numbers, in their notation.
pub open spec fn reason_numbers(rs: Seq<ReasonModel>) -> Seq<Seq<char>>
    decreases rs.len(),
{
    if rs.len() == 0 {
        Seq::empty()
    } else {
        match rs.last() {
            ReasonModel::Number(n) => reason_numbers(rs.drop_last()).push(n),
            _ => reason_numbers(rs.drop_last()),
        }
    }
}

/// How many reasons are none.
pub open spec fn reasons_missing(rs: Seq<ReasonModel>) -> nat
    decreases rs.len(),
{
    if rs.len() == 0 {
        0
    } else if rs.last() is Nothing {
        reasons_missing(rs.drop_last()) + 1
    } else {
        reasons_missing(rs.drop_last())
    }
}

/// The order of numbers by what they are worth.
pub open spec fn number_order() -> spec_fn((Seq<char>, nat), (Seq<char>, nat)) -> bool {
    |a: (Seq<char>, nat), b: (Seq<char>, nat)|
        text::cast_integer(a.0) < text::cast_integer(b.0)
}

/// Each reason once with how often it is there: first those that are none,
/// which have no name, then the numbers, then the texts.
pub open spec fn reason_counts(rs: Seq<ReasonModel>) -> Seq<(Seq<char>, nat)> {
    let none: Seq<(Seq<char>, nat)> = if reasons_missing(rs) > 0 {
        seq![(Seq::empty(), reasons_missing(rs))]
    } else {
        Seq::empty()
    };
    none + order::arranged(viz::counted(reason_numbers(rs)), number_order()) + viz::counted(
        reason_texts(rs),
    )
}

/// The reasons of the calls among edges.
pub open spec fn call_reasons(edges: Seq<EdgeModel>) -> Seq<ReasonModel> {
    rows::kept(edges, is_call()).map_values(|e: EdgeModel| reason_of(e.metadata))
}

/// The order of counts, the greatest first.
pub open spec fn count_order() -> spec_fn((Seq<char>, nat), (Seq<char>, nat)) -> bool {
    |a: (Seq<char>, nat), b: (Seq<char>, nat)| a.1 > b.1
}

/// The counts of what has a name.
pub open spec fn has_a_name() -> spec_fn((Seq<char>, nat)) -> bool {
    |c: (Seq<char>, nat)| c.0.len() > 0
}

/// The reasons of calls, the most frequent first: of the first twenty, those
/// that have a name.
pub open spec fn tier_counts(edges: Seq<EdgeModel>) -> Seq<(Seq<char>, nat)> {
    rows::kept(
        rows::limited(
            order::arranged(
                reason_counts(call_reasons(edges)),
                count_order(),
            ),
            20,
        ),
        has_a_name(),
    )
}

/// Puts counts behind others.
fn put_counts(out: &mut Vec<(String, usize)>, more: &Vec<(String, usize)>)
    ensures
        viz::count_views(final(out)@) == viz::count_views(old(out)@) + viz::count_views(more@),
{
    let ghost was = viz::count_views(out@);
    let ghost all = viz::count_views(more@);
    let mut i: usize = 0;
    assert(was + all.take(0) =~= was);
    while i < more.len()
        invariant
            i <= more.len(),
            all == viz::count_views(more@),
            viz::count_views(out@) == was + all.take(i as int),
        decreases more.len() - i,
    {
        let ghost now = viz::count_views(out@);
        out.push((more[i].0.clone(), more[i].1));
        assert(viz::count_views(out@) =~= now.push(all[i as int]));
        assert(was + all.take(i + 1) =~= (was + all.take(i as int)).push(all[i as int]));
        i += 1;
    }
    assert(all.take(all.len() as int) =~= all);
}

/// See [`reason_counts`].
fn count_reasons(rs: &Vec<Reason>) -> (r: Vec<(String, usize)>)
    ensures
        viz::count_views(r@) == reason_counts(rs@.map_values(|x: Reason| x@)),
{
    let ghost all = rs@.map_values(|x: Reason| x@);
    let mut texts: Vec<String> = Vec::new();
    let mut numbers: Vec<String> = Vec::new();
    let mut missing: usize = 0;
    let mut i: usize = 0;
    assert(text::views(texts@) =~= Seq::empty());
    assert(text::views(numbers@) =~= Seq::empty());
    while i < rs.len()
        invariant
            missing <= i <= rs.len(),
            all == rs@.map_values(|x: Reason| x@),
            text::views(texts@) == reason_texts(all.take(i as int)),
            text::views(numbers@) == reason_numbers(all.take(i as int)),
            missing == reasons_missing(all.take(i as int)),
        decreases rs.len() - i,
    {
        let ghost (t, n) = (text::views(texts@), text::views(numbers@));
        proof {
            assert(all.take(i + 1).drop_last() =~= all.take(i as int));
            assert(all.take(i + 1).last() == rs@[i as int]@);
        }
        match &rs[i] {
            Reason::Nothing => {
                missing += 1;
            },
            Reason::Number(x) => {
                numbers.push(x.clone());
                assert(text::views(numbers@) =~= n.push(x@));
            },
            Reason::Text(x) => {
                texts.push(x.clone());
                assert(text::views(texts@) =~= t.push(x@));
            },
        }
        i += 1;
    }
    assert(all.take(all.len() as int) =~= all);
    let mut out: Vec<(String, usize)> = Vec::new();
    if missing > 0 {
        out.push((String::new(), missing));
    }
    let ghost head = viz::count_views(out@);
    assert(head =~= if missing > 0 {
        seq![(Seq::<char>::empty(), missing as nat)]
    } else {
        Seq::empty()
    });
    let counts = viz::count_texts(&numbers);
    let ghost given = counts@;
    let ghost f = |c: (String, usize)| (c.0@, c.1 as nat);
    let ghost before = |a: (String, usize), b: (String, usize)|
        text::cast_integer(a.0@) < text::cast_integer(b.0@);
    let less = |a: &(String, usize), b: &(String, usize)| -> (t: bool)
        ensures
            t == (text::cast_integer(a.0@) < text::cast_integer(b.0@)),
    { text::to_integer(a.0.as_str()) < text::to_integer(b.0.as_str()) };
    let sorted = order::arrange(counts, Ghost(before), less);
    proof {
        order::lemma_arranged_map(given, before, f, number_order());
        assert(viz::count_views(sorted@) =~= sorted@.map_values(f));
        assert(viz::count_views(given) =~= given.map_values(f));
    }
    put_counts(&mut out, &sorted);
    put_counts(&mut out, &viz::count_texts(&texts));
    out
}

/// See [`tier_counts`].
pub fn count_tiers(edges: &Vec<Edge>) -> (r: Vec<(String, usize)>)
    ensures
        viz::count_views(r@) == tier_counts(types::edge_views(edges@)),
{
    let test = |e: &Edge| -> (t: bool)
        ensures
            t == is_call()(e@),
    { e.relation == EdgeRelation::Calls };
    let calls = rows::select(edges, Ghost(is_call()), test);
    let mut reasons: Vec<Reason> = Vec::new();
    let mut k: usize = 0;
    while k < calls.len()
        invariant
            k <= calls.len(),
            reasons@.len() == k,
            forall|j: int|
                0 <= j < k ==> (#[trigger] reasons@[j])@ == reason_of(calls@[j]@.metadata),
        decreases calls.len() - k,
    {
        reasons.push(find_reason(&calls[k].metadata));
        k += 1;
    }
    assert(reasons@.map_values(|x: Reason| x@) =~= call_reasons(types::edge_views(edges@))) by {
        assert(types::edge_views(calls@) == rows::kept(types::edge_views(edges@), is_call()));
        assert forall|j: int| 0 <= j < calls@.len() implies reasons@[j]@ == reason_of(
            #[trigger] types::edge_views(calls@)[j].metadata,
        ) by {
            assert(types::edge_views(calls@)[j] == calls@[j]@);
        }
    }
    let counts = count_reasons(&reasons);
    let ghost given = counts@;
    let ghost f = |c: (String, usize)| (c.0@, c.1 as nat);
    let ghost before = |a: (String, usize), b: (String, usize)| a.1 > b.1;
    let less = |a: &(String, usize), b: &(String, usize)| -> (t: bool)
        ensures
            t == (a.1 > b.1),
    { a.1 > b.1 };
    let mut sorted = order::arrange(counts, Ghost(before), less);
    proof {
        order::lemma_arranged_map(given, before, f, count_order());
        assert(viz::count_views(sorted@) =~= sorted@.map_values(f));
        assert(viz::count_views(given) =~= given.map_values(f));
    }
    let ghost whole = viz::count_views(sorted@);
    sorted.truncate(20);
    assert(viz::count_views(sorted@) =~= rows::limited(whole, 20));
    let ghost all = viz::count_views(sorted@);
    let mut out: Vec<(String, usize)> = Vec::new();
    let mut i: usize = 0;
    assert(all.take(0) =~= Seq::empty());
    assert(viz::count_views(out@) =~= Seq::empty());
    while i < sorted.len()
        invariant
            i <= sorted.len(),
            all == viz::count_views(sorted@),
            viz::count_views(out@) == rows::kept(all.take(i as int), has_a_name()),
        decreases sorted.len() - i,
    {
        let ghost was = viz::count_views(out@);
        proof {
            rows::lemma_kept_next(all, i as int, has_a_name());
            assert(all[i as int] == (sorted@[i as int].0@, sorted@[i as int].1 as nat));
        }
        if !sorted[i].0.as_str().is_empty() {
            out.push((sorted[i].0.clone(), sorted[i].1));
            assert(viz::count_views(out@) =~= was.push(all[i as int]));
        }
        i += 1;
    }
    assert(all.take(all.len() as int) =~= all);
    out
}

/// How many call sites could be resolved in the repository.
pub open spec fn resolvable_calls(s: StoreModel) -> nat {
    let external = rows::kept(s.calls, store_queries::unresolvable(s)).len();
    if s.calls.len() > external {
        (s.calls.len() - external) as nat
    } else {
        0
    }
}

/// The lines on how well calls were resolved; `share` is the part of them in
/// percent.
pub open spec fn quality_lines(s: StoreModel, share: Seq<char>) -> Seq<Seq<char>> {
    let external = rows::kept(s.calls, store_queries::unresolvable(s)).len();
    let tiers = tier_counts(s.edges);
    seq!["\n## Call-resolution quality"@] + (if resolvable_calls(s) > 0 {
        seq![
            "- "@ + text::decimal(rows::kept(s.edges, is_call()).len())
                + " resolved CALLS edges from "@ + text::decimal(resolvable_calls(s))
                + " resolvable call sites ("@ + share + "% — "@ + text::decimal(external)
                + " sites are excluded as UNRESOLVABLE in-repo: bound to an external-package import or naming no in-repo definition; the rest are ambiguous or unresolved; precision over recall by design)"@,
        ]
    } else {
        Seq::empty()
    }) + (if tiers.len() > 0 {
        seq!["- by resolution tier: "@ + count_line(tiers, false, " · "@)]
    } else {
        Seq::empty()
    })
}

fn count_calls(edges: &Vec<Edge>) -> (r: usize)
    ensures
        r == rows::kept(types::edge_views(edges@), is_call()).len(),
{
    let test = |e: &Edge| -> (t: bool)
        ensures
            t == is_call()(e@),
    { e.relation == EdgeRelation::Calls };
    rows::count(edges, Ghost(is_call()), test)
}

/// How many calls were resolved, and how many call sites could be; the report
/// gives the one as a share of the other.
pub fn resolved_calls(store: &Store) -> (r: (usize, usize))
    ensures
        r.0 == rows::kept(store@.edges, is_call()).len(),
        r.1 == resolvable_calls(store@),
{
    assert(store@.calls.len() == store.calls@.len());
    let total: usize = store.calls.len();
    let external: usize = store.external_bound_call_sites();
    let internal: usize = if total > external {
        total - external
    } else {
        0
    };
    (count_calls(&store.edges), internal)
}

fn add_quality(lines: &mut Vec<String>, store: &Store, share: &str)
    ensures
        text::views(final(lines)@) == text::views(old(lines)@) + quality_lines(store@, share@),
{
    let ghost was = text::views(lines@);
    let external: usize = store.external_bound_call_sites();
    let (calls, internal) = resolved_calls(store);
    push_line(lines, "\n## Call-resolution quality".to_owned());
    if internal > 0 {
        let resolved = text::to_decimal(calls as u64);
        let inner = text::to_decimal(internal as u64);
        let outer = text::to_decimal(external as u64);
        push_line(
            lines,
            "- ".to_owned().concat(resolved.as_str()).concat(" resolved CALLS edges from ").concat(
                inner.as_str(),
            ).concat(" resolvable call sites (").concat(share).concat("% — ").concat(
                outer.as_str(),
            ).concat(
                " sites are excluded as UNRESOLVABLE in-repo: bound to an external-package import or naming no in-repo definition; the rest are ambiguous or unresolved; precision over recall by design)",
            ),
        );
    }
    let tiers = count_tiers(&store.edges);
    assert(viz::count_views(tiers@).len() == tiers@.len());
    if tiers.len() > 0 {
        let t = say_counts(&tiers, false, " · ");
        push_line(lines, "- by resolution tier: ".to_owned().concat(t.as_str()));
    }
    assert(text::views(lines@) =~= was + quality_lines(store@, share@));
}

/// The texts in a list.
pub open spec fn texts_in(items: Seq<DatumModel>) -> Seq<Seq<char>>
    decreases items.len(),
{
    if items.len() == 0 {
        Seq::empty()
    } else {
        let rest = texts_in(items.drop_last());
        match items.last() {
            DatumModel::Text(t) => rest.push(t),
            _ => rest,
        }
    }
}

fn list_texts(items: &Vec<Datum>) -> (r: Vec<String>)
    ensures
        text::views(r@) == texts_in(value::items(items@)),
{
    let ghost all = value::items(items@);
    let mut out: Vec<String> = Vec::new();
    let mut i: usize = 0;
    assert(all.take(0) =~= Seq::empty());
    assert(text::views(out@) =~= Seq::empty());
    while i < items.len()
        invariant
            i <= items.len(),
            all == value::items(items@),
            text::views(out@) == texts_in(all.take(i as int)),
        decreases items.len() - i,
    {
        assert(all.take(i + 1).drop_last() =~= all.take(i as int));
        assert(all.take(i + 1).last() == items@[i as int]@);
        if let Some(t) = items[i].as_text() {
            push_line(&mut out, t.clone());
        }
        i += 1;
    }
    assert(all.take(all.len() as int) =~= all);
    out
}

/// The row of a tier in the table of an audit.
pub open spec fn tier_row(
    tier: Seq<char>,
    t: DatumModel,
    precision: Option<Seq<char>>,
) -> Seq<char> {
    "| "@ + tier + " | "@ + text::decimal(tools_lists::count_under(t, "checked"@) as nat) + " | "@
        + text::decimal(tools_lists::count_under(t, "confirmed"@) as nat) + " | "@ + (
    match precision {
        Some(p) => p + "%"@,
        None => "—"@,
    }) + " |"@
}

/// What an audit says of its tiers, with the precision of each in percent.
pub open spec fn tier_rows(
    tiers: value::Entries,
    precisions: Seq<Option<Seq<char>>>,
) -> Seq<Seq<char>> {
    Seq::new(tiers.len(), |i: int| tier_row(tiers[i].0, tiers[i].1, precisions[i]))
}

/// The line on the languages of an audit.
pub open spec fn oracle_line(audit: DatumModel) -> Seq<Seq<char>> {
    match value::field(audit, "oracle_languages"@) {
        Some(DatumModel::List(l)) => seq![
            "_Lower bound, measured on oracle-covered code only (oracle languages: "@ + (
            if texts_in(l).len() == 0 {
                "?"@
            } else {
                text::join(texts_in(l), ", "@)
            }) + "); tiers with checked=0 are not verified by this oracle._"@,
        ],
        _ => Seq::empty(),
    }
}

/// The line on an audit of an older graph.
pub open spec fn stale_line(audit: DatumModel, generation: u64) -> Seq<Seq<char>> {
    let audited = tools_lists::count_under(audit, "generation"@);
    if audited < generation {
        seq![
            "> ⚠ audit ran at graph generation "@ + text::decimal(audited as nat)
                + ", current is "@ + text::decimal(generation as nat)
                + " — re-run `codegraph audit` to refresh."@,
        ]
    } else {
        Seq::empty()
    }
}

/// The tiers of an audit.
pub open spec fn audit_tiers(audit: DatumModel) -> Option<value::Entries> {
    match value::field(audit, "tiers"@) {
        Some(DatumModel::Table(t)) => Some(t),
        _ => None,
    }
}

/// The lines on the last audit: `precisions` gives the precision of each tier,
/// and `overall` that of all, both in percent.
pub open spec fn audit_lines(
    audit: DatumModel,
    generation: u64,
    precisions: Seq<Option<Seq<char>>>,
    overall: Option<Seq<char>>,
) -> Seq<Seq<char>> {
    seq!["\n## Measured precision (vs compiler oracle — `codegraph audit`)"@] + oracle_line(audit)
        + stale_line(audit, generation) + tier_table(audit, precisions) + overall_line(audit, overall)
}

/// The table of the tiers, where the audit has one.
pub open spec fn tier_table(audit: DatumModel, precisions: Seq<Option<Seq<char>>>) -> Seq<
    Seq<char>,
> {
    match audit_tiers(audit) {
        Some(t) => seq![
            "| tier | checked | confirmed | precision |"@,
            "|---|---:|---:|---:|"@,
        ] + tier_rows(t, precisions),
        None => Seq::empty(),
    }
}

/// The line on all tiers together.
pub open spec fn overall_line(audit: DatumModel, overall: Option<Seq<char>>) -> Seq<Seq<char>> {
    match overall {
        Some(p) => seq![
            "- overall: **"@ + p + "%** (sampled "@ + text::decimal(
                tools_lists::count_under(audit, "sampled"@) as nat,
            ) + " edges, seed "@ + text::decimal(
                tools_lists::count_under(audit, "seed"@) as nat,
            ) + ")"@,
        ],
        None => Seq::empty(),
    }
}

/// What is read of the last audit.
pub struct AuditText {
    pub audit: Datum,
    /// The precision of each tier in percent, in the order of the tiers.
    pub precisions: Vec<Option<String>>,
    /// The precision of all in percent.
    pub overall: Option<String>,
}

/// Whether there is a precision, or none, for each tier.
pub open spec fn is_complete(a: AuditText) -> bool {
    match audit_tiers(a.audit@) {
        Some(t) => t.len() == a.precisions@.len(),
        None => true,
    }
}

fn add_tiers(lines: &mut Vec<String>, tiers: &Vec<(String, Datum)>, precisions: &Vec<Option<String>>)
    requires
        tiers@.len() == precisions@.len(),
    ensures
        text::views(final(lines)@) == text::views(old(lines)@) + tier_rows(
            value::entries(tiers@),
            types::opt_texts(precisions@),
        ),
{
    let ghost was = text::views(lines@);
    let ghost all = tier_rows(value::entries(tiers@), types::opt_texts(precisions@));
    let mut i: usize = 0;
    assert(was + all.take(0) =~= was);
    while i < tiers.len()
        invariant
            i <= tiers.len(),
            tiers@.len() == precisions@.len(),
            all == tier_rows(value::entries(tiers@), types::opt_texts(precisions@)),
            text::views(lines@) == was + all.take(i as int),
        decreases tiers.len() - i,
    {
        let ghost now = text::views(lines@);
        assert(value::entries(tiers@)[i as int] == (tiers@[i as int].0@, tiers@[i as int].1@));
        assert(types::opt_texts(precisions@)[i as int] == types::opt_text(
            precisions@[i as int],
        ));
        let checked = text::to_decimal(tools_lists::count_in(&tiers[i].1, "checked"));
        let confirmed = text::to_decimal(tools_lists::count_in(&tiers[i].1, "confirmed"));
        let p = match &precisions[i] {
            Some(p) => p.clone().concat("%"),
            None => "—".to_owned(),
        };
        push_line(
            lines,
            "| ".to_owned().concat(tiers[i].0.as_str()).concat(" | ").concat(
                checked.as_str(),
            ).concat(" | ").concat(confirmed.as_str()).concat(" | ").concat(p.as_str()).concat(
                " |",
            ),
        );
        assert(text::views(lines@) =~= now.push(all[i as int]));
        assert(was + all.take(i + 1) =~= now.push(all[i as int]));
        i += 1;
    }
    assert(all.take(all.len() as int) =~= all);
}

fn add_oracle(lines: &mut Vec<String>, audit: &Datum)
    ensures
        text::views(final(lines)@) == text::views(old(lines)@) + oracle_line(audit@),
{
    broadcast use value::lemma_value_model;

    let ghost was = text::views(lines@);
    if let Some(Datum::List(l)) = audit.get("oracle_languages") {
        assert(Datum::List(*l)@ == DatumModel::List(value::items(l@)));
        let names = list_texts(l);
        assert(text::views(names@).len() == names@.len());
        let said = if names.len() == 0 {
            "?".to_owned()
        } else {
            text::joined(&names, ", ")
        };
        push_line(
            lines,
            "_Lower bound, measured on oracle-covered code only (oracle languages: ".to_owned().concat(
                said.as_str(),
            ).concat("); tiers with checked=0 are not verified by this oracle._"),
        );
    }
    assert(text::views(lines@) =~= was + oracle_line(audit@));
}

fn add_stale(lines: &mut Vec<String>, audit: &Datum, generation: u64)
    ensures
        text::views(final(lines)@) == text::views(old(lines)@) + stale_line(audit@, generation),
{
    let ghost was = text::views(lines@);
    let audited: u64 = tools_lists::count_in(audit, "generation");
    if audited < generation {
        let past = text::to_decimal(audited);
        let now = text::to_decimal(generation);
        push_line(
            lines,
            "> ⚠ audit ran at graph generation ".to_owned().concat(past.as_str()).concat(
                ", current is ",
            ).concat(now.as_str()).concat(" — re-run `codegraph audit` to refresh."),
        );
    }
    assert(text::views(lines@) =~= was + stale_line(audit@, generation));
}

fn add_tier_table(lines: &mut Vec<String>, a: &AuditText)
    requires
        is_complete(*a),
    ensures
        text::views(final(lines)@) == text::views(old(lines)@) + tier_table(
            a.audit@,
            types::opt_texts(a.precisions@),
        ),
{
    broadcast use value::lemma_value_model;

    let ghost was = text::views(lines@);
    if let Some(Datum::Table(t)) = a.audit.get("tiers") {
        assert(Datum::Table(*t)@ == DatumModel::Table(value::entries(t@)));
        assert(value::entries(t@).len() == t@.len());
        push_line(lines, "| tier | checked | confirmed | precision |".to_owned());
        push_line(lines, "|---|---:|---:|---:|".to_owned());
        add_tiers(lines, t, &a.precisions);
    }
    assert(text::views(lines@) =~= was + tier_table(
        a.audit@,
        types::opt_texts(a.precisions@),
    ));
}

fn add_overall(lines: &mut Vec<String>, a: &AuditText)
    ensures
        text::views(final(lines)@) == text::views(old(lines)@) + overall_line(
            a.audit@,
            types::opt_text(a.overall),
        ),
{
    let ghost was = text::views(lines@);
    if let Some(p) = &a.overall {
        let sampled = text::to_decimal(tools_lists::count_in(&a.audit, "sampled"));
        let seed = text::to_decimal(tools_lists::count_in(&a.audit, "seed"));
        push_line(
            lines,
            "- overall: **".to_owned().concat(p.as_str()).concat("%** (sampled ").concat(
                sampled.as_str(),
            ).concat(" edges, seed ").concat(seed.as_str()).concat(")"),
        );
    }
    assert(text::views(lines@) =~= was + overall_line(a.audit@, types::opt_text(a.overall)));
}

fn add_audit(lines: &mut Vec<String>, a: &AuditText, generation: u64)
    requires
        is_complete(*a),
    ensures
        text::views(final(lines)@) == text::views(old(lines)@) + audit_lines(
            a.audit@,
            generation,
            types::opt_texts(a.precisions@),
            types::opt_text(a.overall),
        ),
{
    let ghost was = text::views(lines@);
    push_line(
        lines,
        "\n## Measured precision (vs compiler oracle — `codegraph audit`)".to_owned(),
    );
    add_oracle(lines, &a.audit);
    add_stale(lines, &a.audit, generation);
    add_tier_table(lines, a);
    add_overall(lines, a);
    assert(text::views(lines@) =~= was + audit_lines(
        a.audit@,
        generation,
        types::opt_texts(a.precisions@),
        types::opt_text(a.overall),
    ));
}

/// A place in a file.
pub open spec fn place(n: NodeModel) -> Seq<char> {
    n.file_path + ":"@ + text::decimal(n.line_start as nat)
}

fn say_place(n: &Node) -> (r: String)
    ensures
        r@ == place(n@),
{
    let line = text::to_decimal(n.line_start as u64);
    n.file_path.clone().concat(":").concat(line.as_str())
}

/// The nodes that can be gone to.
pub open spec fn ranked() -> spec_fn(ScoredModel) -> bool {
    |s: ScoredModel| viz::is_ranked(s.node)
}

/// The row of a central symbol.
pub open spec fn central_row() -> spec_fn(ScoredModel) -> Seq<char> {
    |s: ScoredModel|
        "| `"@ + s.node.name + "` | "@ + s.node.label.text() + " | "@ + place(s.node) + " | "@
            + text::decimal(viz::meta_number(s.node, "fan_in"@) as nat) + " | "@ + text::decimal(
            viz::meta_number(s.node, "fan_out"@) as nat,
        ) + " |"@
}

/// The lines on the most central symbols.
pub open spec fn central_lines(all: Seq<ScoredModel>) -> Seq<Seq<char>> {
    seq![
        "\n## Most central symbols (PageRank)"@,
        "| symbol | kind | location | fan-in | fan-out |"@,
        "|---|---|---|---:|---:|"@,
    ] + rows::limited(
        order::arranged(rows::kept(all, ranked()), viz::hub_order()),
        15,
    ).map_values(central_row())
}

fn add_central(lines: &mut Vec<String>, all: &Vec<Scored>)
    ensures
        text::views(final(lines)@) == text::views(old(lines)@) + central_lines(rows::seen(all@)),
{
    let ghost was = text::views(lines@);
    push_line(lines, "\n## Most central symbols (PageRank)".to_owned());
    push_line(lines, "| symbol | kind | location | fan-in | fan-out |".to_owned());
    push_line(lines, "|---|---|---|---:|---:|".to_owned());
    let test = |s: &Scored| -> (t: bool)
        ensures
            t == ranked()(s@),
    { viz::ranked_test(&s.node) };
    let found = rows::select(all, Ghost(ranked()), test);
    let top = rows::limit(viz::arrange_by_hub(found), 15);
    let say = |s: &Scored| -> (t: String)
        ensures
            t@ == central_row()(s@),
    {
        let at = say_place(&s.node);
        let fan_in = text::to_decimal(viz::meta_u64(&s.node, "fan_in"));
        let fan_out = text::to_decimal(viz::meta_u64(&s.node, "fan_out"));
        "| `".to_owned().concat(s.node.name.as_str()).concat("` | ").concat(
            s.node.label.as_str(),
        ).concat(" | ").concat(at.as_str()).concat(" | ").concat(fan_in.as_str()).concat(
            " | ",
        ).concat(fan_out.as_str()).concat(" |")
    };
    rows::say_all(lines, &top, Ghost(central_row()), say);
    assert(text::views(lines@) =~= was + central_lines(rows::seen(all@)));
}

/// How much a function is worth a look: how often it is called, times how
/// complex it is.
pub open spec fn heat(n: NodeModel) -> nat {
    (viz::meta_number(n, "fan_in"@) * (1 + viz::meta_number(n, "complexity"@))) as nat
}

/// The functions that are worth a look.
pub open spec fn is_hot() -> spec_fn(NodeModel) -> bool {
    |n: NodeModel| (n.label == NodeLabel::Function || n.label == NodeLabel::Method) && heat(n) > 0
}

/// The order of functions that are worth a look.
pub open spec fn heat_order() -> spec_fn(NodeModel, NodeModel) -> bool {
    |a: NodeModel, b: NodeModel|
        if heat(a) != heat(b) {
            heat(a) > heat(b)
        } else {
            text::text_less(a.id, b.id)
        }
}

/// The row of a function that is worth a look.
pub open spec fn hot_row(s: StoreModel) -> spec_fn(NodeModel) -> Seq<char> {
    |n: NodeModel|
        "| `"@ + n.name + "` | "@ + place(n) + " | "@ + text::decimal(
            viz::meta_number(n, "fan_in"@) as nat,
        ) + " | "@ + text::decimal(viz::meta_number(n, "complexity"@) as nat) + " | "@ + (
        if store_queries::is_tested(s, n.name) {
            "yes"@
        } else {
            "**NO**"@
        }) + " |"@
}

/// The lines on the functions that are worth a look.
pub open spec fn hot_lines(s: StoreModel, nodes: Seq<NodeModel>) -> Seq<Seq<char>> {
    seq![
        "\n## Hotspots (high fan-in × complexity, test-gap flagged)"@,
        "| symbol | location | fan-in | complexity | tested |"@,
        "|---|---|---:|---:|---|"@,
    ] + rows::limited(
        order::arranged(rows::kept(nodes, is_hot()), heat_order()),
        10,
    ).map_values(hot_row(s))
}

fn measure_heat(n: &Node) -> (r: u128)
    ensures
        r == heat(n@),
{
    let fan_in: u64 = viz::meta_u64(n, "fan_in");
    let complexity: u64 = viz::meta_u64(n, "complexity");
    assert(0 <= fan_in * (1 + complexity) <= u128::MAX) by (nonlinear_arith)
        requires
            fan_in <= u64::MAX,
            complexity <= u64::MAX,
    ;
    (fan_in as u128) * (1 + complexity as u128)
}

fn add_hot(lines: &mut Vec<String>, store: &Store, nodes: &Vec<Node>)
    ensures
        text::views(final(lines)@) == text::views(old(lines)@) + hot_lines(
            store@,
            types::node_views(nodes@),
        ),
{
    let ghost was = text::views(lines@);
    push_line(lines, "\n## Hotspots (high fan-in × complexity, test-gap flagged)".to_owned());
    push_line(lines, "| symbol | location | fan-in | complexity | tested |".to_owned());
    push_line(lines, "|---|---|---:|---:|---|".to_owned());
    let test = |n: &Node| -> (t: bool)
        ensures
            t == is_hot()(n@),
    {
        (n.label == NodeLabel::Function || n.label == NodeLabel::Method) && measure_heat(n) > 0
    };
    let found = rows::select(nodes, Ghost(is_hot()), test);
    let ghost given = found@;
    let ghost before = |a: Node, b: Node| heat_order()(a@, b@);
    let less = |a: &Node, b: &Node| -> (t: bool)
        ensures
            t == heat_order()(a@, b@),
    {
        let x: u128 = measure_heat(a);
        let y: u128 = measure_heat(b);
        if x != y {
            x > y
        } else {
            text::less(a.id.as_str(), b.id.as_str())
        }
    };
    let sorted = order::arrange(found, Ghost(before), less);
    proof {
        order::lemma_arranged_map(given, before, |n: Node| n@, heat_order());
        assert(types::node_views(sorted@) =~= sorted@.map_values(|n: Node| n@));
        assert(types::node_views(given) =~= given.map_values(|n: Node| n@));
    }
    let top = rows::limit(sorted, 10);
    let say = |n: &Node| -> (t: String)
        ensures
            t@ == hot_row(store@)(n@),
    {
        let at = say_place(n);
        let fan_in = text::to_decimal(viz::meta_u64(n, "fan_in"));
        let complexity = text::to_decimal(viz::meta_u64(n, "complexity"));
        let tested = if store.has_test_reference(n.name.as_str()) {
            "yes"
        } else {
            "**NO**"
        };
        "| `".to_owned().concat(n.name.as_str()).concat("` | ").concat(at.as_str()).concat(
            " | ",
        ).concat(fan_in.as_str()).concat(" | ").concat(complexity.as_str()).concat(" | ").concat(
            tested,
        ).concat(" |")
    };
    rows::say_all(lines, &top, Ghost(hot_row(store@)), say);
    assert(text::views(lines@) =~= was + hot_lines(store@, types::node_views(nodes@)));
}

/// The name of a symbol in quotes.
pub open spec fn ticked() -> spec_fn(ScoredModel) -> Seq<char> {
    |s: ScoredModel| "`"@ + s.node.name + "`"@
}

/// The symbols that stand for a community: the three with the highest score.
pub open spec fn key_symbols(members: Seq<ScoredModel>) -> Seq<ScoredModel> {
    rows::limited(order::arranged(rows::kept(members, ranked()), viz::hub_order()), 3)
}

/// The line of a community.
pub open spec fn community_line(all: Seq<ScoredModel>) -> spec_fn(u32) -> Seq<char> {
    |c: u32|
        {
            let members = rows::kept(all, viz::in_community(c));
            "- **"@ + viz::common_place(members.map_values(|s: ScoredModel| s.node)) + "** — "@
                + text::decimal(members.len()) + " symbols (community "@ + text::decimal(c as nat)
                + "); key: "@ + text::join(key_symbols(members).map_values(ticked()), ", "@)
        }
}

/// The lines on the communities.
pub open spec fn community_lines(all: Seq<ScoredModel>) -> Seq<Seq<char>> {
    seq!["\n## Communities (structural clusters)"@] + viz::top_communities(all).map_values(
        community_line(all),
    )
}

fn say_community(all: &Vec<Scored>, c: u32) -> (r: String)
    ensures
        r@ == community_line(rows::seen(all@))(c),
{
    let members = viz::members_of(all, c);
    let make = |s: &Scored| -> (n: Node)
        ensures
            n@ == s@.node,
    { s.node.clone() };
    let nodes = rows::made(&members, Ghost(|s: ScoredModel| s.node), make);
    let prefix = viz::dominant_prefix(&nodes);
    let test = |s: &Scored| -> (t: bool)
        ensures
            t == ranked()(s@),
    { viz::ranked_test(&s.node) };
    let found = rows::select(&members, Ghost(ranked()), test);
    let top = rows::limit(viz::arrange_by_hub(found), 3);
    let mut names: Vec<String> = Vec::new();
    let say = |s: &Scored| -> (t: String)
        ensures
            t@ == ticked()(s@),
    { "`".to_owned().concat(s.node.name.as_str()).concat("`") };
    assert(text::views(names@) =~= Seq::empty());
    rows::say_all(&mut names, &top, Ghost(ticked()), say);
    assert(text::views(names@) =~= rows::seen(top@).map_values(ticked()));
    let keys = text::joined(&names, ", ");
    assert(rows::seen(members@).len() == members@.len());
    let size = text::to_decimal(members.len() as u64);
    let number = text::to_decimal(c as u64);
    "- **".to_owned().concat(prefix.as_str()).concat("** — ").concat(size.as_str()).concat(
        " symbols (community ",
    ).concat(number.as_str()).concat("); key: ").concat(keys.as_str())
}

fn add_communities(lines: &mut Vec<String>, all: &Vec<Scored>)
    ensures
        text::views(final(lines)@) == text::views(old(lines)@) + community_lines(rows::seen(all@)),
{
    let ghost was = text::views(lines@);
    push_line(lines, "\n## Communities (structural clusters)".to_owned());
    let top = viz::largest_communities(all);
    let ghost views = rows::seen(all@);
    let ghost said = top@.map_values(community_line(views));
    let ghost start = text::views(lines@);
    let mut i: usize = 0;
    assert(start + said.take(0) =~= start);
    while i < top.len()
        invariant
            i <= top.len(),
            views == rows::seen(all@),
            said == top@.map_values(community_line(views)),
            text::views(lines@) == start + said.take(i as int),
        decreases top.len() - i,
    {
        let ghost now = text::views(lines@);
        push_line(lines, say_community(all, top[i]));
        assert(start + said.take(i + 1) =~= now.push(said[i as int]));
        i += 1;
    }
    assert(said.take(said.len() as int) =~= said);
    assert(text::views(lines@) =~= was + community_lines(views));
}

/// A flow of calls from an entry point, with the bits of how critical it is in
/// double precision, which is not negative.
pub struct Flow {
    pub label: String,
    pub kind: String,
    pub reach: usize,
    pub criticality: u64,
}

/// The model of a [`Flow`].
pub struct FlowModel {
    pub label: Seq<char>,
    pub kind: Seq<char>,
    pub reach: nat,
    pub criticality: u64,
}

impl View for Flow {
    type V = FlowModel;

    open spec fn view(&self) -> FlowModel {
        FlowModel {
            label: self.label@,
            kind: self.kind@,
            reach: self.reach as nat,
            criticality: self.criticality,
        }
    }
}

impl Row for Flow {
    fn copy(&self) -> (r: Flow) {
        Flow {
            label: self.label.clone(),
            kind: self.kind.clone(),
            reach: self.reach,
            criticality: self.criticality,
        }
    }
}

/// The order of flows, the most critical first.
pub open spec fn flow_order() -> spec_fn(FlowModel, FlowModel) -> bool {
    |a: FlowModel, b: FlowModel|
        if a.criticality != b.criticality {
            a.criticality > b.criticality
        } else {
            text::text_less(a.label, b.label)
        }
}

/// The line of a flow.
pub open spec fn flow_line() -> spec_fn(FlowModel) -> Seq<char> {
    |f: FlowModel|
        "- `"@ + f.label + "` ["@ + f.kind + "] — reaches "@ + text::decimal(f.reach)
            + " symbols"@
}

/// The lines on the most critical flows.
pub open spec fn flow_lines(flows: Seq<FlowModel>) -> Seq<Seq<char>> {
    if flows.len() == 0 {
        Seq::empty()
    } else {
        seq!["\n## Critical execution flows (entry points by reach × centrality)"@]
            + rows::limited(order::arranged(flows, flow_order()), 10).map_values(flow_line())
    }
}

fn add_flows(lines: &mut Vec<String>, flows: &Vec<Flow>)
    ensures
        text::views(final(lines)@) == text::views(old(lines)@) + flow_lines(rows::seen(flows@)),
{
    let ghost was = text::views(lines@);
    assert(rows::seen(flows@).len() == flows@.len());
    if flows.len() == 0 {
        assert(text::views(lines@) =~= was + flow_lines(rows::seen(flows@)));
        return ;
    }
    push_line(
        lines,
        "\n## Critical execution flows (entry points by reach × centrality)".to_owned(),
    );
    let all = rows::copies(flows);
    let ghost given = all@;
    let ghost before = |a: Flow, b: Flow| flow_order()(a@, b@);
    let less = |a: &Flow, b: &Flow| -> (t: bool)
        ensures
            t == flow_order()(a@, b@),
    {
        if a.criticality != b.criticality {
            a.criticality > b.criticality
        } else {
            text::less(a.label.as_str(), b.label.as_str())
        }
    };
    let sorted = order::arrange(all, Ghost(before), less);
    proof {
        order::lemma_arranged_map(given, before, |f: Flow| f@, flow_order());
        assert(rows::seen(sorted@) =~= sorted@.map_values(|f: Flow| f@));
        assert(rows::seen(given) =~= given.map_values(|f: Flow| f@));
    }
    let top = rows::limit(sorted, 10);
    let say = |f: &Flow| -> (t: String)
        ensures
            t@ == flow_line()(f@),
    {
        let reach = text::to_decimal(f.reach as u64);
        "- `".to_owned().concat(f.label.as_str()).concat("` [").concat(f.kind.as_str()).concat(
            "] — reaches ",
        ).concat(reach.as_str()).concat(" symbols")
    };
    rows::say_all(lines, &top, Ghost(flow_line()), say);
    assert(text::views(lines@) =~= was + flow_lines(rows::seen(flows@)));
}

/// The line of a node with its place.
pub open spec fn node_line() -> spec_fn(NodeModel) -> Seq<char> {
    |n: NodeModel| "- `"@ + n.name + "` — "@ + place(n)
}

fn say_node(n: &Node) -> (r: String)
    ensures
        r@ == node_line()(n@),
{
    let at = say_place(n);
    "- `".to_owned().concat(n.name.as_str()).concat("` — ").concat(at.as_str())
}

/// The routes by name.
pub open spec fn routes_of(s: StoreModel) -> Seq<NodeModel> {
    order::arranged(
        rows::kept(s.nodes, store::node_labelled(NodeLabel::Route)),
        tools_lists::name_order(),
    )
}

/// The lines on the routes: the first twenty, and how many more there are.
pub open spec fn route_lines(routes: Seq<NodeModel>) -> Seq<Seq<char>> {
    if routes.len() == 0 {
        Seq::empty()
    } else {
        seq!["\n## API surface ("@ + text::decimal(routes.len()) + " routes)"@] + rows::limited(
            routes,
            20,
        ).map_values(node_line()) + (if routes.len() > 20 {
            seq![
                "- … and "@ + text::decimal((routes.len() - 20) as nat)
                    + " more (`codegraph routes`)"@,
            ]
        } else {
            Seq::empty()
        })
    }
}

fn add_routes(lines: &mut Vec<String>, store: &Store)
    ensures
        text::views(final(lines)@) == text::views(old(lines)@) + route_lines(routes_of(store@)),
{
    let ghost was = text::views(lines@);
    let found = store.nodes_by_label(NodeLabel::Route);
    let routes = tools_lists::arrange_by_name(found);
    let ghost all = types::node_views(routes@);
    let n: usize = routes.len();
    assert(all.len() == n);
    if n > 0 {
        let count = text::to_decimal(n as u64);
        push_line(
            lines,
            "\n## API surface (".to_owned().concat(count.as_str()).concat(" routes)"),
        );
        let top = rows::limit(routes, 20);
        let say = |r: &Node| -> (t: String)
            ensures
                t@ == node_line()(r@),
        { say_node(r) };
        rows::say_all(lines, &top, Ghost(node_line()), say);
        if n > 20 {
            let more = text::to_decimal((n - 20) as u64);
            push_line(
                lines,
                "- … and ".to_owned().concat(more.as_str()).concat(" more (`codegraph routes`)"),
            );
        }
    }
    assert(text::views(lines@) =~= was + route_lines(all));
}

/// The functions that look dead, at most ten of them.
pub open spec fn dead_of(s: StoreModel) -> Seq<NodeModel> {
    rows::limited(
        order::arranged(
            rows::kept(s.nodes, store_queries::looks_dead(s)),
            store_queries::place_order(),
        ),
        10,
    )
}

/// The lines on what looks dead.
pub open spec fn dead_lines(dead: Seq<NodeModel>) -> Seq<Seq<char>> {
    if dead.len() == 0 {
        Seq::empty()
    } else {
        seq!["\n## Dead-code candidates (verify before deleting — static view)"@]
            + dead.map_values(node_line())
    }
}

fn add_dead(lines: &mut Vec<String>, store: &Store)
    ensures
        text::views(final(lines)@) == text::views(old(lines)@) + dead_lines(dead_of(store@)),
{
    let ghost was = text::views(lines@);
    let dead = store.dead_code_candidates(10);
    assert(types::node_views(dead@).len() == dead@.len());
    if dead.len() > 0 {
        push_line(
            lines,
            "\n## Dead-code candidates (verify before deleting — static view)".to_owned(),
        );
        let say = |n: &Node| -> (t: String)
            ensures
                t@ == node_line()(n@),
        { say_node(n) };
        rows::say_all(lines, &dead, Ghost(node_line()), say);
    }
    assert(text::views(lines@) =~= was + dead_lines(dead_of(store@)));
}

/// The line of two files that change together.
pub open spec fn pair_line() -> spec_fn(CoChangeModel) -> Seq<char> {
    |c: CoChangeModel|
        "- "@ + c.file_a + " ⇄ "@ + c.file_b + " ("@ + text::decimal(c.n as nat) + "×)"@
}

/// The lines on the files that change together most often.
pub open spec fn pair_lines(s: StoreModel) -> Seq<Seq<char>> {
    let top = rows::limited(
        order::arranged(s.cochanges, store_lists::cochange_order()),
        10,
    );
    if top.len() == 0 {
        Seq::empty()
    } else {
        seq!["\n## Frequently co-changed files (git history)"@] + top.map_values(pair_line())
    }
}

fn add_pairs(lines: &mut Vec<String>, store: &Store)
    ensures
        text::views(final(lines)@) == text::views(old(lines)@) + pair_lines(store@),
{
    let ghost was = text::views(lines@);
    let pairs = store.top_cochanges(10);
    assert(rows::seen(pairs@).len() == pairs@.len());
    if pairs.len() > 0 {
        push_line(lines, "\n## Frequently co-changed files (git history)".to_owned());
        let say = |c: &CoChange| -> (t: String)
            ensures
                t@ == pair_line()(c@),
        {
            let n = text::to_decimal(c.n as u64);
            "- ".to_owned().concat(c.file_a.as_str()).concat(" ⇄ ").concat(
                c.file_b.as_str(),
            ).concat(" (").concat(n.as_str()).concat("×)")
        };
        rows::say_all(lines, &pairs, Ghost(pair_line()), say);
    }
    assert(text::views(lines@) =~= was + pair_lines(store@));
}

/// The lines on the health of the graph: at most ten of its faults.
pub open spec fn health_lines(s: StoreModel) -> Seq<Seq<char>> {
    let faults = store_edges::faults(s);
    seq!["\n## Graph health"@] + (if faults.len() == 0 {
        seq!["- ✓ no invariant violations (dangling edges, FQN schema, justification tags)"@]
    } else {
        rows::limited(faults, 10).map_values(|f: Seq<char>| "- ✗ "@ + f)
    })
}

fn add_health(lines: &mut Vec<String>, store: &Store)
    ensures
        text::views(final(lines)@) == text::views(old(lines)@) + health_lines(store@),
{
    let ghost was = text::views(lines@);
    push_line(lines, "\n## Graph health".to_owned());
    let mut faults = store.validate_graph();
    let ghost all = text::views(faults@);
    assert(all.len() == faults@.len());
    if faults.len() == 0 {
        push_line(
            lines,
            "- ✓ no invariant violations (dangling edges, FQN schema, justification tags)".to_owned(),
        );
        assert(text::views(lines@) =~= was + health_lines(store@));
        return ;
    }
    faults.truncate(10);
    let ghost top = text::views(faults@);
    assert(top =~= rows::limited(all, 10));
    let ghost said = top.map_values(|f: Seq<char>| "- ✗ "@ + f);
    let ghost start = text::views(lines@);
    let mut i: usize = 0;
    assert(start + said.take(0) =~= start);
    while i < faults.len()
        invariant
            i <= faults.len(),
            top == text::views(faults@),
            said == top.map_values(|f: Seq<char>| "- ✗ "@ + f),
            text::views(lines@) == start + said.take(i as int),
        decreases faults.len() - i,
    {
        let ghost now = text::views(lines@);
        assert(top[i as int] == faults@[i as int]@);
        push_line(lines, "- ✗ ".to_owned().concat(faults[i].as_str()));
        assert(start + said.take(i + 1) =~= now.push(said[i as int]));
        i += 1;
    }
    assert(said.take(said.len() as int) =~= said);
    assert(text::views(lines@) =~= was + health_lines(store@));
}

/// What a report needs besides the tables: what it is about, and the numbers
/// that are computed in floating point.
pub struct ReportInputs {
    pub project: String,
    pub version: String,
    /// The resolved part of the call sites in percent.
    pub share: String,
    pub audit: Option<AuditText>,
    /// The hub scores of the nodes by id, as the bits of numbers in double
    /// precision that are not negative.
    pub scores: Vec<u64>,
    pub flows: Vec<Flow>,
}

/// The lines of a report.
pub open spec fn report_lines(s: StoreModel, i: ReportInputs) -> Seq<Seq<char>> {
    let generation = store::generation_of(s.meta);
    let all = viz::scored_nodes(s, i.scores@);
    let nodes = all.map_values(|x: ScoredModel| x.node);
    title_lines(i.project@, i.version@, generation) + overview_lines(nodes, s.edges)
        + quality_lines(s, i.share@) + (match i.audit {
        Some(a) => audit_lines(
            a.audit@,
            generation as u64,
            types::opt_texts(a.precisions@),
            types::opt_text(a.overall),
        ),
        None => Seq::empty(),
    }) + central_lines(all) + hot_lines(s, nodes) + community_lines(all) + flow_lines(
        rows::seen(i.flows@),
    ) + route_lines(routes_of(s)) + dead_lines(dead_of(s)) + pair_lines(s) + health_lines(s)
}

/// The report on a graph.
pub fn report(store: &Store, inputs: &ReportInputs) -> (r: String)
    requires
        inputs.scores@.len() == store@.nodes.len(),
        inputs.audit matches Some(a) ==> is_complete(a),
    ensures
        r@ == written(report_lines(store@, *inputs)),
{
    let all = viz::score_nodes(store, &inputs.scores);
    let make = |x: &Scored| -> (n: Node)
        ensures
            n@ == x@.node,
    { x.node.clone() };
    let nodes = rows::made(&all, Ghost(|x: ScoredModel| x.node), make);
    let mut lines: Vec<String> = Vec::new();
    assert(text::views(lines@) =~= Seq::empty());
    let generation: u64 = store.generation();
    add_title(&mut lines, inputs.project.as_str(), inputs.version.as_str(), generation);
    add_overview(&mut lines, &nodes, &store.edges);
    add_quality(&mut lines, store, inputs.share.as_str());
    if let Some(a) = &inputs.audit {
        add_audit(&mut lines, a, generation);
    } else {
        assert(text::views(lines@) + Seq::<Seq<char>>::empty() =~= text::views(lines@));
    }
    add_central(&mut lines, &all);
    add_hot(&mut lines, store, &nodes);
    add_communities(&mut lines, &all);
    add_flows(&mut lines, &inputs.flows);
    add_routes(&mut lines, store);
    add_dead(&mut lines, store);
    add_pairs(&mut lines, store);
    add_health(&mut lines, store);
    assert(text::views(lines@) =~= report_lines(store@, *inputs));
    write_lines(&lines)
}

/// The line of a graph without faults.
pub open spec fn sound_line() -> Seq<char> {
    "- ✓ no invariant violations (dangling edges, FQN schema, justification tags)"@
}

proof fn lemma_written_front(lines: Seq<Seq<char>>)
    requires
        lines.len() > 0,
    ensures
        written(lines).len() >= lines[0].len(),
        written(lines).take(lines[0].len() as int) == lines[0],
    decreases lines.len(),
{
    let d = lines.drop_last();
    if lines.len() == 1 {
        assert(written(d) =~= Seq::empty());
        assert(written(lines).take(lines[0].len() as int) =~= lines[0]);
    } else {
        lemma_written_front(d);
        assert(written(lines).take(lines[0].len() as int) =~= written(d).take(
            lines[0].len() as int,
        ));
    }
}

/// What holds of every report: it begins with its title, states how many nodes
/// and edges the store has, lists fifteen central symbols at most, and ends on
/// the health of the graph, which is one line where it has no fault, and else a
/// line for each fault, ten at most.
pub proof fn law_report_states_the_graph(s: StoreModel, i: ReportInputs)
    ensures
        text::occurs_at(written(report_lines(s, i)), "# CodeGraph report"@, 0),
        report_lines(s, i).contains(
            "- **"@ + text::decimal(s.nodes.len()) + " nodes**, **"@ + text::decimal(s.edges.len())
                + " edges**"@,
        ),
        central_lines(viz::scored_nodes(s, i.scores@)).len() <= 3 + 15,
        report_lines(s, i).skip(report_lines(s, i).len() - health_lines(s).len()) == health_lines(
            s,
        ),
        2 <= health_lines(s).len() <= 1 + 10,
        (health_lines(s)[1] == sound_line()) == (store_edges::faults(s).len() == 0),
{
    let all = report_lines(s, i);
    let nodes = rebuild::resolver_nodes(s);
    order::law_arranged(s.nodes.map_values(store_edges::light_node()), store_edges::id_order());
    let title = "# CodeGraph report — "@ + i.project@;
    assert(all[0] == title);
    lemma_written_front(all);
    reveal_strlit("# CodeGraph report — ");
    reveal_strlit("# CodeGraph report");
    let head = "# CodeGraph report"@;
    let out = written(all);
    assert forall|k: int| 0 <= k < head.len() implies out[k] == head[k] by {
        assert(out.take(title.len() as int)[k] == out[k]);
        assert(title[k] == "# CodeGraph report — "@[k]);
    }
    assert(out.subrange(0, head.len() as int) =~= head);
    let listed = viz::scored_nodes(s, i.scores@);
    assert(listed.map_values(|x: ScoredModel| x.node).len() == s.nodes.len());
    let at = 3int;
    assert(all[at] == "- **"@ + text::decimal(s.nodes.len()) + " nodes**, **"@ + text::decimal(
        s.edges.len(),
    ) + " edges**"@);
    assert(all.skip(all.len() - health_lines(s).len()) =~= health_lines(s));
    let faults = store_edges::faults(s);
    if faults.len() > 0 {
        let f = rows::limited(faults, 10)[0];
        assert(health_lines(s)[1] == "- ✗ "@ + f);
        reveal_strlit("- ✗ ");
        reveal_strlit(
            "- ✓ no invariant violations (dangling edges, FQN schema, justification tags)",
        );
        assert(health_lines(s)[1][2] == "- ✗ "@[2]);
        assert(sound_line()[2] != "- ✗ "@[2]);
    }
}

} // verus!
