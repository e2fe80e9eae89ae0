//! The explorer of the graph, and the map of a repository.

use vstd::hash_map::*;
use vstd::prelude::*;
use vstd::string::*;

use crate::order;
use crate::report;
use crate::rows;
use crate::store::Store;
use crate::text;
use crate::types;
use crate::types::{Edge, EdgeModel, EdgeRelation, Node, NodeLabel, NodeModel};
use crate::viz;
use crate::viz::{Scored, ScoredModel};

verus! {

/// The symbols among nodes.
pub open spec fn symbols() -> spec_fn(NodeModel) -> bool {
    |n: NodeModel| viz::is_symbol(n)
}

/// A node with its page rank as its score.
pub open spec fn by_rank() -> spec_fn(NodeModel) -> ScoredModel {
    |n: NodeModel| ScoredModel { node: n, score: n.pagerank }
}

/// The symbols that are drawn: those with the highest page rank, or all of them
/// where the limit is zero.
pub open spec fn drawn_nodes(nodes: Seq<NodeModel>, limit: nat) -> Seq<ScoredModel> {
    let all = order::arranged(
        rows::kept(nodes, symbols()).map_values(by_rank()),
        viz::hub_order(),
    );
    if limit == 0 {
        all
    } else {
        rows::limited(all, limit)
    }
}

/// See [`drawn_nodes`].
pub fn pick_nodes(nodes: &Vec<Node>, limit: usize) -> (r: Vec<Scored>)
    ensures
        rows::seen(r@) == drawn_nodes(types::node_views(nodes@), limit as nat),
{
    let test = |n: &Node| -> (t: bool)
        ensures
            t == symbols()(n@),
    { viz::symbol_test(n) };
    let found = rows::select(nodes, Ghost(symbols()), test);
    let make = |n: &Node| -> (s: Scored)
        ensures
            s@ == by_rank()(n@),
    { Scored { node: n.clone(), score: n.pagerank } };
    let all = viz::arrange_by_hub(rows::made(&found, Ghost(by_rank()), make));
    if limit == 0 {
        all
    } else {
        rows::limit(all, limit)
    }
}

/// The place of the node with an id.
pub open spec fn place_in(picked: Seq<ScoredModel>, id: Seq<char>) -> Option<nat>
    decreases picked.len(),
{
    if picked.len() == 0 {
        None
    } else if picked.last().node.id == id {
        Some((picked.len() - 1) as nat)
    } else {
        place_in(picked.drop_last(), id)
    }
}

/// The relations that are drawn, by their number.
pub open spec fn relation_number(r: EdgeRelation) -> Option<nat> {
    match r {
        EdgeRelation::Calls => Some(0),
        EdgeRelation::Inherits => Some(1),
        EdgeRelation::Implements => Some(2),
        EdgeRelation::HttpCalls => Some(3),
        EdgeRelation::Tests => Some(4),
        _ => None,
    }
}

/// An edge that is drawn: the places of its ends, and the number of its
/// relation.
pub open spec fn drawn_edge(picked: Seq<ScoredModel>, e: EdgeModel) -> Option<(nat, nat, nat)> {
    match (relation_number(e.relation), place_in(picked, e.src), place_in(picked, e.dst)) {
        (Some(r), Some(s), Some(t)) => Some((s, t, r)),
        _ => None,
    }
}

/// The edges that are drawn: those between symbols that are.
pub open spec fn drawn_edges(picked: Seq<ScoredModel>, edges: Seq<EdgeModel>) -> Seq<
    (nat, nat, nat),
>
    decreases edges.len(),
{
    if edges.len() == 0 {
        Seq::empty()
    } else {
        let rest = drawn_edges(picked, edges.drop_last());
        match drawn_edge(picked, edges.last()) {
            Some(d) => rest.push(d),
            None => rest,
        }
    }
}

/// An edge that is drawn.
#[derive(Debug, Clone, Copy, PartialEq, Eq, Structural)]
pub struct DrawnEdge {
    pub from: usize,
    pub to: usize,
    pub relation: usize,
}

/// What drawn edges hold.
pub open spec fn drawn_views(v: Seq<DrawnEdge>) -> Seq<(nat, nat, nat)> {
    v.map_values(|d: DrawnEdge| (d.from as nat, d.to as nat, d.relation as nat))
}

fn number_of(r: EdgeRelation) -> (n: Option<usize>)
    ensures
        match n {
            Some(n) => relation_number(r) == Some(n as nat),
            None => relation_number(r) is None,
        },
{
    match r {
        EdgeRelation::Calls => Some(0),
        EdgeRelation::Inherits => Some(1),
        EdgeRelation::Implements => Some(2),
        EdgeRelation::HttpCalls => Some(3),
        EdgeRelation::Tests => Some(4),
        _ => None,
    }
}

spec fn placed(m: Map<Seq<char>, usize>, picked: Seq<ScoredModel>, id: Seq<char>) -> bool {
    match place_in(picked, id) {
        Some(k) => m.contains_key(id) && m[id] == k,
        None => !m.contains_key(id),
    }
}

fn index_places(picked: &Vec<Scored>) -> (r: StringHashMap<usize>)
    ensures
        forall|id: Seq<char>| #[trigger] placed(r@, rows::seen(picked@), id),
{
    let ghost all = rows::seen(picked@);
    let mut m: StringHashMap<usize> = StringHashMap::new();
    let mut i: usize = 0;
    assert(all.take(0) =~= Seq::empty());
    while i < picked.len()
        invariant
            i <= picked.len(),
            all == rows::seen(picked@),
            forall|id: Seq<char>| #[trigger] placed(m@, all.take(i as int), id),
        decreases picked.len() - i,
    {
        let ghost was = m@;
        assert(all.take(i + 1).drop_last() =~= all.take(i as int));
        assert(all.take(i + 1).last() == picked@[i as int]@);
        m.insert(picked[i].node.id.clone(), i);
        assert forall|id: Seq<char>| #[trigger] placed(m@, all.take(i + 1), id) by {
            assert(placed(was, all.take(i as int), id));
        }
        i += 1;
    }
    assert(all.take(picked@.len() as int) =~= all);
    m
}

/// See [`drawn_edges`].
pub fn pick_edges(picked: &Vec<Scored>, edges: &Vec<Edge>) -> (r: Vec<DrawnEdge>)
    ensures
        drawn_views(r@) == drawn_edges(rows::seen(picked@), types::edge_views(edges@)),
{
    let ghost all = types::edge_views(edges@);
    let ghost shown = rows::seen(picked@);
    let places = index_places(picked);
    let mut out: Vec<DrawnEdge> = Vec::new();
    let mut i: usize = 0;
    assert(drawn_views(out@) =~= drawn_edges(shown, all.take(0)));
    while i < edges.len()
        invariant
            i <= edges.len(),
            all == types::edge_views(edges@),
            shown == rows::seen(picked@),
            forall|id: Seq<char>| #[trigger] placed(places@, shown, id),
            drawn_views(out@) == drawn_edges(shown, all.take(i as int)),
        decreases edges.len() - i,
    {
        let ghost was = drawn_views(out@);
        let e = &edges[i];
        assert(all.take(i + 1).drop_last() =~= all.take(i as int));
        assert(all.take(i + 1).last() == e@);
        assert(placed(places@, shown, e.src@));
        assert(placed(places@, shown, e.dst@));
        if let Some(r) = number_of(e.relation) {
            if let (Some(s), Some(t)) = (places.get(e.src.as_str()), places.get(e.dst.as_str())) {
                let d = DrawnEdge { from: *s, to: *t, relation: r };
                out.push(d);
                assert(drawn_views(out@) =~= was.push((d.from as nat, d.to as nat, r as nat)));
            }
        }
        i += 1;
    }
    assert(all.take(edges@.len() as int) =~= all);
    out
}

/// What an edge leads between is drawn.
pub proof fn law_drawn_edges_have_ends(picked: Seq<ScoredModel>, edges: Seq<EdgeModel>)
    ensures
        forall|i: int|
            0 <= i < drawn_edges(picked, edges).len() ==> (#[trigger] drawn_edges(
                picked,
                edges,
            )[i]).0 < picked.len() && drawn_edges(picked, edges)[i].1 < picked.len(),
    decreases edges.len(),
{
    if edges.len() > 0 {
        law_drawn_edges_have_ends(picked, edges.drop_last());
        lemma_place_in(picked, edges.last().src);
        lemma_place_in(picked, edges.last().dst);
        let rest = drawn_edges(picked, edges.drop_last());
        let all = drawn_edges(picked, edges);
        assert forall|i: int| 0 <= i < all.len() implies (#[trigger] all[i]).0 < picked.len()
            && all[i].1 < picked.len() by {
            if i < rest.len() {
                assert(all[i] == rest[i]);
            }
        }
    }
}

proof fn lemma_place_in(picked: Seq<ScoredModel>, id: Seq<char>)
    ensures
        place_in(picked, id) matches Some(k) ==> k < picked.len(),
    decreases picked.len(),
{
    if picked.len() > 0 {
        lemma_place_in(picked.drop_last(), id);
    }
}

/// The numbers that are one given.
pub open spec fn is_number(c: u32) -> spec_fn(u32) -> bool {
    |x: u32| x == c
}

/// The colour of a symbol: that of its community among the largest, else the
/// one for all others.
pub open spec fn slot_of(top: Seq<u32>, c: Option<u32>) -> nat {
    match c {
        Some(c) => match rows::first_at(top, is_number(c)) {
            Some(k) => k as nat,
            None => 8,
        },
        None => 8,
    }
}

/// The colours of the symbols that are drawn.
pub open spec fn slots_of(picked: Seq<ScoredModel>) -> Seq<nat> {
    picked.map_values(
        |s: ScoredModel| slot_of(viz::top_communities(picked), s.node.community),
    )
}

fn find_slot(top: &Vec<u32>, c: Option<u32>) -> (r: usize)
    ensures
        r == slot_of(top@, c),
{
    match c {
        Some(own) => {
            let ghost want = is_number(own);
            let mut i: usize = 0;
            while i < top.len()
                invariant
                    i <= top.len(),
                    c == Some(own),
                    want == is_number(own),
                    forall|j: int| 0 <= j < i ==> !want(#[trigger] top@[j]),
                decreases top.len() - i,
            {
                if top[i] == own {
                    proof {
                        rows::lemma_first_is(top@, want, i as int);
                    }
                    return i;
                }
                i += 1;
            }
            proof {
                rows::lemma_first_is(top@, want, top@.len() as int);
            }
            8
        },
        None => 8,
    }
}

/// See [`slots_of`].
pub fn pick_slots(picked: &Vec<Scored>) -> (r: Vec<usize>)
    ensures
        r@.map_values(|i: usize| i as nat) == slots_of(rows::seen(picked@)),
{
    let ghost all = rows::seen(picked@);
    let ghost f = |s: ScoredModel| slot_of(viz::top_communities(all), s.node.community);
    let top = viz::largest_communities(picked);
    let mut out: Vec<usize> = Vec::new();
    let mut i: usize = 0;
    while i < picked.len()
        invariant
            i <= picked.len(),
            all == rows::seen(picked@),
            f == |s: ScoredModel| slot_of(viz::top_communities(all), s.node.community),
            top@ == viz::top_communities(all),
            out@.map_values(|i: usize| i as nat) == all.map_values(f).take(i as int),
        decreases picked.len() - i,
    {
        let ghost was = out@.map_values(|i: usize| i as nat);
        let k: usize = find_slot(&top, picked[i].node.community);
        assert(all[i as int] == picked@[i as int]@);
        out.push(k);
        assert(out@.map_values(|i: usize| i as nat) =~= was.push(k as nat));
        assert(all.map_values(f).take(i + 1) =~= was.push(k as nat));
        i += 1;
    }
    assert(all.map_values(f).take(all.len() as int) =~= all.map_values(f));
    assert(slots_of(all) =~= all.map_values(f));
    out
}

/// The name of a community in the legend: its directory, and with its first
/// symbol where that directory is already there.
pub open spec fn legend_entry(known: Seq<Seq<char>>, members: Seq<ScoredModel>) -> Seq<char> {
    let label = viz::common_place(members.map_values(|s: ScoredModel| s.node));
    if known.contains(label) && members.len() > 0 {
        label + " · "@ + members[0].node.name
    } else {
        label
    }
}

/// The legend for the first `k` of the largest communities.
pub open spec fn legend_of(picked: Seq<ScoredModel>, top: Seq<u32>, k: nat) -> Seq<Seq<char>>
    decreases k,
{
    if k == 0 {
        Seq::empty()
    } else {
        let rest = legend_of(picked, top, (k - 1) as nat);
        rest.push(legend_entry(rest, rows::kept(picked, viz::in_community(top[k - 1]))))
    }
}

/// The legend: a name for each of the largest communities, and one for all
/// others.
pub fn pick_legend(picked: &Vec<Scored>) -> (r: Vec<String>)
    ensures
        text::views(r@) == legend_of(
            rows::seen(picked@),
            viz::top_communities(rows::seen(picked@)),
            viz::top_communities(rows::seen(picked@)).len(),
        ).push("other"@),
{
    let ghost all = rows::seen(picked@);
    let top = viz::largest_communities(picked);
    let mut out: Vec<String> = Vec::new();
    let mut i: usize = 0;
    assert(text::views(out@) =~= Seq::empty());
    while i < top.len()
        invariant
            i <= top.len(),
            all == rows::seen(picked@),
            text::views(out@) == legend_of(all, top@, i as nat),
        decreases top.len() - i,
    {
        let ghost was = text::views(out@);
        let members = viz::members_of(picked, top[i]);
        assert(rows::seen(members@).len() == members@.len());
        let make = |s: &Scored| -> (n: Node)
            ensures
                n@ == s@.node,
        { s.node.clone() };
        let nodes = rows::made(&members, Ghost(|s: ScoredModel| s.node), make);
        let mut label = viz::dominant_prefix(&nodes);
        if text::is_listed(&out, label.as_str()) && members.len() > 0 {
            assert(rows::seen(members@)[0] == members@[0]@);
            label = label.concat(" · ").concat(members[0].node.name.as_str());
        }
        out.push(label);
        assert(text::views(out@) =~= was.push(label@));
        i += 1;
    }
    let ghost was = text::views(out@);
    out.push("other".to_owned());
    assert(text::views(out@) =~= was.push("other"@));
    out
}

/// A text with something in place of each occurrence of a word.
pub open spec fn replaced(s: Seq<char>, word: Seq<char>, by: Seq<char>) -> Seq<char>
    decreases s.len(),
{
    match text::find(s, word) {
        Some(p) => if word.len() > 0 && 0 <= p && p + word.len() <= s.len() {
            s.take(p) + by + replaced(s.skip(p + word.len()), word, by)
        } else {
            s
        },
        None => s,
    }
}

/// See [`replaced`].
pub fn replace(s: &str, word: &str, by: &str) -> (r: String)
    requires
        word@.len() > 0,
    ensures
        r@ == replaced(s@, word@, by@),
{
    let v = text::chars_of(s);
    let w = text::chars_of(word);
    let n: usize = v.len();
    let mut out = String::new();
    let mut from: usize = 0;
    assert(s@.skip(0) =~= s@);
    assert(out@ + replaced(s@, word@, by@) =~= replaced(s@, word@, by@));
    loop
        invariant
            v@ == s@,
            w@ == word@,
            w@.len() > 0,
            n == v@.len(),
            from <= n,
            out@ + replaced(s@.skip(from as int), word@, by@) == replaced(s@, word@, by@),
        decreases n - from,
    {
        let rest = text::slice(&v, from, n);
        assert(rest@ =~= s@.skip(from as int));
        let left = text::chars_of(rest.as_str());
        let ghost here = out@;
        match text::find_chars(&left, &w, 0) {
            Some(p) => {
                proof {
                    text::lemma_find_from(rest@, word@, 0);
                }
                let head = text::slice(&left, 0, p);
                assert(head@ =~= rest@.take(p as int));
                out = out.concat(head.as_str()).concat(by);
                from = from + p + w.len();
                assert(rest@.skip(p + word@.len()) =~= s@.skip(from as int));
                assert(out@ + replaced(s@.skip(from as int), word@, by@) =~= here + (head@ + by@
                    + replaced(s@.skip(from as int), word@, by@)));
            },
            None => {
                return out.concat(rest.as_str());
            },
        }
    }
}

/// The page of the explorer: a template with its two marks filled in.
pub fn fill_page(template: &str, project: &str, data: &str) -> (r: String)
    ensures
        r@ == replaced(
            replaced(template@, "__CODEGRAPH_TITLE__"@, project@),
            "__CODEGRAPH_DATA__"@,
            data@,
        ),
{
    proof {
        reveal_strlit("__CODEGRAPH_TITLE__");
        reveal_strlit("__CODEGRAPH_DATA__");
    }
    let titled = replace(template, "__CODEGRAPH_TITLE__", project);
    replace(titled.as_str(), "__CODEGRAPH_DATA__", data)
}

/// The first two parts of a path that has two.
pub open spec fn two_parts(path: Seq<char>) -> Option<Seq<char>> {
    let parts = text::split_char(path, '/');
    if parts.len() > 1 {
        Some(parts[0] + "/"@ + parts[1])
    } else {
        None
    }
}

/// The first two parts of the paths of nodes that have two.
pub open spec fn directories(all: Seq<ScoredModel>) -> Seq<Seq<char>>
    decreases all.len(),
{
    if all.len() == 0 {
        Seq::empty()
    } else {
        let rest = directories(all.drop_last());
        match two_parts(all.last().node.file_path) {
            Some(d) => rest.push(d),
            None => rest,
        }
    }
}

/// The directory that names a community: the one that most of its paths begin
/// with, and of several the last by name.
pub open spec fn community_dir(members: Seq<ScoredModel>) -> Seq<char> {
    match viz::most_often(viz::counted(directories(members)), true) {
        Some(b) => b.0,
        None => Seq::empty(),
    }
}

/// See [`community_dir`].
fn find_dir(members: &Vec<Scored>) -> (r: String)
    ensures
        r@ == community_dir(rows::seen(members@)),
{
    let ghost all = rows::seen(members@);
    let mut dirs: Vec<String> = Vec::new();
    let mut i: usize = 0;
    assert(all.take(0) =~= Seq::empty());
    assert(text::views(dirs@) =~= Seq::empty());
    while i < members.len()
        invariant
            i <= members.len(),
            all == rows::seen(members@),
            text::views(dirs@) == directories(all.take(i as int)),
        decreases members.len() - i,
    {
        let ghost was = text::views(dirs@);
        assert(all.take(i + 1).drop_last() =~= all.take(i as int));
        assert(all.take(i + 1).last() == members@[i as int]@);
        let parts = text::split_on(members[i].node.file_path.as_str(), '/');
        assert(text::views(parts@).len() == parts@.len());
        if parts.len() > 1 {
            assert(text::views(parts@)[0] == parts@[0]@);
            assert(text::views(parts@)[1] == parts@[1]@);
            let d = parts[0].clone().concat("/").concat(parts[1].as_str());
            dirs.push(d);
            assert(text::views(dirs@) =~= was.push(d@));
        }
        i += 1;
    }
    assert(all.take(members@.len() as int) =~= all);
    let counts = viz::count_texts(&dirs);
    match viz::find_most_often(&counts, true) {
        Some(d) => d,
        None => {
            let none = String::new();
            assert(none@ =~= Seq::empty());
            none
        },
    }
}

/// Whether a node calls something or is called.
pub open spec fn is_connected() -> spec_fn(ScoredModel) -> bool {
    |s: ScoredModel|
        viz::meta_number(s.node, "fan_in"@) > 0 || viz::meta_number(s.node, "fan_out"@) > 0
}

/// The symbols that stand for a community: the three with the highest score, of
/// those that are connected where there are any.
pub open spec fn leading(members: Seq<ScoredModel>) -> Seq<ScoredModel> {
    let linked = rows::kept(members, is_connected());
    rows::limited(
        order::arranged(
            if linked.len() > 0 {
                linked
            } else {
                members
            },
            viz::hub_order(),
        ),
        3,
    )
}

/// A community in the map of a repository.
#[derive(Debug, PartialEq, Eq)]
pub struct MapCommunity {
    pub dir: String,
    pub symbols: usize,
    pub key_symbols: Vec<String>,
}

/// The model of a [`MapCommunity`].
pub struct MapCommunityModel {
    pub dir: Seq<char>,
    pub symbols: nat,
    pub key_symbols: Seq<Seq<char>>,
}

impl View for MapCommunity {
    type V = MapCommunityModel;

    open spec fn view(&self) -> MapCommunityModel {
        MapCommunityModel {
            dir: self.dir@,
            symbols: self.symbols as nat,
            key_symbols: text::views(self.key_symbols@),
        }
    }
}

/// A community in the map of a repository.
pub open spec fn map_community(all: Seq<ScoredModel>) -> spec_fn(u32) -> MapCommunityModel {
    |c: u32|
        {
            let members = rows::kept(all, viz::in_community(c));
            MapCommunityModel {
                dir: community_dir(members),
                symbols: members.len(),
                key_symbols: leading(members).map_values(|s: ScoredModel| s.node.name),
            }
        }
}

fn make_community(all: &Vec<Scored>, c: u32) -> (r: MapCommunity)
    ensures
        r@ == map_community(rows::seen(all@))(c),
{
    let members = viz::members_of(all, c);
    assert(rows::seen(members@).len() == members@.len());
    let dir = find_dir(&members);
    let symbols: usize = members.len();
    let test = |s: &Scored| -> (t: bool)
        ensures
            t == is_connected()(s@),
    { viz::meta_u64(&s.node, "fan_in") > 0 || viz::meta_u64(&s.node, "fan_out") > 0 };
    let linked = rows::select(&members, Ghost(is_connected()), test);
    assert(rows::seen(linked@).len() == linked@.len());
    let chosen = if linked.len() > 0 {
        linked
    } else {
        members
    };
    let top = rows::limit(viz::arrange_by_hub(chosen), 3);
    let mut names: Vec<String> = Vec::new();
    let say = |s: &Scored| -> (t: String)
        ensures
            t@ == s@.node.name,
    { s.node.name.clone() };
    assert(text::views(names@) =~= Seq::empty());
    rows::say_all(&mut names, &top, Ghost(|s: ScoredModel| s.node.name), say);
    assert(text::views(names@) =~= rows::seen(top@).map_values(
        |s: ScoredModel| s.node.name,
    ));
    MapCommunity { dir, symbols, key_symbols: names }
}

/// The map of a repository.
#[derive(Debug)]
pub struct Architecture {
    pub nodes_by_kind: Vec<(String, usize)>,
    pub languages: Vec<(String, usize)>,
    pub communities: Vec<MapCommunity>,
    pub routes: usize,
    /// The call sites that nothing in the repository can answer.
    pub unresolvable: usize,
}

/// The routes among nodes.
pub open spec fn is_route() -> spec_fn(ScoredModel) -> bool {
    |s: ScoredModel| s.node.label == NodeLabel::Route
}

/// The map of a repository: how many nodes of each kind and symbols of each
/// language there are, its largest communities, and its routes. The scores are
/// those of the nodes by id.
pub fn architecture(store: &Store, scores: &Vec<u64>) -> (r: Architecture)
    requires
        scores@.len() == store@.nodes.len(),
    ensures
        ({
            let s = viz::scored_nodes(store@, scores@);
            let nodes = s.map_values(|x: ScoredModel| x.node);
            &&& viz::count_views(r.nodes_by_kind@) == report::label_counts(nodes)
            &&& viz::count_views(r.languages@) == viz::counted(
                rows::kept(nodes, symbols()).map_values(|n: NodeModel| n.language),
            )
            &&& rows::seen(r.communities@) == viz::top_communities(s).map_values(map_community(s))
            &&& r.routes == rows::kept(s, is_route()).len()
            &&& r.unresolvable == rows::kept(
                store@.calls,
                crate::store_queries::unresolvable(store@),
            ).len()
        }),
{
    let all = viz::score_nodes(store, scores);
    let ghost s = rows::seen(all@);
    let make = |x: &Scored| -> (n: Node)
        ensures
            n@ == x@.node,
    { x.node.clone() };
    let nodes = rows::made(&all, Ghost(|x: ScoredModel| x.node), make);
    let test = |n: &Node| -> (t: bool)
        ensures
            t == symbols()(n@),
    { viz::symbol_test(n) };
    let found = rows::select(&nodes, Ghost(symbols()), test);
    let mut keys: Vec<String> = Vec::new();
    let say = |n: &Node| -> (t: String)
        ensures
            t@ == n@.language,
    { n.language.clone() };
    assert(text::views(keys@) =~= Seq::empty());
    rows::say_all(&mut keys, &found, Ghost(|n: NodeModel| n.language), say);
    assert(text::views(keys@) =~= types::node_views(found@).map_values(
        |n: NodeModel| n.language,
    ));
    let top = viz::largest_communities(&all);
    let mut communities: Vec<MapCommunity> = Vec::new();
    let mut i: usize = 0;
    while i < top.len()
        invariant
            i <= top.len(),
            s == rows::seen(all@),
            rows::seen(communities@) == top@.take(i as int).map_values(map_community(s)),
        decreases top.len() - i,
    {
        let ghost was = rows::seen(communities@);
        let c = make_community(&all, top[i]);
        communities.push(c);
        assert(rows::seen(communities@) =~= was.push(c@));
        assert(top@.take(i + 1).map_values(map_community(s)) =~= was.push(c@));
        i += 1;
    }
    assert(top@.take(top@.len() as int) =~= top@);
    let route = |x: &Scored| -> (t: bool)
        ensures
            t == is_route()(x@),
    { x.node.label == NodeLabel::Route };
    Architecture {
        nodes_by_kind: report::count_labels(&nodes),
        languages: viz::count_texts(&keys),
        communities,
        routes: rows::count(&all, Ghost(is_route()), route),
        unresolvable: store.external_bound_call_sites(),
    }
}

} // verus!
