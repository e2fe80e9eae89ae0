//! What people are shown: counts, communities, and the explorer of the graph.

use vstd::prelude::*;
use vstd::string::*;

use crate::order;
use crate::rebuild;
use crate::rows;
use crate::rows::Row;
use crate::store::{Store, StoreModel};
use crate::store_edges;
use crate::text;
use crate::types;
use crate::types::{Node, NodeLabel, NodeModel};

verus! {

/// The texts that are one given.
pub open spec fn is_text(k: Seq<char>) -> spec_fn(Seq<char>) -> bool {
    |x: Seq<char>| x == k
}

/// How often a text is in a list.
pub open spec fn times(keys: Seq<Seq<char>>, k: Seq<char>) -> nat {
    rows::kept(keys, is_text(k)).len()
}

/// The texts of a list, by name, each with how often it is there.
pub open spec fn counted(keys: Seq<Seq<char>>) -> Seq<(Seq<char>, nat)> {
    order::arranged(rows::distinct(keys), order::text_order()).map_values(
        |k: Seq<char>| (k, times(keys, k)),
    )
}

/// What counts hold.
pub open spec fn count_views(v: Seq<(String, usize)>) -> Seq<(Seq<char>, nat)> {
    v.map_values(|c: (String, usize)| (c.0@, c.1 as nat))
}

fn count_times(keys: &Vec<String>, k: &str) -> (r: usize)
    ensures
        r == times(text::views(keys@), k@),
{
    let ghost all = text::views(keys@);
    let mut n: usize = 0;
    let mut i: usize = 0;
    assert(all.take(0) =~= Seq::empty());
    while i < keys.len()
        invariant
            n <= i <= keys.len(),
            all == text::views(keys@),
            n == rows::kept(all.take(i as int), is_text(k@)).len(),
        decreases keys.len() - i,
    {
        proof {
            rows::lemma_kept_next(all, i as int, is_text(k@));
            assert(all[i as int] == keys@[i as int]@);
        }
        if text::same(keys[i].as_str(), k) {
            n += 1;
        }
        i += 1;
    }
    assert(all.take(keys@.len() as int) =~= all);
    n
}

/// The texts of a list, each once.
fn distinct_of(keys: &Vec<String>) -> (r: Vec<String>)
    ensures
        text::views(r@) == rows::distinct(text::views(keys@)),
{
    let ghost all = text::views(keys@);
    let mut out: Vec<String> = Vec::new();
    let mut i: usize = 0;
    assert(all.take(0) =~= Seq::empty());
    assert(text::views(out@) =~= Seq::empty());
    while i < keys.len()
        invariant
            i <= keys.len(),
            all == text::views(keys@),
            text::views(out@) == rows::distinct(all.take(i as int)),
        decreases keys.len() - i,
    {
        let ghost was = text::views(out@);
        assert(all.take(i + 1).drop_last() =~= all.take(i as int));
        assert(all.take(i + 1).last() == keys@[i as int]@);
        if !text::is_listed(&out, keys[i].as_str()) {
            out.push(keys[i].clone());
            assert(text::views(out@) =~= was.push(keys@[i as int]@));
        }
        i += 1;
    }
    assert(all.take(keys@.len() as int) =~= all);
    out
}

/// See [`counted`].
pub fn count_texts(keys: &Vec<String>) -> (r: Vec<(String, usize)>)
    ensures
        count_views(r@) == counted(text::views(keys@)),
{
    let names = order::arrange_texts(distinct_of(keys));
    let ghost sorted = text::views(names@);
    let ghost all = text::views(keys@);
    let mut out: Vec<(String, usize)> = Vec::new();
    let mut i: usize = 0;
    while i < names.len()
        invariant
            i <= names.len(),
            sorted == text::views(names@),
            all == text::views(keys@),
            count_views(out@) == sorted.take(i as int).map_values(
                |k: Seq<char>| (k, times(all, k)),
            ),
        decreases names.len() - i,
    {
        let ghost was = count_views(out@);
        let n: usize = count_times(keys, names[i].as_str());
        assert(sorted[i as int] == names@[i as int]@);
        out.push((names[i].clone(), n));
        assert(count_views(out@) =~= was.push((sorted[i as int], n as nat)));
        assert(sorted.take(i + 1).map_values(|k: Seq<char>| (k, times(all, k))) =~= was.push(
            (sorted[i as int], n as nat),
        ));
        i += 1;
    }
    assert(sorted.take(sorted.len() as int) =~= sorted);
    out
}

/// The text that is there most often; of several the first, or the last.
pub open spec fn most_often(counts: Seq<(Seq<char>, nat)>, last: bool) -> Option<(Seq<char>, nat)>
    decreases counts.len(),
{
    if counts.len() == 0 {
        None
    } else {
        let rest = most_often(counts.drop_last(), last);
        let c = counts.last();
        match rest {
            Some(b) => if c.1 > b.1 || (last && c.1 == b.1) {
                Some(c)
            } else {
                rest
            },
            None => Some(c),
        }
    }
}

/// See [`most_often`].
pub(crate) fn find_most_often(counts: &Vec<(String, usize)>, last: bool) -> (r: Option<String>)
    ensures
        types::opt_text(r) == (match most_often(count_views(counts@), last) {
            Some(b) => Some(b.0),
            None => None,
        }),
{
    let ghost all = count_views(counts@);
    let mut best: Option<usize> = None;
    let mut i: usize = 0;
    assert(all.take(0) =~= Seq::empty());
    while i < counts.len()
        invariant
            i <= counts.len(),
            all == count_views(counts@),
            match best {
                Some(b) => b < i && most_often(all.take(i as int), last) == Some(all[b as int]),
                None => most_often(all.take(i as int), last) is None,
            },
        decreases counts.len() - i,
    {
        assert(all.take(i + 1).drop_last() =~= all.take(i as int));
        assert(all.take(i + 1).last() == (counts@[i as int].0@, counts@[i as int].1 as nat));
        match best {
            Some(b) => {
                assert(all[b as int] == (counts@[b as int].0@, counts@[b as int].1 as nat));
                if counts[i].1 > counts[b].1 || (last && counts[i].1 == counts[b].1) {
                    best = Some(i);
                }
            },
            None => {
                best = Some(i);
            },
        }
        i += 1;
    }
    assert(all.take(counts@.len() as int) =~= all);
    match best {
        Some(b) => Some(counts[b].0.clone()),
        None => None,
    }
}

/// The directory that a path counts for: its first two parts, or the first
/// where there are no more than two.
pub open spec fn place_of(path: Seq<char>) -> Seq<char> {
    let parts = text::split_char(path, '/');
    if parts.len() > 2 {
        parts[0] + "/"@ + parts[1]
    } else {
        parts[0]
    }
}

/// The directories that nodes count for.
pub open spec fn places_of(nodes: Seq<NodeModel>) -> Seq<Seq<char>> {
    nodes.map_values(|n: NodeModel| place_of(n.file_path))
}

/// The directory that most of the nodes are in.
pub open spec fn common_place(nodes: Seq<NodeModel>) -> Seq<char> {
    match most_often(counted(places_of(nodes)), false) {
        Some(b) => b.0,
        None => "misc"@,
    }
}

fn find_place(path: &str) -> (r: String)
    ensures
        r@ == place_of(path@),
{
    let parts = text::split_on(path, '/');
    proof {
        text::lemma_split_char(path@, '/');
        assert(text::views(parts@).len() == parts@.len());
        assert(text::views(parts@)[0] == parts@[0]@);
        if parts@.len() > 2 {
            assert(text::views(parts@)[1] == parts@[1]@);
        }
    }
    if parts.len() > 2 {
        parts[0].clone().concat("/").concat(parts[1].as_str())
    } else {
        parts[0].clone()
    }
}

/// See [`common_place`].
pub fn dominant_prefix(nodes: &Vec<Node>) -> (r: String)
    ensures
        r@ == common_place(types::node_views(nodes@)),
{
    let mut places: Vec<String> = Vec::new();
    let say = |n: &Node| -> (t: String)
        ensures
            t@ == place_of(n@.file_path),
    { find_place(n.file_path.as_str()) };
    assert(text::views(places@) =~= Seq::empty());
    rows::say_all(&mut places, nodes, Ghost(|n: NodeModel| place_of(n.file_path)), say);
    assert(text::views(places@) =~= places_of(types::node_views(nodes@)));
    let counts = count_texts(&places);
    match find_most_often(&counts, false) {
        Some(p) => p,
        None => "misc".to_owned(),
    }
}

/// Whether a node counts as a symbol.
pub open spec fn is_symbol(n: NodeModel) -> bool {
    n.label != NodeLabel::File && n.label != NodeLabel::Document
}

/// Whether a symbol is one that can be gone to.
pub open spec fn is_ranked(n: NodeModel) -> bool {
    n.label == NodeLabel::Function || n.label == NodeLabel::Method || n.label == NodeLabel::Class
        || n.label == NodeLabel::Interface || n.label == NodeLabel::Route
}

/// A count that a node carries; zero where it carries none.
pub open spec fn meta_number(n: NodeModel, key: Seq<char>) -> u64 {
    match types::meta_count(n.metadata, key) {
        Some(c) => c,
        None => 0,
    }
}

/// See [`meta_number`].
pub fn meta_u64(n: &Node, key: &str) -> (r: u64)
    ensures
        r == meta_number(n@, key@),
{
    match n.metadata.count(key) {
        Some(c) => c,
        None => 0,
    }
}

pub(crate) fn symbol_test(n: &Node) -> (r: bool)
    ensures
        r == is_symbol(n@),
{
    n.label != NodeLabel::File && n.label != NodeLabel::Document
}

pub(crate) fn ranked_test(n: &Node) -> (r: bool)
    ensures
        r == is_ranked(n@),
{
    n.label == NodeLabel::Function || n.label == NodeLabel::Method || n.label == NodeLabel::Class
        || n.label == NodeLabel::Interface || n.label == NodeLabel::Route
}

/// A node with the bits of its hub score in double precision, which is not
/// negative.
pub struct Scored {
    pub node: Node,
    pub score: u64,
}

/// The model of a [`Scored`].
pub struct ScoredModel {
    pub node: NodeModel,
    pub score: u64,
}

impl View for Scored {
    type V = ScoredModel;

    open spec fn view(&self) -> ScoredModel {
        ScoredModel { node: self.node@, score: self.score }
    }
}

impl Row for Scored {
    fn copy(&self) -> (r: Scored) {
        Scored { node: self.node.clone(), score: self.score }
    }
}

/// The nodes of a store by id, each with its hub score.
pub open spec fn scored_nodes(s: StoreModel, scores: Seq<u64>) -> Seq<ScoredModel> {
    let nodes = rebuild::resolver_nodes(s);
    Seq::new(nodes.len(), |i: int| ScoredModel { node: nodes[i], score: scores[i] })
}

/// See [`scored_nodes`].
pub fn score_nodes(store: &Store, scores: &Vec<u64>) -> (r: Vec<Scored>)
    requires
        scores@.len() == store@.nodes.len(),
    ensures
        rows::seen(r@) == scored_nodes(store@, scores@),
{
    let nodes = store.graph_nodes();
    proof {
        assert(types::node_views(nodes@).len() == nodes@.len());
        order::law_arranged(
            store@.nodes.map_values(store_edges::light_node()),
            store_edges::id_order(),
        );
    }
    let mut out: Vec<Scored> = Vec::new();
    let mut i: usize = 0;
    while i < nodes.len()
        invariant
            i <= nodes.len(),
            nodes@.len() == scores@.len(),
            types::node_views(nodes@) == rebuild::resolver_nodes(store@),
            out@.len() == i,
            forall|k: int|
                0 <= k < i ==> (#[trigger] out@[k]).node@ == nodes@[k]@ && out@[k].score
                    == scores@[k],
        decreases nodes.len() - i,
    {
        out.push(Scored { node: nodes[i].copy(), score: scores[i] });
        i += 1;
    }
    proof {
        let want = scored_nodes(store@, scores@);
        assert(types::node_views(nodes@).len() == nodes@.len());
        assert forall|k: int| 0 <= k < out@.len() implies rows::seen(out@)[k] == want[k] by {
            assert(types::node_views(nodes@)[k] == nodes@[k]@);
            assert(out@[k].node@ == nodes@[k]@);
        }
        assert(rows::seen(out@) =~= want);
    }
    out
}

/// The order of nodes by hub score, the highest first, and then by id.
pub open spec fn hub_order() -> spec_fn(ScoredModel, ScoredModel) -> bool {
    |a: ScoredModel, b: ScoredModel|
        if a.score != b.score {
            a.score > b.score
        } else {
            text::text_less(a.node.id, b.node.id)
        }
}

/// The nodes by hub score.
pub fn arrange_by_hub(v: Vec<Scored>) -> (r: Vec<Scored>)
    ensures
        rows::seen(r@) == order::arranged(rows::seen(v@), hub_order()),
{
    let ghost all = v@;
    let ghost before = |a: Scored, b: Scored| hub_order()(a@, b@);
    let less = |a: &Scored, b: &Scored| -> (t: bool)
        ensures
            t == hub_order()(a@, b@),
    {
        if a.score != b.score {
            a.score > b.score
        } else {
            text::less(a.node.id.as_str(), b.node.id.as_str())
        }
    };
    let r = order::arrange(v, Ghost(before), less);
    proof {
        order::lemma_arranged_map(all, before, |s: Scored| s@, hub_order());
        assert(rows::seen(r@) =~= r@.map_values(|s: Scored| s@));
        assert(rows::seen(all) =~= all.map_values(|s: Scored| s@));
    }
    r
}

/// The symbols of a community.
pub open spec fn in_community(c: u32) -> spec_fn(ScoredModel) -> bool {
    |s: ScoredModel| is_symbol(s.node) && s.node.community == Some(c)
}

/// The communities of symbols, in the order in which they first come.
pub open spec fn communities_in(all: Seq<ScoredModel>) -> Seq<u32>
    decreases all.len(),
{
    if all.len() == 0 {
        Seq::empty()
    } else {
        let rest = communities_in(all.drop_last());
        match all.last().node.community {
            Some(c) => if is_symbol(all.last().node) && !rest.contains(c) {
                rest.push(c)
            } else {
                rest
            },
            None => rest,
        }
    }
}

/// How many symbols a community has.
pub open spec fn size_of(all: Seq<ScoredModel>, c: u32) -> nat {
    rows::kept(all, in_community(c)).len()
}

/// The order of communities by size, the largest first, and then by number.
pub open spec fn size_order(all: Seq<ScoredModel>) -> spec_fn(u32, u32) -> bool {
    |a: u32, b: u32|
        if size_of(all, a) != size_of(all, b) {
            size_of(all, a) > size_of(all, b)
        } else {
            a < b
        }
}

/// The largest communities, at most eight of them.
pub open spec fn top_communities(all: Seq<ScoredModel>) -> Seq<u32> {
    rows::limited(order::arranged(communities_in(all), size_order(all)), 8)
}

fn has_number(v: &Vec<u32>, c: u32) -> (r: bool)
    ensures
        r == v@.contains(c),
{
    let mut i: usize = 0;
    while i < v.len()
        invariant
            i <= v.len(),
            forall|j: int| 0 <= j < i ==> v@[j] != c,
        decreases v.len() - i,
    {
        if v[i] == c {
            return true;
        }
        i += 1;
    }
    false
}

/// The symbols of a community.
pub fn members_of(all: &Vec<Scored>, c: u32) -> (r: Vec<Scored>)
    ensures
        rows::seen(r@) == rows::kept(rows::seen(all@), in_community(c)),
{
    let test = |s: &Scored| -> (t: bool)
        ensures
            t == in_community(c)(s@),
    {
        symbol_test(&s.node) && match s.node.community {
            Some(x) => x == c,
            None => false,
        }
    };
    rows::select(all, Ghost(in_community(c)), test)
}

fn count_members(all: &Vec<Scored>, c: u32) -> (r: usize)
    ensures
        r == size_of(rows::seen(all@), c),
{
    let test = |s: &Scored| -> (t: bool)
        ensures
            t == in_community(c)(s@),
    {
        symbol_test(&s.node) && match s.node.community {
            Some(x) => x == c,
            None => false,
        }
    };
    rows::count(all, Ghost(in_community(c)), test)
}

/// See [`top_communities`].
pub fn largest_communities(all: &Vec<Scored>) -> (r: Vec<u32>)
    ensures
        r@ == top_communities(rows::seen(all@)),
{
    let ghost views = rows::seen(all@);
    let mut found: Vec<u32> = Vec::new();
    let mut i: usize = 0;
    assert(views.take(0) =~= Seq::empty());
    while i < all.len()
        invariant
            i <= all.len(),
            views == rows::seen(all@),
            found@ == communities_in(views.take(i as int)),
        decreases all.len() - i,
    {
        assert(views.take(i + 1).drop_last() =~= views.take(i as int));
        assert(views.take(i + 1).last() == all@[i as int]@);
        if let Some(c) = all[i].node.community {
            if symbol_test(&all[i].node) && !has_number(&found, c) {
                found.push(c);
            }
        }
        i += 1;
    }
    assert(views.take(all@.len() as int) =~= views);
    let less = |a: &u32, b: &u32| -> (t: bool)
        ensures
            t == size_order(rows::seen(all@))(*a, *b),
    {
        let x: usize = count_members(all, *a);
        let y: usize = count_members(all, *b);
        if x != y {
            x > y
        } else {
            *a < *b
        }
    };
    let mut sorted = order::arrange(found, Ghost(size_order(rows::seen(all@))), less);
    let ghost whole = sorted@;
    sorted.truncate(8);
    assert(sorted@ =~= rows::limited(whole, 8));
    sorted
}

} // verus!
