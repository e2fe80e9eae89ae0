//! The calls that a compiler's index store tells of.

use vstd::hash_map::*;
use vstd::prelude::*;
use vstd::string::*;

use crate::pairs::PairMap;
use crate::rows;
use crate::types;
use crate::types::{
    Confidence, Edge, EdgeModel, EdgeRelation, MetaModel, MetaValue, Metadata, Node, NodeLabel,
    NodeModel, ResolutionTier,
};
use crate::search;
use crate::text;

verus! {

/// The role of a place where a symbol is defined.
pub const ROLE_DEFINITION: u64 = 0x2;

/// The role of a place where a symbol is called.
pub const ROLE_CALL: u64 = 0x20;

/// The role of the relation of a call to the symbol that makes it.
pub const ROLE_REL_CALLEDBY: u64 = 0x2000;

/// The name of an Xcode project, for the name of its bundle.
pub open spec fn bundle_stem(name: Seq<char>) -> Option<Seq<char>> {
    if ".xcodeproj"@.is_suffix_of(name) || ".xcworkspace"@.is_suffix_of(name) {
        Some(search::before_last(name, '.'))
    } else {
        None
    }
}

/// See [`bundle_stem`].
pub fn xcode_stem(name: &str) -> (r: Option<String>)
    ensures
        types::opt_text(r) == bundle_stem(name@),
{
    if text::finishes_with(name, ".xcodeproj") || text::finishes_with(name, ".xcworkspace") {
        Some(search::text_before_last(name, '.'))
    } else {
        None
    }
}

/// Whether the search for projects goes into a directory that is `depth` levels
/// below the root: three levels, but not into hidden ones and those of packages.
pub open spec fn is_searched(name: Seq<char>, depth: nat) -> bool {
    depth < 3 && !"."@.is_prefix_of(name) && name != "node_modules"@ && name != "Pods"@
}

/// See [`is_searched`].
pub fn searches_in(name: &str, depth: usize) -> (r: bool)
    ensures
        r == is_searched(name@, depth as nat),
{
    depth < 3 && !text::begins_with(name, ".") && !text::same(name, "node_modules") && !text::same(
        name,
        "Pods",
    )
}

/// Whether `k` is the place of the greatest of some times, the first of them
/// where several are.
pub open spec fn is_latest(times: Seq<u64>, k: int) -> bool {
    &&& 0 <= k < times.len()
    &&& forall|i: int| 0 <= i < times.len() ==> #[trigger] times[i] <= times[k]
    &&& forall|i: int| 0 <= i < k ==> #[trigger] times[i] < times[k]
}

/// The place of the index store that was changed last; none where there is none.
pub fn freshest(times: &Vec<u64>) -> (r: Option<usize>)
    ensures
        match r {
            Some(k) => is_latest(times@, k as int),
            None => times@.len() == 0,
        },
{
    if times.len() == 0 {
        return None;
    }
    let mut best: usize = 0;
    let mut i: usize = 1;
    while i < times.len()
        invariant
            1 <= i <= times.len(),
            is_latest(times@.take(i as int), best as int),
        decreases times.len() - i,
    {
        let ghost was = times@.take(i as int);
        let ghost now = times@.take(i + 1);
        assert(forall|k: int| 0 <= k < i ==> now[k] == #[trigger] was[k]);
        assert(was[best as int] == times@[best as int]);
        if times[i] > times[best] {
            best = i;
        }
        assert(forall|k: int| 0 <= k < i ==> was[k] == #[trigger] now[k]);
        i += 1;
    }
    assert(times@.take(times@.len() as int) =~= times@);
    Some(best)
}

/// Whether a directory of derived data belongs to one of some projects: it is
/// named by the project and a hash.
pub open spec fn is_data_of(dir: Seq<char>, stems: Seq<Seq<char>>) -> bool {
    exists|i: int| 0 <= i < stems.len() && (#[trigger] stems[i] + "-"@).is_prefix_of(dir)
}

/// See [`is_data_of`].
pub fn is_derived_data_of(dir: &str, stems: &Vec<String>) -> (r: bool)
    ensures
        r == is_data_of(dir@, text::views(stems@)),
{
    let ghost all = text::views(stems@);
    assert(all.len() == stems@.len());
    let mut i: usize = 0;
    while i < stems.len()
        invariant
            i <= stems.len(),
            all == text::views(stems@),
            all.len() == stems@.len(),
            forall|j: int| 0 <= j < i ==> !(#[trigger] all[j] + "-"@).is_prefix_of(dir@),
        decreases stems.len() - i,
    {
        assert(all[i as int] == stems@[i as int]@);
        let start = stems[i].clone().concat("-");
        if text::begins_with(dir, start.as_str()) {
            return true;
        }
        i += 1;
    }
    false
}

/// A place where a symbol occurs.
#[derive(Debug, PartialEq, Eq)]
pub struct Occ {
    /// What identifies the symbol in all files.
    pub usr: String,
    pub roles: u64,
    pub file: String,
    pub line: u32,
    /// The symbol that makes the call.
    pub caller_usr: Option<String>,
}

/// The model of an [`Occ`].
pub struct OccModel {
    pub usr: Seq<char>,
    pub roles: u64,
    pub file: Seq<char>,
    pub line: u32,
    pub caller_usr: Option<Seq<char>>,
}

impl View for Occ {
    type V = OccModel;

    open spec fn view(&self) -> OccModel {
        OccModel {
            usr: self.usr@,
            roles: self.roles,
            file: self.file@,
            line: self.line,
            caller_usr: types::opt_text(self.caller_usr),
        }
    }
}

/// Whether an occurrence is a definition.
pub open spec fn is_definition(o: OccModel) -> bool {
    o.roles & ROLE_DEFINITION != 0
}

/// Whether an occurrence is a call.
pub open spec fn is_call(o: OccModel) -> bool {
    o.roles & ROLE_CALL != 0
}

/// What is kept of an occurrence: its definition and its call, each on its own,
/// where the symbol has an identity.
pub open spec fn occurrences_of(o: OccModel) -> Seq<OccModel> {
    if o.usr.len() == 0 {
        Seq::empty()
    } else {
        (if is_definition(o) {
            seq![OccModel { roles: ROLE_DEFINITION, caller_usr: None, ..o }]
        } else {
            Seq::empty()
        }) + (if is_call(o) {
            seq![OccModel { roles: ROLE_CALL, ..o }]
        } else {
            Seq::empty()
        })
    }
}

/// See [`occurrences_of`].
pub fn split_occurrence(o: Occ) -> (r: Vec<Occ>)
    ensures
        rows::seen(r@) == occurrences_of(o@),
{
    let mut out: Vec<Occ> = Vec::new();
    let definition = o.roles & ROLE_DEFINITION != 0;
    let call = o.roles & ROLE_CALL != 0;
    if !o.usr.as_str().is_empty() {
        if definition {
            out.push(
                Occ {
                    usr: o.usr.clone(),
                    roles: ROLE_DEFINITION,
                    file: o.file.clone(),
                    line: o.line,
                    caller_usr: None,
                },
            );
        }
        if call {
            out.push(
                Occ {
                    usr: o.usr,
                    roles: ROLE_CALL,
                    file: o.file,
                    line: o.line,
                    caller_usr: o.caller_usr,
                },
            );
        }
    }
    assert(rows::seen(out@) =~= occurrences_of(o@));
    out
}

/// Whether a node is a definition around a line of a file.
pub open spec fn encloses(n: NodeModel, file: Seq<char>, line: u32) -> bool {
    n.file_path == file && (n.label == NodeLabel::Function || n.label == NodeLabel::Method
        || n.label == NodeLabel::Class || n.label == NodeLabel::Interface) && n.line_start <= line
        <= n.line_end
}

/// How many lines a node takes beyond its first.
pub open spec fn span(n: NodeModel) -> int {
    n.line_end - n.line_start
}

/// The place of the smallest definition around a line: the first of those that
/// are equally small.
pub open spec fn enclosing(nodes: Seq<NodeModel>, file: Seq<char>, line: u32) -> Option<int>
    decreases nodes.len(),
{
    if nodes.len() == 0 {
        None
    } else {
        let rest = enclosing(nodes.drop_last(), file, line);
        let n = nodes.last();
        if !encloses(n, file, line) {
            rest
        } else {
            match rest {
                Some(b) => if span(n) < span(nodes[b]) {
                    Some(nodes.len() - 1)
                } else {
                    rest
                },
                None => Some(nodes.len() - 1),
            }
        }
    }
}

/// The definition that a line belongs to is the smallest one around it, and the
/// first of those that are equally small.
pub proof fn law_enclosing_is_smallest(nodes: Seq<NodeModel>, file: Seq<char>, line: u32)
    ensures
        match enclosing(nodes, file, line) {
            Some(b) => 0 <= b < nodes.len() && encloses(nodes[b], file, line) && forall|i: int|
                0 <= i < nodes.len() && encloses(#[trigger] nodes[i], file, line) ==> span(nodes[b])
                    <= span(nodes[i]) && (i < b ==> span(nodes[b]) < span(nodes[i])),
            None => forall|i: int|
                0 <= i < nodes.len() ==> !encloses(#[trigger] nodes[i], file, line),
        },
    decreases nodes.len(),
{
    if nodes.len() > 0 {
        let d = nodes.drop_last();
        law_enclosing_is_smallest(d, file, line);
        assert forall|i: int| 0 <= i < d.len() implies d[i] == #[trigger] nodes[i] by {}
    }
}

/// See [`enclosing`].
fn best_def_node(nodes: &Vec<Node>, file: &str, line: u32) -> (r: Option<usize>)
    ensures
        match r {
            Some(b) => enclosing(types::node_views(nodes@), file@, line) == Some(b as int) && b
                < nodes@.len(),
            None => enclosing(types::node_views(nodes@), file@, line) is None,
        },
{
    let ghost all = types::node_views(nodes@);
    let mut best: Option<usize> = None;
    let mut i: usize = 0;
    while i < nodes.len()
        invariant
            i <= nodes.len(),
            all == types::node_views(nodes@),
            match best {
                Some(b) => enclosing(all.take(i as int), file@, line) == Some(b as int) && b < i
                    && encloses(all[b as int], file@, line),
                None => enclosing(all.take(i as int), file@, line) is None,
            },
        decreases nodes.len() - i,
    {
        assert(all.take(i + 1).drop_last() =~= all.take(i as int));
        assert(all.take(i + 1).last() == nodes@[i as int]@);
        let n = &nodes[i];
        let definition = n.label == NodeLabel::Function || n.label == NodeLabel::Method || n.label
            == NodeLabel::Class || n.label == NodeLabel::Interface;
        if text::same(n.file_path.as_str(), file) && definition && n.line_start <= line && line
            <= n.line_end {
            match best {
                Some(b) => {
                    assert(all[b as int] == nodes@[b as int]@);
                    assert(all.take(i + 1)[b as int] == all[b as int]);
                    if n.line_end - n.line_start < nodes[b].line_end - nodes[b].line_start {
                        best = Some(i);
                    }
                },
                None => {
                    best = Some(i);
                },
            }
        }
        i += 1;
    }
    assert(all.take(nodes@.len() as int) =~= all);
    best
}

/// The place of the node that defines a symbol, by the first definition for
/// which there is one.
pub open spec fn defined_at(occs: Seq<OccModel>, nodes: Seq<NodeModel>, usr: Seq<char>) -> Option<int>
    decreases occs.len(),
{
    if occs.len() == 0 {
        None
    } else {
        let rest = defined_at(occs.drop_last(), nodes, usr);
        let o = occs.last();
        if rest is None && is_definition(o) && o.usr == usr {
            enclosing(nodes, o.file, o.line)
        } else {
            rest
        }
    }
}

/// The places of the two ends of a call, where both symbols have a node and the
/// nodes are not one.
pub open spec fn ends_of(occs: Seq<OccModel>, nodes: Seq<NodeModel>, o: OccModel) -> Option<
    (int, int),
> {
    if !is_call(o) || o.caller_usr is None {
        None
    } else {
        match (defined_at(occs, nodes, o.caller_usr->0), defined_at(occs, nodes, o.usr)) {
            (Some(a), Some(b)) => if nodes[a].id == nodes[b].id {
                None
            } else {
                Some((a, b))
            },
            _ => None,
        }
    }
}

/// The edge of a call.
pub open spec fn store_edge(src: Seq<char>, dst: Seq<char>, o: OccModel) -> EdgeModel {
    EdgeModel {
        src,
        dst,
        relation: EdgeRelation::Calls,
        tier: ResolutionTier::Scip,
        confidence: Confidence::Extracted,
        src_file: o.file,
        src_line: o.line,
        metadata: seq![("justification"@, MetaModel::Text("IndexStore"@))],
    }
}

/// Whether there is an edge between two nodes.
pub open spec fn has_pair(edges: Seq<EdgeModel>, src: Seq<char>, dst: Seq<char>) -> bool {
    exists|i: int| 0 <= i < edges.len() && (#[trigger] edges[i]).src == src && edges[i].dst == dst
}

/// The edges of the first `k` occurrences: one for each two nodes, by the first
/// call between them.
pub open spec fn store_edges(occs: Seq<OccModel>, nodes: Seq<NodeModel>, k: nat) -> Seq<EdgeModel>
    decreases k,
{
    if k == 0 {
        Seq::empty()
    } else {
        let rest = store_edges(occs, nodes, (k - 1) as nat);
        let o = occs[k - 1];
        match ends_of(occs, nodes, o) {
            Some((a, b)) => if has_pair(rest, nodes[a].id, nodes[b].id) {
                rest
            } else {
                rest.push(store_edge(nodes[a].id, nodes[b].id, o))
            },
            None => rest,
        }
    }
}

/// The definitions of all symbols; see [`defined_at`].
fn collect_definitions(occs: &Vec<Occ>, nodes: &Vec<Node>) -> (r: StringHashMap<usize>)
    ensures
        forall|usr: Seq<char>|
            match #[trigger] defined_at(rows::seen(occs@), types::node_views(nodes@), usr) {
                Some(i) => r@.contains_key(usr) && r@[usr] == i && i < nodes@.len(),
                None => !r@.contains_key(usr),
            },
{
    let ghost all = rows::seen(occs@);
    let ghost known = types::node_views(nodes@);
    let mut found: StringHashMap<usize> = StringHashMap::new();
    let mut i: usize = 0;
    while i < occs.len()
        invariant
            i <= occs.len(),
            all == rows::seen(occs@),
            known == types::node_views(nodes@),
            forall|usr: Seq<char>|
                match #[trigger] defined_at(all.take(i as int), known, usr) {
                    Some(k) => found@.contains_key(usr) && found@[usr] == k && k < nodes@.len(),
                    None => !found@.contains_key(usr),
                },
        decreases occs.len() - i,
    {
        assert(all.take(i + 1).drop_last() =~= all.take(i as int));
        assert(all.take(i + 1).last() == occs@[i as int]@);
        let o = &occs[i];
        let ghost was = found@;
        if o.roles & ROLE_DEFINITION != 0 && !found.contains_key(o.usr.as_str()) {
            match best_def_node(nodes, o.file.as_str(), o.line) {
                Some(b) => {
                    found.insert(o.usr.clone(), b);
                },
                None => {},
            }
        }
        assert forall|usr: Seq<char>|
            match #[trigger] defined_at(all.take(i + 1), known, usr) {
                Some(k) => found@.contains_key(usr) && found@[usr] == k && k < nodes@.len(),
                None => !found@.contains_key(usr),
            } by {
            assert(match defined_at(all.take(i as int), known, usr) {
                Some(k) => was.contains_key(usr) && was[usr] == k && k < nodes@.len(),
                None => !was.contains_key(usr),
            });
        }
        i += 1;
    }
    assert(all.take(occs@.len() as int) =~= all);
    found
}

/// The edges that the occurrences of an index store give; see [`store_edges`].
pub fn import_indexstore(occs: &Vec<Occ>, nodes: &Vec<Node>) -> (r: Vec<Edge>)
    ensures
        types::edge_views(r@) == store_edges(
            rows::seen(occs@),
            types::node_views(nodes@),
            occs@.len(),
        ),
{
    let ghost all = rows::seen(occs@);
    let ghost known = types::node_views(nodes@);
    let defs = collect_definitions(occs, nodes);
    let mut seen = PairMap::new();
    let mut out: Vec<Edge> = Vec::new();
    let mut i: usize = 0;
    assert(types::edge_views(out@) =~= store_edges(all, known, 0));
    while i < occs.len()
        invariant
            i <= occs.len(),
            all == rows::seen(occs@),
            known == types::node_views(nodes@),
            seen.wf(),
            forall|usr: Seq<char>|
                match #[trigger] defined_at(all, known, usr) {
                    Some(k) => defs@.contains_key(usr) && defs@[usr] == k && k < nodes@.len(),
                    None => !defs@.contains_key(usr),
                },
            types::edge_views(out@) == store_edges(all, known, i as nat),
            forall|a: Seq<char>, b: Seq<char>| #[trigger]
                seen@.contains_key((a, b)) == has_pair(types::edge_views(out@), a, b),
        decreases occs.len() - i,
    {
        let o = &occs[i];
        assert(all[i as int] == o@);
        let ghost was = types::edge_views(out@);
        if o.roles & ROLE_CALL != 0 {
            if let Some(caller) = &o.caller_usr {
                assert(defined_at(all, known, caller@) is Some || defined_at(all, known, caller@)
                    is None);
                assert(defined_at(all, known, o.usr@) is Some || defined_at(all, known, o.usr@)
                    is None);
                if let (Some(a), Some(b)) = (defs.get(caller.as_str()), defs.get(o.usr.as_str())) {
                    let (a, b) = (*a, *b);
                    assert(known[a as int] == nodes@[a as int]@);
                    assert(known[b as int] == nodes@[b as int]@);
                    let src = nodes[a].id.as_str();
                    let dst = nodes[b].id.as_str();
                    if !text::same(src, dst) && seen.get(src, dst).is_none() {
                        assert(!seen@.contains_key((src@, dst@)));
                        let mut metadata = Metadata::new();
                        metadata.insert(
                            "justification".to_owned(),
                            MetaValue::Text("IndexStore".to_owned()),
                        );
                        assert(metadata@ =~= seq![
                            ("justification"@, MetaModel::Text("IndexStore"@)),
                        ]);
                        let e = Edge {
                            src: nodes[a].id.clone(),
                            dst: nodes[b].id.clone(),
                            relation: EdgeRelation::Calls,
                            tier: ResolutionTier::Scip,
                            confidence: Confidence::Extracted,
                            src_file: o.file.clone(),
                            src_line: o.line,
                            metadata,
                        };
                        seen.insert(src, dst, i);
                        out.push(e);
                        let ghost now = types::edge_views(out@);
                        assert(now =~= was.push(e@));
                        assert forall|x: Seq<char>, y: Seq<char>| #[trigger]
                            seen@.contains_key((x, y)) == has_pair(now, x, y) by {
                            if has_pair(was, x, y) {
                                let k = choose|k: int|
                                    0 <= k < was.len() && (#[trigger] was[k]).src == x && was[k].dst
                                        == y;
                                assert(now[k].src == x);
                            }
                            if has_pair(now, x, y) {
                                let k = choose|k: int|
                                    0 <= k < now.len() && (#[trigger] now[k]).src == x && now[k].dst
                                        == y;
                                if k < was.len() {
                                    assert(was[k].src == x);
                                }
                            }
                            assert(now[was.len() as int].src == src@);
                        }
                    } else {
                        assert(src@ == dst@ || seen@.contains_key((src@, dst@)));
                    }
                }
            }
        }
        i += 1;
    }
    out
}

/// The edges of an index store lead from one node to another, and there is one
/// for each two nodes at most.
pub proof fn law_store_edges_are_distinct(occs: Seq<OccModel>, nodes: Seq<NodeModel>, k: nat)
    requires
        k <= occs.len(),
    ensures
        forall|i: int|
            0 <= i < store_edges(occs, nodes, k).len() ==> (#[trigger] store_edges(
                occs,
                nodes,
                k,
            )[i]).src != store_edges(occs, nodes, k)[i].dst,
        forall|i: int, j: int|
            0 <= i < j < store_edges(occs, nodes, k).len() ==> {
                let a = #[trigger] store_edges(occs, nodes, k)[i];
                let b = #[trigger] store_edges(occs, nodes, k)[j];
                a.src != b.src || a.dst != b.dst
            },
    decreases k,
{
    if k > 0 {
        law_store_edges_are_distinct(occs, nodes, (k - 1) as nat);
    }
}

/// The occurrences of an index store. Reading one takes the compiler's own
/// library, which is not linked here.
pub fn read_occurrences(store: &str, root: &str) -> (r: Result<Vec<Occ>, String>)
    ensures
        r matches Err(e) && e@
            == "IndexStore reading needs macOS + `--features indexstore` (links libIndexStore)"@,
{
    Err("IndexStore reading needs macOS + `--features indexstore` (links libIndexStore)".to_owned())
}

} // verus!
