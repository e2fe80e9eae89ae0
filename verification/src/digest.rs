//! Hashes and snapshots of the index.

use sha2::Digest;
use vstd::prelude::*;
use vstd::string::*;
use vstd::utf8::*;

use crate::order;
use crate::search;
use crate::text;
use crate::types::EdgeRelation;

verus! {

/// The SHA-256 hash of bytes.
pub uninterp spec fn sha256_hash(bytes: Seq<u8>) -> Seq<u8>;

/// `sha2::Sha256::digest`: a hash of thirty-two bytes.
#[verifier::external_body]
pub(crate) fn hash_bytes(bytes: &Vec<u8>) -> (r: Vec<u8>)
    ensures
        r@ == sha256_hash(bytes@),
        r@.len() == 32,
{
    sha2::Sha256::digest(bytes).to_vec()
}

/// The hexadecimal digit of a number below sixteen.
pub open spec fn hex_digit(d: u8) -> char {
    if d < 10 {
        (('0' as u8) + d) as u8 as char
    } else {
        (('a' as u8) + d - 10) as u8 as char
    }
}

/// The hexadecimal notation of bytes.
pub open spec fn hex(bytes: Seq<u8>) -> Seq<char>
    decreases bytes.len(),
{
    if bytes.len() == 0 {
        Seq::empty()
    } else {
        hex(bytes.drop_last()).push(hex_digit((bytes.last() / 16) as u8)).push(
            hex_digit((bytes.last() % 16) as u8),
        )
    }
}

/// See [`hex_digit`].
fn digit_of(d: u8) -> (r: char)
    requires
        d < 16,
    ensures
        r == hex_digit(d),
{
    if d < 10 {
        (48u8 + d) as char
    } else {
        (87u8 + d) as char
    }
}

/// See [`hex`].
pub fn to_hex(bytes: &Vec<u8>) -> (r: String)
    ensures
        r@ == hex(bytes@),
        r@.len() == 2 * bytes@.len(),
{
    let mut s = String::new();
    let mut i: usize = 0;
    while i < bytes.len()
        invariant
            i <= bytes.len(),
            s@ == hex(bytes@.take(i as int)),
            s@.len() == 2 * i,
        decreases bytes.len() - i,
    {
        let b = bytes[i];
        assert(bytes@.take(i + 1).drop_last() =~= bytes@.take(i as int));
        s.push(digit_of(b / 16));
        s.push(digit_of(b % 16));
        i += 1;
    }
    assert(bytes@.take(bytes@.len() as int) =~= bytes@);
    s
}

/// The hash of bytes in hexadecimal notation.
pub open spec fn hash_text(bytes: Seq<u8>) -> Seq<char> {
    hex(sha256_hash(bytes))
}

/// See [`hash_text`].
pub fn hash_of(bytes: &Vec<u8>) -> (r: String)
    ensures
        r@ == hash_text(bytes@),
        r@.len() == 64,
{
    to_hex(&hash_bytes(bytes))
}

/// The hash of a text's bytes in hexadecimal notation.
pub fn sha256(s: &str) -> (r: String)
    ensures
        r@ == hash_text(encode_utf8(s@)),
        r@.len() == 64,
{
    let mut v: Vec<u8> = Vec::new();
    add_bytes(&mut v, s);
    assert(v@ =~= encode_utf8(s@));
    hash_of(&v)
}

/// Puts the bytes of a text at the end.
pub fn add_bytes(v: &mut Vec<u8>, s: &str)
    ensures
        final(v)@ == old(v)@ + encode_utf8(s@),
{
    let b = s.as_bytes();
    let ghost was = v@;
    let mut i: usize = 0;
    while i < b.len()
        invariant
            i <= b.len(),
            b@ == encode_utf8(s@),
            v@ == was + b@.take(i as int),
        decreases b.len() - i,
    {
        v.push(b[i]);
        assert(was + b@.take(i + 1) =~= (was + b@.take(i as int)).push(b@[i as int]));
        i += 1;
    }
    assert(b@.take(b@.len() as int) =~= b@);
}

/// Where the graphs of all projects are: the directory that was set, else one in
/// the cache of the user, else one in the home directory, else one here.
pub fn cache_root(own: Option<String>, xdg: Option<String>, home: Option<String>) -> (r: String)
    ensures
        r@ == (match (own, xdg, home) {
            (Some(d), _, _) => d@,
            (None, Some(x), _) => x@ + "/codegraph"@,
            (None, None, Some(h)) => h@ + "/.cache/codegraph"@,
            (None, None, None) => ".codegraph-cache"@,
        }),
{
    match own {
        Some(d) => d,
        None => match xdg {
            Some(x) => x.concat("/codegraph"),
            None => match home {
                Some(h) => h.concat("/.cache/codegraph"),
                None => ".codegraph-cache".to_owned(),
            },
        },
    }
}

/// The name of a project: the last part of its path, where it has one.
pub fn project_name(path: Option<&str>) -> (r: String)
    ensures
        r@ == (match path {
            Some(p) => {
                let last = search::after_last(p@, '/');
                if last.len() > 0 {
                    last
                } else {
                    "project"@
                }
            },
            None => "project"@,
        }),
{
    match path {
        Some(p) => {
            let last = search::text_after_last(p, '/');
            if last.as_str().is_empty() {
                "project".to_owned()
            } else {
                last
            }
        },
        None => "project".to_owned(),
    }
}

/// The place of a project's graph in the cache: named by the first half of the
/// hash of the project's path.
pub fn db_path(cache: &str, project: &str) -> (r: String)
    ensures
        r@ == cache@ + "/"@ + hash_text(encode_utf8(project@)).take(16) + "/graph.db"@,
{
    let id = sha256(project);
    let v = text::chars_of(id.as_str());
    let short = text::slice(v.as_slice(), 0, 16);
    assert(v@.subrange(0, 16) =~= v@.take(16));
    cache.to_owned().concat("/").concat(short.as_str()).concat("/graph.db")
}

/// A node in its stored form.
pub struct NodeText {
    pub id: String,
    pub data: String,
}

/// An edge in its stored form.
pub struct EdgeText {
    pub src: String,
    pub dst: String,
    pub relation: EdgeRelation,
    pub data: String,
}

/// The model of a [`NodeText`].
pub type NodeTextModel = (Seq<char>, Seq<char>);

/// The model of an [`EdgeText`]: its key and its stored form.
pub type EdgeTextModel = ((Seq<char>, Seq<char>, EdgeRelation), Seq<char>);

/// What nodes in their stored form hold.
pub open spec fn node_texts(v: Seq<NodeText>) -> Seq<NodeTextModel> {
    v.map_values(|n: NodeText| (n.id@, n.data@))
}

/// What edges in their stored form hold.
pub open spec fn edge_texts(v: Seq<EdgeText>) -> Seq<EdgeTextModel> {
    v.map_values(|e: EdgeText| ((e.src@, e.dst@, e.relation), e.data@))
}

/// The order of nodes by id.
pub open spec fn node_text_order() -> spec_fn(NodeTextModel, NodeTextModel) -> bool {
    |a: NodeTextModel, b: NodeTextModel| text::text_less(a.0, b.0)
}

/// Whether an edge comes before another by source, target and relation name.
pub open spec fn key_less(
    a: (Seq<char>, Seq<char>, EdgeRelation),
    b: (Seq<char>, Seq<char>, EdgeRelation),
) -> bool {
    if a.0 != b.0 {
        text::text_less(a.0, b.0)
    } else if a.1 != b.1 {
        text::text_less(a.1, b.1)
    } else {
        text::text_less(a.2.text(), b.2.text())
    }
}

/// The order of edges by key.
pub open spec fn edge_text_order() -> spec_fn(EdgeTextModel, EdgeTextModel) -> bool {
    |a: EdgeTextModel, b: EdgeTextModel| key_less(a.0, b.0)
}

/// The bytes of texts one after the other.
pub open spec fn bytes_of(t: Seq<Seq<char>>) -> Seq<u8>
    decreases t.len(),
{
    if t.len() == 0 {
        Seq::empty()
    } else {
        bytes_of(t.drop_last()) + encode_utf8(t.last())
    }
}

/// The stored forms of the nodes in the order of their ids and those of the
/// edges in the order of their keys.
pub open spec fn canonical_texts(nodes: Seq<NodeTextModel>, edges: Seq<EdgeTextModel>) -> Seq<
    Seq<char>,
> {
    order::arranged(nodes, node_text_order()).map_values(|n: NodeTextModel| n.1) + order::arranged(
        edges,
        edge_text_order(),
    ).map_values(|e: EdgeTextModel| e.1)
}

/// The hash of a graph: of the stored forms of its nodes and edges in their
/// order.
pub open spec fn graph_hash(nodes: Seq<NodeTextModel>, edges: Seq<EdgeTextModel>) -> Seq<char> {
    hash_text(bytes_of(canonical_texts(nodes, edges)))
}

/// See [`graph_hash`].
pub fn canonical_hash(nodes: Vec<NodeText>, edges: Vec<EdgeText>) -> (r: String)
    ensures
        r@ == graph_hash(node_texts(nodes@), edge_texts(edges@)),
{
    let ghost n0 = nodes@;
    let ghost e0 = edges@;
    let ghost nf = |n: NodeText| (n.id@, n.data@);
    let ghost ef = |e: EdgeText| ((e.src@, e.dst@, e.relation), e.data@);
    let ghost nb = |a: NodeText, b: NodeText| text::text_less(a.id@, b.id@);
    let ghost eb = |a: EdgeText, b: EdgeText|
        key_less((a.src@, a.dst@, a.relation), (b.src@, b.dst@, b.relation));
    let less = |a: &NodeText, b: &NodeText| -> (t: bool)
        ensures
            t == text::text_less(a.id@, b.id@),
    { text::less(a.id.as_str(), b.id.as_str()) };
    let n = order::arrange(nodes, Ghost(nb), less);
    let less = |a: &EdgeText, b: &EdgeText| -> (t: bool)
        ensures
            t == key_less((a.src@, a.dst@, a.relation), (b.src@, b.dst@, b.relation)),
    {
        if !text::same(a.src.as_str(), b.src.as_str()) {
            text::less(a.src.as_str(), b.src.as_str())
        } else if !text::same(a.dst.as_str(), b.dst.as_str()) {
            text::less(a.dst.as_str(), b.dst.as_str())
        } else {
            text::less(a.relation.as_str(), b.relation.as_str())
        }
    };
    let e = order::arrange(edges, Ghost(eb), less);
    proof {
        order::lemma_arranged_map(n0, nb, nf, node_text_order());
        order::lemma_arranged_map(e0, eb, ef, edge_text_order());
        assert(node_texts(n@) =~= n@.map_values(nf));
        assert(node_texts(n0) =~= n0.map_values(nf));
        assert(edge_texts(e@) =~= e@.map_values(ef));
        assert(edge_texts(e0) =~= e0.map_values(ef));
    }
    let ghost all = canonical_texts(node_texts(n0), edge_texts(e0));
    let mut bytes: Vec<u8> = Vec::new();
    let mut i: usize = 0;
    assert(all.take(0) =~= Seq::empty());
    while i < n.len()
        invariant
            i <= n.len(),
            n@.len() <= all.len(),
            forall|k: int| 0 <= k < n@.len() ==> #[trigger] all[k] == n@[k].data@,
            bytes@ == bytes_of(all.take(i as int)),
        decreases n.len() - i,
    {
        assert(all.take(i + 1).drop_last() =~= all.take(i as int));
        add_bytes(&mut bytes, n[i].data.as_str());
        i += 1;
    }
    let mut j: usize = 0;
    while j < e.len()
        invariant
            j <= e.len(),
            all.len() == n@.len() + e@.len(),
            forall|k: int| 0 <= k < e@.len() ==> all[n@.len() + k] == (#[trigger] e@[k]).data@,
            bytes@ == bytes_of(all.take(n@.len() + j)),
        decreases e.len() - j,
    {
        let ghost at = n@.len() + j;
        assert(all.take(at + 1).drop_last() =~= all.take(at));
        assert(all[at] == e@[j as int].data@);
        add_bytes(&mut bytes, e[j].data.as_str());
        j += 1;
    }
    assert(all.take(all.len() as int) =~= all);
    hash_of(&bytes)
}

/// Whether each id stands once.
pub open spec fn ids_unique(nodes: Seq<NodeTextModel>) -> bool {
    forall|i: int, j: int|
        0 <= i < j < nodes.len() ==> (#[trigger] nodes[i]).0 != (#[trigger] nodes[j]).0
}

/// Whether each key stands once.
pub open spec fn keys_unique(edges: Seq<EdgeTextModel>) -> bool {
    forall|i: int, j: int|
        0 <= i < j < edges.len() ==> (#[trigger] edges[i]).0 != (#[trigger] edges[j]).0
}

/// The hash of a graph does not depend on the order in which its rows stand:
/// two indexes with the same nodes and edges have the same hash.
pub proof fn law_hash_ignores_row_order(
    nodes: Seq<NodeTextModel>,
    edges: Seq<EdgeTextModel>,
    other_nodes: Seq<NodeTextModel>,
    other_edges: Seq<EdgeTextModel>,
)
    requires
        nodes.to_multiset() == other_nodes.to_multiset(),
        edges.to_multiset() == other_edges.to_multiset(),
        ids_unique(nodes),
        keys_unique(edges),
    ensures
        graph_hash(nodes, edges) == graph_hash(other_nodes, other_edges),
{
    broadcast use vstd::seq_lib::group_to_multiset_ensures;

    let nb = node_text_order();
    let eb = edge_text_order();
    lemma_node_order();
    lemma_edge_order();
    order::law_arranged(nodes, nb);
    order::law_arranged(other_nodes, nb);
    order::law_arranged(edges, eb);
    order::law_arranged(other_edges, eb);
    let a = order::arranged(nodes, nb);
    let c = order::arranged(edges, eb);
    assert forall|x: NodeTextModel, y: NodeTextModel|
        #![trigger a.contains(x), a.contains(y)]
        a.contains(x) && a.contains(y) && x != y implies nb(x, y) || nb(y, x) by {
        assert(a.to_multiset().count(x) > 0 && a.to_multiset().count(y) > 0);
        assert(nodes.contains(x) && nodes.contains(y));
        let i = choose|i: int| 0 <= i < nodes.len() && nodes[i] == x;
        let j = choose|j: int| 0 <= j < nodes.len() && nodes[j] == y;
        assert(i != j);
        if i < j {
            assert(nodes[i].0 != nodes[j].0);
        } else {
            assert(nodes[j].0 != nodes[i].0);
        }
        order::lemma_text_total(x.0, y.0);
    }
    order::lemma_arranged_unique(a, order::arranged(other_nodes, nb), nb);
    assert forall|x: EdgeTextModel, y: EdgeTextModel|
        #![trigger c.contains(x), c.contains(y)]
        c.contains(x) && c.contains(y) && x != y implies eb(x, y) || eb(y, x) by {
        assert(c.to_multiset().count(x) > 0 && c.to_multiset().count(y) > 0);
        assert(edges.contains(x) && edges.contains(y));
        let i = choose|i: int| 0 <= i < edges.len() && edges[i] == x;
        let j = choose|j: int| 0 <= j < edges.len() && edges[j] == y;
        assert(i != j);
        if i < j {
            assert(edges[i].0 != edges[j].0);
        } else {
            assert(edges[j].0 != edges[i].0);
        }
        order::lemma_text_total(x.0.0, y.0.0);
        order::lemma_text_total(x.0.1, y.0.1);
        order::lemma_text_total(x.0.2.text(), y.0.2.text());
        if x.0.2 != y.0.2 {
            crate::types::law_edge_relation_names_distinct(x.0.2, y.0.2);
        }
    }
    order::lemma_arranged_unique(c, order::arranged(other_edges, eb), eb);
}

proof fn lemma_node_order()
    ensures
        order::is_order(node_text_order()),
{
    let before = node_text_order();
    assert forall|a: NodeTextModel, b: NodeTextModel| #[trigger] before(a, b) implies !before(
        b,
        a,
    ) by {
        order::lemma_text_asymmetric(a.0, b.0);
    }
    assert forall|a: NodeTextModel, b: NodeTextModel, c: NodeTextModel|
        #![trigger before(a, b), before(a, c)]
        #![trigger before(a, b), before(c, b)]
        before(a, b) implies before(a, c) || before(c, b) by {
        order::lemma_text_between(a.0, b.0, c.0);
    }
}

proof fn lemma_edge_order()
    ensures
        order::is_order(edge_text_order()),
{
    let before = edge_text_order();
    assert forall|a: EdgeTextModel, b: EdgeTextModel| #[trigger] before(a, b) implies !before(
        b,
        a,
    ) by {
        order::lemma_text_asymmetric(a.0.0, b.0.0);
        order::lemma_text_asymmetric(a.0.1, b.0.1);
        order::lemma_text_asymmetric(a.0.2.text(), b.0.2.text());
    }
    assert forall|a: EdgeTextModel, b: EdgeTextModel, c: EdgeTextModel|
        #![trigger before(a, b), before(a, c)]
        #![trigger before(a, b), before(c, b)]
        before(a, b) implies before(a, c) || before(c, b) by {
        order::lemma_text_total(a.0.0, c.0.0);
        order::lemma_text_total(c.0.0, b.0.0);
        order::lemma_text_total(a.0.1, c.0.1);
        order::lemma_text_total(c.0.1, b.0.1);
        if a.0.0 != b.0.0 {
            order::lemma_text_between(a.0.0, b.0.0, c.0.0);
        } else if a.0.1 != b.0.1 {
            if c.0.0 == a.0.0 {
                order::lemma_text_between(a.0.1, b.0.1, c.0.1);
            }
        } else {
            if c.0.0 == a.0.0 && c.0.1 == a.0.1 {
                order::lemma_text_between(a.0.2.text(), b.0.2.text(), c.0.2.text());
            }
        }
    }
}

/// What compressed bytes hold; nothing where they are no such bytes.
pub uninterp spec fn zstd_contents(packed: Seq<u8>) -> Option<Seq<u8>>;

/// The bytes in which bytes are compressed, or the words of the fault.
pub uninterp spec fn zstd_packed(bytes: Seq<u8>) -> Result<Seq<u8>, Seq<char>>;

/// What bytes or the words of a fault hold.
pub open spec fn bytes_result(r: Result<Vec<u8>, String>) -> Result<Seq<u8>, Seq<char>> {
    match r {
        Ok(b) => Ok(b@),
        Err(e) => Err(e@),
    }
}

/// `zstd::encode_all` at level 3, which reads from memory and writes to it: the
/// result depends on the bytes alone, as long as there is memory, and what it
/// gives decompresses to what went in.
#[verifier::external_body]
pub(crate) fn compress(bytes: &Vec<u8>) -> (r: Result<Vec<u8>, String>)
    ensures
        bytes_result(r) == zstd_packed(bytes@),
        r matches Ok(packed) ==> zstd_contents(packed@) == Some(bytes@),
{
    zstd::encode_all(bytes.as_slice(), 3).map_err(|e| e.to_string())
}

/// `zstd::decode_all`, which reads from memory and writes to it: it gives what
/// the bytes hold, as long as there is memory, and fails where they hold
/// nothing. The words of the fault are left open.
#[verifier::external_body]
pub(crate) fn decompress(packed: &Vec<u8>) -> (r: Result<Vec<u8>, String>)
    ensures
        match r {
            Ok(bytes) => zstd_contents(packed@) == Some(bytes@),
            Err(_) => zstd_contents(packed@) is None,
        },
{
    zstd::decode_all(packed.as_slice()).map_err(|e| e.to_string())
}

/// Whether a result is that of exporting a database: what compression gives,
/// which decompresses to the database.
pub open spec fn is_export(database: Seq<u8>, r: Result<Vec<u8>, String>) -> bool {
    &&& bytes_result(r) == zstd_packed(database)
    &&& r matches Ok(packed) ==> zstd_contents(packed@) == Some(database)
}

/// Whether a result is that of importing a snapshot: what it holds, and a fault
/// exactly where it holds nothing.
pub open spec fn is_import(snapshot: Seq<u8>, r: Result<Vec<u8>, String>) -> bool {
    match r {
        Ok(database) => zstd_contents(snapshot) == Some(database@),
        Err(_) => zstd_contents(snapshot) is None,
    }
}

/// A snapshot of a graph database for a file: what [`import_zst`] gives back
/// of it is the database.
pub fn export_zst(database: &Vec<u8>) -> (r: Result<Vec<u8>, String>)
    ensures
        is_export(database@, r),
{
    compress(database)
}

/// The graph database in a snapshot.
pub fn import_zst(snapshot: &Vec<u8>) -> (r: Result<Vec<u8>, String>)
    ensures
        is_import(snapshot@, r),
{
    decompress(snapshot)
}

/// Importing an exported snapshot succeeds and gives the database that was
/// exported.
pub proof fn law_import_gives_back_export(
    database: Seq<u8>,
    exported: Result<Vec<u8>, String>,
    imported: Result<Vec<u8>, String>,
)
    requires
        is_export(database, exported),
        exported is Ok,
        is_import(exported->Ok_0@, imported),
    ensures
        imported is Ok,
        imported->Ok_0@ == database,
{
}

} // verus!
