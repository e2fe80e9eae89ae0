//! Bringing the index up to date: what changed files contribute, what vanished
//! files take away, and which edges are resolved anew.

use vstd::prelude::*;
use vstd::string::*;

use crate::parse::ParsedFile;
use crate::rows;
use crate::search;
use crate::store;
use crate::store::{Store, StoreModel};
use crate::store_edges;
use crate::store_files;
use crate::store_files::{FileShape, ShapeModel};
use crate::tables::{ImportRowModel, ManifestEntry, ManifestEntryModel};
use crate::text;
use crate::tsconfig;
use crate::tsconfig::{AliasMap, ScopeModel};
use crate::types;
use crate::types::{Node, NodeModel, RawImport};

verus! {

/// A parsed file: its path, the hash of its text, when it was changed, and what
/// was found in it.
pub struct ParsedItem {
    pub rel: String,
    pub sha: String,
    pub mtime: i64,
    pub parsed: ParsedFile,
}

/// The shape of a parsed file.
pub open spec fn parsed_shape_of(p: ParsedFile) -> ShapeModel {
    store_files::shape_of(
        types::node_views(p.nodes@),
        p.inherits@.map_values(|i: types::RawInherit| store_files::inherit_parts(i)),
        p.fields@.map_values(|f: types::RawField| store_files::field_parts(f)),
    )
}

/// See [`parsed_shape_of`].
pub fn parsed_shape(p: &ParsedFile) -> (r: FileShape)
    ensures
        r@ == parsed_shape_of(*p),
{
    store_files::make_shape(&p.nodes, &p.inherits, &p.fields)
}

/// The name that two sets of definitions do not both give to an id.
pub open spec fn differs_in(
    a: Map<Seq<char>, Seq<char>>,
    b: Map<Seq<char>, Seq<char>>,
    name: Seq<char>,
) -> bool {
    exists|id: Seq<char>| #[trigger]
        a.contains_key(id) && a[id] == name && !(b.contains_key(id) && b[id] == name)
}

/// The names of the definitions that only one of two shapes has.
pub open spec fn changed_names(a: ShapeModel, b: ShapeModel) -> Set<Seq<char>> {
    Set::new(
        |name: Seq<char>| differs_in(a.fn_defs, b.fn_defs, name) || differs_in(
            b.fn_defs,
            a.fn_defs,
            name,
        ),
    )
}

/// The set of texts.
pub open spec fn text_set(v: Seq<String>) -> Set<Seq<char>> {
    text::views(v).to_set()
}

proof fn lemma_defs_last(p: Seq<(Seq<char>, Seq<char>)>, k: int, id: Seq<char>)
    requires
        0 <= k <= p.len(),
        k > 0 ==> p[k - 1].0 == id,
        forall|i: int| k <= i < p.len() ==> (#[trigger] p[i]).0 != id,
    ensures
        store_files::defs_map(p).contains_key(id) == (k > 0),
        k > 0 ==> store_files::defs_map(p)[id] == p[k - 1].1,
    decreases p.len(),
{
    if p.len() > 0 {
        let d = p.drop_last();
        if k < p.len() {
            assert(p[p.len() - 1].0 != id);
            assert forall|i: int| k <= i < d.len() implies (#[trigger] d[i]).0 != id by {
                assert(d[i] == p[i]);
            }
            lemma_defs_last(d, k, id);
        }
    }
}

/// The name that pairs give to an id: that of the last pair with it.
pub fn lookup_def(v: &Vec<(String, String)>, id: &str) -> (r: Option<String>)
    ensures
        match r {
            Some(n) => store_files::defs_map(store_files::pair_views(v@)).contains_key(id@)
                && store_files::defs_map(store_files::pair_views(v@))[id@] == n@,
            None => !store_files::defs_map(store_files::pair_views(v@)).contains_key(id@),
        },
{
    let ghost p = store_files::pair_views(v@);
    assert(p.len() == v@.len());
    let mut k: usize = v.len();
    while k > 0 && !text::same(v[k - 1].0.as_str(), id)
        invariant
            k <= v.len(),
            p == store_files::pair_views(v@),
            p.len() == v@.len(),
            forall|i: int| k <= i < p.len() ==> (#[trigger] p[i]).0 != id@,
        ensures
            k > 0 ==> v@[k - 1].0@ == id@,
        decreases k,
    {
        assert(p[k - 1] == (v@[k - 1].0@, v@[k - 1].1@));
        k -= 1;
    }
    proof {
        if k > 0 {
            assert(p[k - 1] == (v@[k - 1].0@, v@[k - 1].1@));
        }
        lemma_defs_last(p, k as int, id@);
    }
    if k > 0 {
        Some(v[k - 1].1.clone())
    } else {
        None
    }
}

/// A definition under an id is that of a pair.
pub proof fn lemma_defs_key(p: Seq<(Seq<char>, Seq<char>)>, id: Seq<char>)
    requires
        store_files::defs_map(p).contains_key(id),
    ensures
        exists|i: int|
            0 <= i < p.len() && (#[trigger] p[i]).0 == id && p[i].1 == store_files::defs_map(p)[id],
    decreases p.len(),
{
    if p.len() > 0 {
        let d = p.drop_last();
        if p.last().0 == id {
            assert(p[p.len() - 1].0 == id);
        } else {
            lemma_defs_key(d, id);
            let i = choose|i: int|
                0 <= i < d.len() && (#[trigger] d[i]).0 == id && d[i].1 == store_files::defs_map(
                    d,
                )[id];
            assert(p[i] == d[i]);
        }
    }
}

/// Puts at the end the names that `a` gives to ids and `b` does not.
fn add_differing(out: &mut Vec<String>, a: &Vec<(String, String)>, b: &Vec<(String, String)>)
    ensures
        forall|x: Seq<char>| #[trigger]
            text_set(final(out)@).contains(x) <==> text_set(old(out)@).contains(x) || differs_in(
                store_files::defs_map(store_files::pair_views(a@)),
                store_files::defs_map(store_files::pair_views(b@)),
                x,
            ),
{
    let ghost p = store_files::pair_views(a@);
    let ghost x = store_files::defs_map(p);
    let ghost y = store_files::defs_map(store_files::pair_views(b@));
    let ghost was = text_set(out@);
    assert(p.len() == a@.len());
    let mut i: usize = 0;
    while i < a.len()
        invariant
            i <= a.len(),
            p == store_files::pair_views(a@),
            p.len() == a@.len(),
            x == store_files::defs_map(p),
            y == store_files::defs_map(store_files::pair_views(b@)),
            forall|n: Seq<char>| #[trigger]
                text_set(out@).contains(n) ==> was.contains(n) || differs_in(x, y, n),
            forall|n: Seq<char>| #[trigger] was.contains(n) ==> text_set(out@).contains(n),
            forall|k: int|
                0 <= k < i && x[(#[trigger] p[k]).0] == p[k].1 && !(y.contains_key(p[k].0)
                    && y[p[k].0] == p[k].1) && x.contains_key(p[k].0) ==> text_set(
                    out@,
                ).contains(p[k].1),
        decreases a.len() - i,
    {
        let id = &a[i].0;
        let name = &a[i].1;
        assert(p[i as int] == (id@, name@));
        let ghost prev = out@;
        let ghost before = text::views(out@);
        let own = match lookup_def(a, id.as_str()) {
            Some(n) => text::same(n.as_str(), name.as_str()),
            None => false,
        };
        let other = match lookup_def(b, id.as_str()) {
            Some(n) => text::same(n.as_str(), name.as_str()),
            None => false,
        };
        if own && !other {
            out.push(name.clone());
            proof {
                let after = text::views(out@);
                assert(after =~= before.push(name@));
                assert(after[before.len() as int] == name@);
                assert forall|n: Seq<char>| #[trigger]
                    text_set(out@).contains(n) implies text_set(prev).contains(n) || n
                    == name@ by {
                    let k = choose|k: int| 0 <= k < after.len() && after[k] == n;
                    if k < before.len() {
                        assert(before[k] == n);
                    }
                }
                assert forall|n: Seq<char>| #[trigger] text_set(prev).contains(n) implies text_set(
                    out@,
                ).contains(n) by {
                    let k = choose|k: int| 0 <= k < before.len() && before[k] == n;
                    assert(after[k] == n);
                }
                assert(x.contains_key(id@));
                assert(differs_in(x, y, name@));
            }
        }
        i += 1;
    }
    proof {
        assert forall|n: Seq<char>| differs_in(x, y, n) implies #[trigger] text_set(
            out@,
        ).contains(n) by {
            let id = choose|id: Seq<char>| #[trigger]
                x.contains_key(id) && x[id] == n && !(y.contains_key(id) && y[id] == n);
            lemma_defs_key(p, id);
            let k = choose|k: int|
                0 <= k < p.len() && (#[trigger] p[k]).0 == id && p[k].1 == x[id];
            assert(x[p[k].0] == p[k].1);
        }
    }
}

/// The names of the definitions that only one of two shapes has; see
/// [`changed_names`].
pub fn fn_diff_names(old_shape: &FileShape, new_shape: &FileShape) -> (r: Vec<String>)
    ensures
        text_set(r@) == changed_names(old_shape@, new_shape@),
{
    let mut out: Vec<String> = Vec::new();
    assert forall|x: Seq<char>| !(#[trigger] text_set(out@).contains(x)) by {
        assert(text::views(out@).len() == 0);
    }
    add_differing(&mut out, &old_shape.fn_defs, &new_shape.fn_defs);
    add_differing(&mut out, &new_shape.fn_defs, &old_shape.fn_defs);
    assert(text_set(out@) =~= changed_names(old_shape@, new_shape@));
    out
}

/// Whether imports of a file go through aliases.
pub open spec fn uses_aliases(rel: Seq<char>) -> bool {
    let ext = search::after_last(rel, '.');
    ext == "ts"@ || ext == "tsx"@ || ext == "js"@ || ext == "jsx"@ || ext == "mjs"@
}

/// An import of a file with its alias resolved.
pub open spec fn aliased_row(scopes: Seq<ScopeModel>, rel: Seq<char>) -> spec_fn(RawImport) ->
    ImportRowModel {
    |i: RawImport|
        ImportRowModel {
            file_path: rel,
            name: i.name@,
            module: if uses_aliases(rel) && !text::occurs_at(i.module@, "."@, 0) {
                match tsconfig::alias(scopes, rel, i.module@) {
                    Some(m) => m,
                    None => i.module@,
                }
            } else {
                i.module@
            },
        }
}

/// The store after what it held of a file was replaced by what was parsed. The
/// nodes come later.
pub open spec fn with_item(s: StoreModel, item: ParsedItem, scopes: Seq<ScopeModel>) -> StoreModel {
    let t = store_files::without_file(s, item.rel@);
    let p = item.parsed;
    StoreModel {
        calls: rows::kept(t.calls, store_files::calls_outside(item.rel@)) + types::call_views(
            p.calls@,
        ).map_values(store_files::call_row(item.rel@)),
        inherits: rows::kept(t.inherits, store_files::inherits_outside(item.rel@))
            + p.inherits@.map_values(store_files::inherit_row(item.rel@)),
        fields: rows::kept(t.fields, store_files::fields_outside(item.rel@))
            + p.fields@.map_values(store_files::field_row(item.rel@)),
        locals: rows::kept(t.locals, store_files::locals_outside(item.rel@))
            + p.locals@.map_values(store_files::local_row(item.rel@)),
        type_refs: rows::kept(t.type_refs, store_files::type_refs_outside(item.rel@))
            + p.type_refs@.map_values(store_files::type_ref_row(item.rel@)),
        imports: rows::kept(t.imports, store_files::imports_outside(item.rel@))
            + p.imports@.map_values(aliased_row(scopes, item.rel@)),
        manifest: rows::replaced::<ManifestEntry>(
            t.manifest,
            ManifestEntryModel { file_path: item.rel@, sha256: item.sha@, mtime: item.mtime },
        ),
        ..t
    }
}

/// What changed files do to the index: the new tables, the names whose callers
/// have to be resolved anew, and whether more than functions and methods
/// changed.
pub struct ChangeModel {
    pub store: StoreModel,
    pub nodes: Seq<NodeModel>,
    pub dirty: Set<Seq<char>>,
    pub beyond: bool,
}

/// What the first of the changed files do to the index, before their nodes are
/// put in.
pub open spec fn with_items(s: StoreModel, items: Seq<ParsedItem>, scopes: Seq<ScopeModel>) ->
    ChangeModel
    decreases items.len(),
{
    if items.len() == 0 {
        ChangeModel { store: s, nodes: Seq::empty(), dirty: Set::empty(), beyond: false }
    } else {
        let rest = with_items(s, items.drop_last(), scopes);
        let item = items.last();
        let was = store_files::stored_shape(rest.store, item.rel@);
        let now = parsed_shape_of(item.parsed);
        ChangeModel {
            store: with_item(rest.store, item, scopes),
            nodes: rest.nodes + types::node_views(item.parsed.nodes@),
            dirty: if was.other == now.other {
                rest.dirty.union(changed_names(was, now))
            } else {
                rest.dirty
            },
            beyond: rest.beyond || was.other != now.other,
        }
    }
}

/// What changed files do to the index.
pub open spec fn persisted(s: StoreModel, items: Seq<ParsedItem>, scopes: Seq<ScopeModel>) ->
    ChangeModel {
    let all = with_items(s, items, scopes);
    ChangeModel {
        store: StoreModel {
            nodes: rows::all_upserted::<Node>(all.store.nodes, all.nodes),
            ..all.store
        },
        ..all
    }
}

/// The store without a file that is gone: its contents, its note, and all edges
/// that originate in it.
pub open spec fn without_gone(s: StoreModel, file: Seq<char>) -> StoreModel {
    let t = store_files::without_file(
        StoreModel { edges: rows::kept(s.edges, store_edges::edge_outside(file)), ..s },
        file,
    );
    StoreModel {
        manifest: rows::kept(t.manifest, rows::other_key::<ManifestEntry>(file)),
        ..t
    }
}

/// The names that are defined.
pub open spec fn defined_names(defs: Map<Seq<char>, Seq<char>>) -> Set<Seq<char>> {
    Set::new(
        |name: Seq<char>|
            exists|id: Seq<char>| #[trigger] defs.contains_key(id) && defs[id] == name,
    )
}

/// What files that are gone do to the index, and how many there are.
pub open spec fn pruned(c: ChangeModel, files: Seq<Seq<char>>, seen: Set<Seq<char>>) -> (
    ChangeModel,
    nat,
)
    decreases files.len(),
{
    if files.len() == 0 {
        (c, 0)
    } else {
        let (rest, n) = pruned(c, files.drop_last(), seen);
        let f = files.last();
        if seen.contains(f) {
            (rest, n)
        } else {
            let shape = store_files::stored_shape(rest.store, f);
            (
                ChangeModel {
                    store: without_gone(rest.store, f),
                    nodes: rest.nodes,
                    dirty: rest.dirty.union(defined_names(shape.fn_defs)),
                    beyond: rest.beyond || shape.other.len() > 0,
                },
                n + 1,
            )
        }
    }
}

/// The changes that files make to the index.
pub struct Changes {
    pub nodes: Vec<Node>,
    pub files: Vec<String>,
    pub dirty: Vec<String>,
    pub beyond: bool,
    pub pruned: usize,
}

/// Whether two shapes have the same items besides functions and methods.
fn same_items(a: &Vec<String>, b: &Vec<String>) -> (r: bool)
    ensures
        r == (text::views(a@) == text::views(b@)),
{
    let ghost x = text::views(a@);
    let ghost y = text::views(b@);
    assert(x.len() == a@.len() && y.len() == b@.len());
    if a.len() != b.len() {
        return false;
    }
    let mut i: usize = 0;
    while i < a.len()
        invariant
            i <= a.len(),
            a@.len() == b@.len(),
            x == text::views(a@),
            y == text::views(b@),
            x.len() == a@.len(),
            y.len() == b@.len(),
            forall|k: int| 0 <= k < i ==> x[k] == y[k],
        decreases a.len() - i,
    {
        assert(x[i as int] == a@[i as int]@);
        assert(y[i as int] == b@[i as int]@);
        if !text::same(a[i].as_str(), b[i].as_str()) {
            return false;
        }
        i += 1;
    }
    assert(x =~= y);
    true
}

/// The set of two lists together.
pub proof fn lemma_set_append(a: Seq<Seq<char>>, b: Seq<Seq<char>>)
    ensures
        (a + b).to_set() == a.to_set().union(b.to_set()),
{
    let c = a + b;
    assert forall|x: Seq<char>| #[trigger]
        c.to_set().contains(x) <==> a.to_set().union(b.to_set()).contains(x) by {
        if c.contains(x) {
            let i = choose|i: int| 0 <= i < c.len() && c[i] == x;
            if i < a.len() {
                assert(a[i] == x);
            } else {
                assert(b[i - a.len()] == x);
            }
        }
        if a.contains(x) {
            let i = choose|i: int| 0 <= i < a.len() && a[i] == x;
            assert(c[i] == x);
        }
        if b.contains(x) {
            let i = choose|i: int| 0 <= i < b.len() && b[i] == x;
            assert(c[a.len() + i] == x);
        }
    }
    assert(c.to_set() =~= a.to_set().union(b.to_set()));
}

/// The imports of a file with their aliases resolved.
fn resolve_imports(rel: &str, imports: &Vec<RawImport>, aliases: &AliasMap) -> (r: Vec<RawImport>)
    ensures
        r@.map_values(store_files::import_row(rel@)) == imports@.map_values(
            aliased_row(aliases@, rel@),
        ),
{
    let ext = search::text_after_last(rel, '.');
    let script = text::same(ext.as_str(), "ts") || text::same(ext.as_str(), "tsx") || text::same(
        ext.as_str(),
        "js",
    ) || text::same(ext.as_str(), "jsx") || text::same(ext.as_str(), "mjs");
    let ghost all = imports@.map_values(aliased_row(aliases@, rel@));
    let mut out: Vec<RawImport> = Vec::new();
    let mut i: usize = 0;
    while i < imports.len()
        invariant
            i <= imports.len(),
            script == uses_aliases(rel@),
            all == imports@.map_values(aliased_row(aliases@, rel@)),
            out@.map_values(store_files::import_row(rel@)) == all.take(i as int),
        decreases imports.len() - i,
    {
        let im = &imports[i];
        let module = if script && !text::begins_with(im.module.as_str(), ".") {
            match aliases.resolve(rel, im.module.as_str()) {
                Some(m) => m,
                None => im.module.clone(),
            }
        } else {
            im.module.clone()
        };
        let ghost was = out@;
        let row = RawImport {
            file_path: im.file_path.clone(),
            name: im.name.clone(),
            module,
        };
        assert(store_files::import_row(rel@)(row) == all[i as int]);
        out.push(row);
        assert(out@.map_values(store_files::import_row(rel@)) =~= was.map_values(
            store_files::import_row(rel@),
        ).push(all[i as int]));
        i += 1;
    }
    assert(all.take(imports@.len() as int) =~= all);
    out
}

impl Store {
    /// Replaces what is held of a file by what was parsed; see [`with_item`].
    pub fn put_item(&mut self, item: &ParsedItem, aliases: &AliasMap)
        requires
            old(self)@.wf(),
        ensures
            final(self)@ == with_item(old(self)@, *item, aliases@),
            final(self)@.wf(),
    {
        let rel = item.rel.as_str();
        self.delete_file_data(rel);
        self.save_calls(rel, &item.parsed.calls);
        self.save_inherits(rel, &item.parsed.inherits);
        self.save_fields(rel, &item.parsed.fields);
        self.save_locals(rel, &item.parsed.locals);
        self.save_type_refs(rel, &item.parsed.type_refs);
        let imports = resolve_imports(rel, &item.parsed.imports, aliases);
        self.save_imports(rel, &imports);
        self.save_manifest(rel, item.sha.as_str(), item.mtime);
    }

    /// Puts what was parsed into the index; see [`persisted`].
    pub fn persist(&mut self, items: &Vec<ParsedItem>, aliases: &AliasMap) -> (r: Changes)
        requires
            old(self)@.wf(),
        ensures
            ({
                let m = persisted(old(self)@, items@, aliases@);
                &&& final(self)@ == m.store
                &&& types::node_views(r.nodes@) == m.nodes
                &&& text::views(r.files@) == items@.map_values(|i: ParsedItem| i.rel@)
                &&& text_set(r.dirty@) == m.dirty
                &&& r.beyond == m.beyond
                &&& r.pruned == 0
            }),
            final(self)@.wf(),
    {
        let ghost was = self@;
        let mut nodes: Vec<Node> = Vec::new();
        let mut files: Vec<String> = Vec::new();
        let mut dirty: Vec<String> = Vec::new();
        let mut beyond = false;
        let mut i: usize = 0;
        let ghost rels = items@.map_values(|i: ParsedItem| i.rel@);
        proof {
            assert(types::node_views(nodes@) =~= Seq::empty());
            assert(text_set(dirty@) =~= Set::empty()) by {
                assert(text::views(dirty@).len() == 0);
            }
            assert(items@.take(0) =~= Seq::empty());
        }
        while i < items.len()
            invariant
                i <= items.len(),
                self@.wf(),
                rels == items@.map_values(|i: ParsedItem| i.rel@),
                text::views(files@) == rels.take(i as int),
                ({
                    let m = with_items(was, items@.take(i as int), aliases@);
                    &&& self@ == m.store
                    &&& types::node_views(nodes@) == m.nodes
                    &&& text_set(dirty@) == m.dirty
                    &&& beyond == m.beyond
                }),
            decreases items.len() - i,
        {
            let item = &items[i];
            let ghost so_far = with_items(was, items@.take(i as int), aliases@);
            assert(items@.take(i + 1).drop_last() =~= items@.take(i as int));
            let old_shape = self.file_shape(item.rel.as_str());
            let new_shape = parsed_shape(&item.parsed);
            if same_items(&old_shape.other, &new_shape.other) {
                let mut more = fn_diff_names(&old_shape, &new_shape);
                let ghost a = text::views(dirty@);
                let ghost b = text::views(more@);
                dirty.append(&mut more);
                proof {
                    assert(text::views(dirty@) =~= a + b);
                    lemma_set_append(a, b);
                }
            } else {
                beyond = true;
            }
            self.put_item(item, aliases);
            let mut found = rows::copies(&item.parsed.nodes);
            let ghost a = types::node_views(nodes@);
            let ghost b = types::node_views(found@);
            nodes.append(&mut found);
            assert(types::node_views(nodes@) =~= a + b);
            let ghost before = files@;
            files.push(item.rel.clone());
            assert(text::views(files@) =~= text::views(before).push(rels[i as int]));
            i += 1;
        }
        proof {
            assert(items@.take(items@.len() as int) =~= items@);
            assert(rels.take(items@.len() as int) =~= rels);
        }
        self.bulk_upsert_nodes(&nodes);
        Changes { nodes, files, dirty, beyond, pruned: 0 }
    }
}

} // verus!
