//! What the store holds of each file: its symbols, calls, supertypes, fields,
//! imports, locals and type mentions, and its observable shape.

use vstd::prelude::*;
use vstd::string::*;

use crate::order;
use crate::rows;
use crate::store::{Store, StoreModel};
use crate::store;
use crate::tables::{
    CallRow, CallRowModel, FieldRow, FieldRowModel, ImportRow, ImportRowModel, InheritRow,
    InheritRowModel, LocalRow, LocalRowModel, TypeRef, TypeRefModel, VectorRow, VectorRowModel,
};
use crate::text;
use crate::types;
use crate::types::{
    CallModel, InheritKind, Node, NodeLabel, NodeModel, RawCall, RawField, RawImport, RawInherit,
    RawLocal,
};

verus! {

/// A call site of a file.
pub open spec fn call_row(file: Seq<char>) -> spec_fn(CallModel) -> CallRowModel {
    |c: CallModel| CallRowModel { call: c, file_path: file }
}

/// A supertype clause of a file.
pub open spec fn inherit_row(file: Seq<char>) -> spec_fn(RawInherit) -> InheritRowModel {
    |i: RawInherit|
        InheritRowModel {
            impl_name: i.impl_name@,
            super_name: i.super_name@,
            kind: i.kind,
            file_path: file,
        }
}

/// A typed field of a file.
pub open spec fn field_row(file: Seq<char>) -> spec_fn(RawField) -> FieldRowModel {
    |f: RawField|
        FieldRowModel {
            class_id: f.class_id@,
            field_name: f.field_name@,
            declared_type: f.declared_type@,
            file_path: file,
        }
}

/// An import of a file.
pub open spec fn import_row(file: Seq<char>) -> spec_fn(RawImport) -> ImportRowModel {
    |i: RawImport| ImportRowModel { file_path: file, name: i.name@, module: i.module@ }
}

/// A typed local of a file.
pub open spec fn local_row(file: Seq<char>) -> spec_fn(RawLocal) -> LocalRowModel {
    |l: RawLocal|
        LocalRowModel {
            caller_id: l.caller_id@,
            var_name: l.var_name@,
            declared_type: l.declared_type@,
            file_path: file,
        }
}

/// A type mention of a file.
pub open spec fn type_ref_row(file: Seq<char>) -> spec_fn(String) -> TypeRefModel {
    |n: String| TypeRefModel { file_path: file, name: n@ }
}

/// The calls outside a file.
pub open spec fn calls_outside(file: Seq<char>) -> spec_fn(CallRowModel) -> bool {
    |c: CallRowModel| c.file_path != file
}

/// The calls in a file.
pub open spec fn calls_in(file: Seq<char>) -> spec_fn(CallRowModel) -> bool {
    |c: CallRowModel| c.file_path == file
}

/// The supertype clauses outside a file.
pub open spec fn inherits_outside(file: Seq<char>) -> spec_fn(InheritRowModel) -> bool {
    |c: InheritRowModel| c.file_path != file
}

/// The fields outside a file.
pub open spec fn fields_outside(file: Seq<char>) -> spec_fn(FieldRowModel) -> bool {
    |c: FieldRowModel| c.file_path != file
}

/// The imports outside a file.
pub open spec fn imports_outside(file: Seq<char>) -> spec_fn(ImportRowModel) -> bool {
    |c: ImportRowModel| c.file_path != file
}

/// The locals outside a file.
pub open spec fn locals_outside(file: Seq<char>) -> spec_fn(LocalRowModel) -> bool {
    |c: LocalRowModel| c.file_path != file
}

/// The type mentions outside a file.
pub open spec fn type_refs_outside(file: Seq<char>) -> spec_fn(TypeRefModel) -> bool {
    |c: TypeRefModel| c.file_path != file
}

/// The embeddings of nodes outside a file.
pub open spec fn vectors_outside(
    nodes: Seq<NodeModel>,
    file: Seq<char>,
) -> spec_fn(VectorRowModel) -> bool {
    |v: VectorRowModel|
        !rows::any(nodes, |n: NodeModel| n.file_path == file && n.id == v.node_id)
}

/// The store without what it holds of a file's contents.
pub open spec fn without_file(s: StoreModel, file: Seq<char>) -> StoreModel {
    StoreModel {
        nodes: rows::kept(s.nodes, store::node_outside(file)),
        calls: rows::kept(s.calls, calls_outside(file)),
        inherits: rows::kept(s.inherits, inherits_outside(file)),
        fields: rows::kept(s.fields, fields_outside(file)),
        imports: rows::kept(s.imports, imports_outside(file)),
        locals: rows::kept(s.locals, locals_outside(file)),
        type_refs: rows::kept(s.type_refs, type_refs_outside(file)),
        vectors: rows::kept(s.vectors, vectors_outside(s.nodes, file)),
        ..s
    }
}

/// What a supertype clause says, without its file.
pub open spec fn inherit_parts(i: RawInherit) -> (Seq<char>, Seq<char>, InheritKind) {
    (i.impl_name@, i.super_name@, i.kind)
}

/// What a field declaration says, without its file.
pub open spec fn field_parts(f: RawField) -> (Seq<char>, Seq<char>, Seq<char>) {
    (f.class_id@, f.field_name@, f.declared_type@)
}

/// What a local declaration says, without its file.
pub open spec fn local_parts(l: RawLocal) -> (Seq<char>, Seq<char>, Seq<char>) {
    (l.caller_id@, l.var_name@, l.declared_type@)
}

/// What an import says.
pub open spec fn import_parts(i: RawImport) -> (Seq<char>, Seq<char>, Seq<char>) {
    (i.file_path@, i.name@, i.module@)
}

impl Store {
    /// Replaces the call sites of a file.
    pub fn save_calls(&mut self, file_path: &str, calls: &Vec<RawCall>)
        ensures
            final(self)@ == (StoreModel {
                calls: rows::kept(old(self)@.calls, calls_outside(file_path@))
                    + types::call_views(calls@).map_values(call_row(file_path@)),
                ..old(self)@
            }),
    {
        let test = |c: &CallRow| -> (t: bool)
            ensures
                t == (c@.file_path != file_path@),
        { !text::same(c.file_path.as_str(), file_path) };
        rows::retain(&mut self.calls, Ghost(calls_outside(file_path@)), test);
        let ghost f = |c: RawCall| call_row(file_path@)(c@);
        let make = |c: &RawCall| -> (r: CallRow)
            ensures
                r@ == call_row(file_path@)(c@),
        { CallRow { call: c.clone(), file_path: file_path.to_owned() } };
        rows::append(&mut self.calls, calls, Ghost(f), make);
        assert(calls@.map_values(f) =~= types::call_views(calls@).map_values(
            call_row(file_path@),
        ));
    }

    /// Replaces the supertype clauses of a file.
    pub fn save_inherits(&mut self, file_path: &str, items: &Vec<RawInherit>)
        ensures
            final(self)@ == (StoreModel {
                inherits: rows::kept(old(self)@.inherits, inherits_outside(file_path@))
                    + items@.map_values(inherit_row(file_path@)),
                ..old(self)@
            }),
    {
        let test = |c: &InheritRow| -> (t: bool)
            ensures
                t == (c@.file_path != file_path@),
        { !text::same(c.file_path.as_str(), file_path) };
        rows::retain(&mut self.inherits, Ghost(inherits_outside(file_path@)), test);
        let make = |i: &RawInherit| -> (r: InheritRow)
            ensures
                r@ == inherit_row(file_path@)(*i),
        {
            InheritRow {
                impl_name: i.impl_name.clone(),
                super_name: i.super_name.clone(),
                kind: i.kind,
                file_path: file_path.to_owned(),
            }
        };
        rows::append(&mut self.inherits, items, Ghost(inherit_row(file_path@)), make);
    }

    /// Replaces the typed fields of a file.
    pub fn save_fields(&mut self, file_path: &str, items: &Vec<RawField>)
        ensures
            final(self)@ == (StoreModel {
                fields: rows::kept(old(self)@.fields, fields_outside(file_path@))
                    + items@.map_values(field_row(file_path@)),
                ..old(self)@
            }),
    {
        let test = |c: &FieldRow| -> (t: bool)
            ensures
                t == (c@.file_path != file_path@),
        { !text::same(c.file_path.as_str(), file_path) };
        rows::retain(&mut self.fields, Ghost(fields_outside(file_path@)), test);
        let make = |f: &RawField| -> (r: FieldRow)
            ensures
                r@ == field_row(file_path@)(*f),
        {
            FieldRow {
                class_id: f.class_id.clone(),
                field_name: f.field_name.clone(),
                declared_type: f.declared_type.clone(),
                file_path: file_path.to_owned(),
            }
        };
        rows::append(&mut self.fields, items, Ghost(field_row(file_path@)), make);
    }

    /// Replaces the imports of a file.
    pub fn save_imports(&mut self, file_path: &str, items: &Vec<RawImport>)
        ensures
            final(self)@ == (StoreModel {
                imports: rows::kept(old(self)@.imports, imports_outside(file_path@))
                    + items@.map_values(import_row(file_path@)),
                ..old(self)@
            }),
    {
        let test = |c: &ImportRow| -> (t: bool)
            ensures
                t == (c@.file_path != file_path@),
        { !text::same(c.file_path.as_str(), file_path) };
        rows::retain(&mut self.imports, Ghost(imports_outside(file_path@)), test);
        let make = |i: &RawImport| -> (r: ImportRow)
            ensures
                r@ == import_row(file_path@)(*i),
        {
            ImportRow {
                file_path: file_path.to_owned(),
                name: i.name.clone(),
                module: i.module.clone(),
            }
        };
        rows::append(&mut self.imports, items, Ghost(import_row(file_path@)), make);
    }

    /// Replaces the typed locals of a file.
    pub fn save_locals(&mut self, file_path: &str, items: &Vec<RawLocal>)
        ensures
            final(self)@ == (StoreModel {
                locals: rows::kept(old(self)@.locals, locals_outside(file_path@))
                    + items@.map_values(local_row(file_path@)),
                ..old(self)@
            }),
    {
        let test = |c: &LocalRow| -> (t: bool)
            ensures
                t == (c@.file_path != file_path@),
        { !text::same(c.file_path.as_str(), file_path) };
        rows::retain(&mut self.locals, Ghost(locals_outside(file_path@)), test);
        let make = |l: &RawLocal| -> (r: LocalRow)
            ensures
                r@ == local_row(file_path@)(*l),
        {
            LocalRow {
                caller_id: l.caller_id.clone(),
                var_name: l.var_name.clone(),
                declared_type: l.declared_type.clone(),
                file_path: file_path.to_owned(),
            }
        };
        rows::append(&mut self.locals, items, Ghost(local_row(file_path@)), make);
    }

    /// Replaces the type mentions of a file.
    pub fn save_type_refs(&mut self, file_path: &str, names: &Vec<String>)
        ensures
            final(self)@ == (StoreModel {
                type_refs: rows::kept(old(self)@.type_refs, type_refs_outside(file_path@))
                    + names@.map_values(type_ref_row(file_path@)),
                ..old(self)@
            }),
    {
        let test = |c: &TypeRef| -> (t: bool)
            ensures
                t == (c@.file_path != file_path@),
        { !text::same(c.file_path.as_str(), file_path) };
        rows::retain(&mut self.type_refs, Ghost(type_refs_outside(file_path@)), test);
        let make = |n: &String| -> (r: TypeRef)
            ensures
                r@ == type_ref_row(file_path@)(*n),
        { TypeRef { file_path: file_path.to_owned(), name: n.clone() } };
        rows::append(&mut self.type_refs, names, Ghost(type_ref_row(file_path@)), make);
    }

    /// Takes out what the store holds of a file's contents; see
    /// [`without_file`].
    pub fn delete_file_data(&mut self, file_path: &str)
        requires
            old(self)@.wf(),
        ensures
            final(self)@ == without_file(old(self)@, file_path@),
            final(self)@.wf(),
    {
        let ghost nodes = self@.nodes;
        let ghost own = |n: NodeModel|
            if n.file_path == file_path@ {
                Some(n.id)
            } else {
                None
            };
        let get = |n: &Node| -> (r: Option<String>)
            ensures
                types::opt_text(r) == (if n@.file_path == file_path@ {
                    Some(n@.id)
                } else {
                    None
                }),
        {
            if text::same(n.file_path.as_str(), file_path) {
                Some(n.id.clone())
            } else {
                None
            }
        };
        let ids = rows::text_set(&self.nodes, Ghost(own), get);
        proof {
            rows::lemma_unique_kept::<Node>(self@.nodes, store::node_outside(file_path@));
            rows::lemma_unique_kept::<VectorRow>(
                self@.vectors,
                vectors_outside(nodes, file_path@),
            );
            assert forall|x: Seq<char>| #[trigger]
                ids@.contains(x) == rows::any(
                nodes,
                |n: NodeModel| n.file_path == file_path@ && n.id == x,
            ) by {
                rows::lemma_first_at(nodes, rows::gives(own, x));
                rows::lemma_first_at(nodes, |n: NodeModel| n.file_path == file_path@ && n.id == x);
            }
        }
        let test = |v: &VectorRow| -> (t: bool)
            ensures
                t == !ids@.contains(v@.node_id),
        { !ids.contains(v.node_id.as_str()) };
        rows::retain(&mut self.vectors, Ghost(vectors_outside(nodes, file_path@)), test);
        let test = |n: &Node| -> (t: bool)
            ensures
                t == (n@.file_path != file_path@),
        { !text::same(n.file_path.as_str(), file_path) };
        rows::retain(&mut self.nodes, Ghost(store::node_outside(file_path@)), test);
        let test = |c: &CallRow| -> (t: bool)
            ensures
                t == (c@.file_path != file_path@),
        { !text::same(c.file_path.as_str(), file_path) };
        rows::retain(&mut self.calls, Ghost(calls_outside(file_path@)), test);
        let test = |c: &InheritRow| -> (t: bool)
            ensures
                t == (c@.file_path != file_path@),
        { !text::same(c.file_path.as_str(), file_path) };
        rows::retain(&mut self.inherits, Ghost(inherits_outside(file_path@)), test);
        let test = |c: &FieldRow| -> (t: bool)
            ensures
                t == (c@.file_path != file_path@),
        { !text::same(c.file_path.as_str(), file_path) };
        rows::retain(&mut self.fields, Ghost(fields_outside(file_path@)), test);
        let test = |c: &ImportRow| -> (t: bool)
            ensures
                t == (c@.file_path != file_path@),
        { !text::same(c.file_path.as_str(), file_path) };
        rows::retain(&mut self.imports, Ghost(imports_outside(file_path@)), test);
        let test = |c: &LocalRow| -> (t: bool)
            ensures
                t == (c@.file_path != file_path@),
        { !text::same(c.file_path.as_str(), file_path) };
        rows::retain(&mut self.locals, Ghost(locals_outside(file_path@)), test);
        let test = |c: &TypeRef| -> (t: bool)
            ensures
                t == (c@.file_path != file_path@),
        { !text::same(c.file_path.as_str(), file_path) };
        rows::retain(&mut self.type_refs, Ghost(type_refs_outside(file_path@)), test);
    }

    /// All call sites.
    pub fn all_calls(&self) -> (r: Vec<RawCall>)
        ensures
            types::call_views(r@) == self@.calls.map_values(|c: CallRowModel| c.call),
    {
        let ghost f = |c: CallRow| c@.call;
        let make = |c: &CallRow| -> (r: RawCall)
            ensures
                r@ == c@.call,
        { c.call.clone() };
        let mut out: Vec<RawCall> = Vec::new();
        rows::append(&mut out, &self.calls, Ghost(f), make);
        assert(types::call_views(out@) =~= self@.calls.map_values(|c: CallRowModel| c.call));
        out
    }

    /// The call sites of a file.
    pub fn calls_for_file(&self, file: &str) -> (r: Vec<RawCall>)
        ensures
            types::call_views(r@) == rows::kept(self@.calls, calls_in(file@)).map_values(
                |c: CallRowModel| c.call,
            ),
    {
        let test = |c: &CallRow| -> (t: bool)
            ensures
                t == (c@.file_path == file@),
        { text::same(c.file_path.as_str(), file) };
        let found = rows::select(&self.calls, Ghost(calls_in(file@)), test);
        let ghost f = |c: CallRow| c@.call;
        let make = |c: &CallRow| -> (r: RawCall)
            ensures
                r@ == c@.call,
        { c.call.clone() };
        let mut out: Vec<RawCall> = Vec::new();
        rows::append(&mut out, &found, Ghost(f), make);
        assert(types::call_views(out@) =~= rows::seen(found@).map_values(|c: CallRowModel| c.call));
        out
    }
}

/// The observable shape of a file: everything of it that the resolution of
/// names in other files can see. The functions and methods that it defines are
/// held by id; everything else is a sorted list of items.
pub struct FileShape {
    pub fn_defs: Vec<(String, String)>,
    pub other: Vec<String>,
}

/// The model of a [`FileShape`].
pub struct ShapeModel {
    pub fn_defs: Map<Seq<char>, Seq<char>>,
    pub other: Seq<Seq<char>>,
}

/// The names by id that pairs give; of two pairs with one id the later counts.
pub open spec fn defs_map(p: Seq<(Seq<char>, Seq<char>)>) -> Map<Seq<char>, Seq<char>>
    decreases p.len(),
{
    if p.len() == 0 {
        Map::empty()
    } else {
        defs_map(p.drop_last()).insert(p.last().0, p.last().1)
    }
}

/// What pairs of texts hold.
pub open spec fn pair_views(v: Seq<(String, String)>) -> Seq<(Seq<char>, Seq<char>)> {
    v.map_values(|p: (String, String)| (p.0@, p.1@))
}

impl View for FileShape {
    type V = ShapeModel;

    open spec fn view(&self) -> ShapeModel {
        ShapeModel { fn_defs: defs_map(pair_views(self.fn_defs@)), other: text::views(self.other@) }
    }
}

/// Whether a node is a function or a method.
pub open spec fn is_callable(n: NodeModel) -> bool {
    n.label == NodeLabel::Function || n.label == NodeLabel::Method
}

/// The functions and methods among nodes, by id.
pub open spec fn callable_defs(nodes: Seq<NodeModel>) -> Seq<(Seq<char>, Seq<char>)> {
    rows::kept(nodes, |n: NodeModel| is_callable(n)).map_values(|n: NodeModel| (n.id, n.name))
}

/// Whether a node stands for something other than a file, a function or a
/// method.
pub open spec fn is_other(n: NodeModel) -> bool {
    n.label != NodeLabel::File && !is_callable(n)
}

/// The item of four parts.
pub open spec fn shape_item(
    tag: Seq<char>,
    a: Seq<char>,
    b: Seq<char>,
    c: Seq<char>,
) -> Seq<char> {
    tag + "\u{1}"@ + a + "\u{1}"@ + b + "\u{1}"@ + c
}

/// The item of a node.
pub open spec fn node_item() -> spec_fn(NodeModel) -> Seq<char> {
    |n: NodeModel| shape_item("n"@, n.id, n.name, n.label.text())
}

/// The item of a supertype clause.
pub open spec fn inherit_item() -> spec_fn((Seq<char>, Seq<char>, InheritKind)) -> Seq<char> {
    |i: (Seq<char>, Seq<char>, InheritKind)| shape_item("i"@, i.0, i.1, i.2.text())
}

/// The item of a field.
pub open spec fn field_item() -> spec_fn((Seq<char>, Seq<char>, Seq<char>)) -> Seq<char> {
    |f: (Seq<char>, Seq<char>, Seq<char>)| shape_item("f"@, f.0, f.1, f.2)
}

/// The shape of a file with the given nodes, supertype clauses and fields.
pub open spec fn shape_of(
    nodes: Seq<NodeModel>,
    inherits: Seq<(Seq<char>, Seq<char>, InheritKind)>,
    fields: Seq<(Seq<char>, Seq<char>, Seq<char>)>,
) -> ShapeModel {
    ShapeModel {
        fn_defs: defs_map(callable_defs(nodes)),
        other: order::arranged(
            rows::kept(nodes, |n: NodeModel| is_other(n)).map_values(node_item())
                + inherits.map_values(inherit_item()) + fields.map_values(field_item()),
            order::text_order(),
        ),
    }
}

/// See [`shape_item`].
fn make_item(tag: &str, a: &str, b: &str, c: &str) -> (r: String)
    ensures
        r@ == shape_item(tag@, a@, b@, c@),
{
    tag.to_owned().concat("\u{1}").concat(a).concat("\u{1}").concat(b).concat("\u{1}").concat(c)
}

/// See [`shape_of`].
pub fn make_shape(
    nodes: &Vec<Node>,
    inherits: &Vec<RawInherit>,
    fields: &Vec<RawField>,
) -> (r: FileShape)
    ensures
        r@ == shape_of(
            types::node_views(nodes@),
            inherits@.map_values(|i: RawInherit| inherit_parts(i)),
            fields@.map_values(|f: RawField| field_parts(f)),
        ),
{
    let ghost all = types::node_views(nodes@);
    let ghost callable = |n: NodeModel| is_callable(n);
    let ghost rest = |n: NodeModel| is_other(n);
    let mut fn_defs: Vec<(String, String)> = Vec::new();
    let mut other: Vec<String> = Vec::new();
    let mut i: usize = 0;
    while i < nodes.len()
        invariant
            i <= nodes.len(),
            all == types::node_views(nodes@),
            callable == |n: NodeModel| is_callable(n),
            rest == |n: NodeModel| is_other(n),
            pair_views(fn_defs@) == rows::kept(all.take(i as int), callable).map_values(
                |n: NodeModel| (n.id, n.name),
            ),
            text::views(other@) == rows::kept(all.take(i as int), rest).map_values(node_item()),
        decreases nodes.len() - i,
    {
        let n = &nodes[i];
        let ghost defs = fn_defs@;
        let ghost items = other@;
        let ghost kept_defs = rows::kept(all.take(i as int), callable);
        let ghost kept_rest = rows::kept(all.take(i as int), rest);
        proof {
            rows::lemma_kept_next(all, i as int, callable);
            rows::lemma_kept_next(all, i as int, rest);
            assert(all[i as int] == n@);
        }
        if n.label == NodeLabel::Function || n.label == NodeLabel::Method {
            fn_defs.push((n.id.clone(), n.name.clone()));
            assert(pair_views(fn_defs@) =~= pair_views(defs).push((n@.id, n@.name)));
            assert(kept_defs.push(n@).map_values(|n: NodeModel| (n.id, n.name))
                =~= kept_defs.map_values(|n: NodeModel| (n.id, n.name)).push((n@.id, n@.name)));
        } else if n.label != NodeLabel::File {
            other.push(make_item("n", n.id.as_str(), n.name.as_str(), n.label.as_str()));
            assert(text::views(other@) =~= text::views(items).push(node_item()(n@)));
            assert(kept_rest.push(n@).map_values(node_item()) =~= kept_rest.map_values(
                node_item(),
            ).push(node_item()(n@)));
        }
        i += 1;
    }
    assert(all.take(nodes@.len() as int) =~= all);
    let ghost from_nodes = text::views(other@);
    let ghost parts = inherits@.map_values(|i: RawInherit| inherit_parts(i));
    let mut j: usize = 0;
    while j < inherits.len()
        invariant
            j <= inherits.len(),
            parts == inherits@.map_values(|i: RawInherit| inherit_parts(i)),
            text::views(other@) == from_nodes + parts.take(j as int).map_values(inherit_item()),
        decreases inherits.len() - j,
    {
        let h = &inherits[j];
        let ghost items = other@;
        other.push(make_item("i", h.impl_name.as_str(), h.super_name.as_str(), h.kind.as_str()));
        assert(text::views(other@) =~= text::views(items).push(inherit_item()(parts[j as int])));
        assert(parts.take(j + 1).map_values(inherit_item()) =~= parts.take(j as int).map_values(
            inherit_item(),
        ).push(inherit_item()(parts[j as int])));
        j += 1;
    }
    assert(parts.take(inherits@.len() as int) =~= parts);
    let ghost so_far = text::views(other@);
    let ghost decls = fields@.map_values(|f: RawField| field_parts(f));
    let mut k: usize = 0;
    while k < fields.len()
        invariant
            k <= fields.len(),
            decls == fields@.map_values(|f: RawField| field_parts(f)),
            text::views(other@) == so_far + decls.take(k as int).map_values(field_item()),
        decreases fields.len() - k,
    {
        let f = &fields[k];
        let ghost items = other@;
        other.push(
            make_item("f", f.class_id.as_str(), f.field_name.as_str(), f.declared_type.as_str()),
        );
        assert(text::views(other@) =~= text::views(items).push(field_item()(decls[k as int])));
        assert(decls.take(k + 1).map_values(field_item()) =~= decls.take(k as int).map_values(
            field_item(),
        ).push(field_item()(decls[k as int])));
        k += 1;
    }
    assert(decls.take(fields@.len() as int) =~= decls);
    FileShape { fn_defs, other: order::arrange_texts(other) }
}

/// What a supertype row says, without its file.
pub open spec fn inherit_row_parts() -> spec_fn(InheritRowModel) -> (
    Seq<char>,
    Seq<char>,
    InheritKind,
) {
    |i: InheritRowModel| (i.impl_name, i.super_name, i.kind)
}

/// What a field row says, without its file.
pub open spec fn field_row_parts() -> spec_fn(FieldRowModel) -> (Seq<char>, Seq<char>, Seq<char>) {
    |f: FieldRowModel| (f.class_id, f.field_name, f.declared_type)
}

/// What a local row says, without its file.
pub open spec fn local_row_parts() -> spec_fn(LocalRowModel) -> (Seq<char>, Seq<char>, Seq<char>) {
    |l: LocalRowModel| (l.caller_id, l.var_name, l.declared_type)
}

/// What an import row says.
pub open spec fn import_row_parts() -> spec_fn(ImportRowModel) -> (
    Seq<char>,
    Seq<char>,
    Seq<char>,
) {
    |i: ImportRowModel| (i.file_path, i.name, i.module)
}

/// The shape that the store knows of a file.
pub open spec fn stored_shape(s: StoreModel, file: Seq<char>) -> ShapeModel {
    shape_of(
        rows::kept(s.nodes, store::node_in(file)),
        rows::kept(s.inherits, |i: InheritRowModel| i.file_path == file).map_values(
            inherit_row_parts(),
        ),
        rows::kept(s.fields, |f: FieldRowModel| f.file_path == file).map_values(
            field_row_parts(),
        ),
    )
}

/// The supertype clauses of rows.
fn inherits_of(found: &Vec<InheritRow>) -> (r: Vec<RawInherit>)
    ensures
        r@.map_values(|i: RawInherit| inherit_parts(i)) == rows::seen(found@).map_values(
            inherit_row_parts(),
        ),
{
    let mut out: Vec<RawInherit> = Vec::new();
    let ghost all = rows::seen(found@).map_values(inherit_row_parts());
    let mut i: usize = 0;
    while i < found.len()
        invariant
            i <= found.len(),
            all == rows::seen(found@).map_values(inherit_row_parts()),
            out@.map_values(|i: RawInherit| inherit_parts(i)) == all.take(i as int),
        decreases found.len() - i,
    {
        let f = &found[i];
        let ghost was = out@;
        out.push(
            RawInherit {
                impl_name: f.impl_name.clone(),
                super_name: f.super_name.clone(),
                kind: f.kind,
            },
        );
        assert(out@.map_values(|i: RawInherit| inherit_parts(i)) =~= was.map_values(
            |i: RawInherit| inherit_parts(i),
        ).push(all[i as int]));
        i += 1;
    }
    assert(all.take(found@.len() as int) =~= all);
    out
}

/// The fields of rows.
fn fields_of(found: &Vec<FieldRow>) -> (r: Vec<RawField>)
    ensures
        r@.map_values(|f: RawField| field_parts(f)) == rows::seen(found@).map_values(
            field_row_parts(),
        ),
{
    let mut out: Vec<RawField> = Vec::new();
    let ghost all = rows::seen(found@).map_values(field_row_parts());
    let mut i: usize = 0;
    while i < found.len()
        invariant
            i <= found.len(),
            all == rows::seen(found@).map_values(field_row_parts()),
            out@.map_values(|f: RawField| field_parts(f)) == all.take(i as int),
        decreases found.len() - i,
    {
        let f = &found[i];
        let ghost was = out@;
        out.push(
            RawField {
                class_id: f.class_id.clone(),
                field_name: f.field_name.clone(),
                declared_type: f.declared_type.clone(),
            },
        );
        assert(out@.map_values(|f: RawField| field_parts(f)) =~= was.map_values(
            |f: RawField| field_parts(f),
        ).push(all[i as int]));
        i += 1;
    }
    assert(all.take(found@.len() as int) =~= all);
    out
}

impl Store {
    /// All supertype clauses.
    pub fn all_inherits(&self) -> (r: Vec<RawInherit>)
        ensures
            r@.map_values(|i: RawInherit| inherit_parts(i)) == self@.inherits.map_values(
                inherit_row_parts(),
            ),
    {
        inherits_of(&self.inherits)
    }

    /// All typed fields.
    pub fn all_fields(&self) -> (r: Vec<RawField>)
        ensures
            r@.map_values(|f: RawField| field_parts(f)) == self@.fields.map_values(
                field_row_parts(),
            ),
    {
        fields_of(&self.fields)
    }

    /// All typed locals.
    pub fn all_locals(&self) -> (r: Vec<RawLocal>)
        ensures
            r@.map_values(|l: RawLocal| local_parts(l)) == self@.locals.map_values(
                local_row_parts(),
            ),
    {
        let mut out: Vec<RawLocal> = Vec::new();
        let ghost all = self@.locals.map_values(local_row_parts());
        let mut i: usize = 0;
        while i < self.locals.len()
            invariant
                i <= self.locals.len(),
                all == self@.locals.map_values(local_row_parts()),
                out@.map_values(|l: RawLocal| local_parts(l)) == all.take(i as int),
            decreases self.locals.len() - i,
        {
            let l = &self.locals[i];
            let ghost was = out@;
            out.push(
                RawLocal {
                    caller_id: l.caller_id.clone(),
                    var_name: l.var_name.clone(),
                    declared_type: l.declared_type.clone(),
                },
            );
            assert(out@.map_values(|l: RawLocal| local_parts(l)) =~= was.map_values(
                |l: RawLocal| local_parts(l),
            ).push(all[i as int]));
            i += 1;
        }
        assert(all.take(self.locals@.len() as int) =~= all);
        out
    }

    /// All imports.
    pub fn all_imports(&self) -> (r: Vec<RawImport>)
        ensures
            r@.map_values(|i: RawImport| import_parts(i)) == self@.imports.map_values(
                import_row_parts(),
            ),
    {
        let mut out: Vec<RawImport> = Vec::new();
        let ghost all = self@.imports.map_values(import_row_parts());
        let mut i: usize = 0;
        while i < self.imports.len()
            invariant
                i <= self.imports.len(),
                all == self@.imports.map_values(import_row_parts()),
                out@.map_values(|i: RawImport| import_parts(i)) == all.take(i as int),
            decreases self.imports.len() - i,
        {
            let m = &self.imports[i];
            let ghost was = out@;
            out.push(
                RawImport {
                    file_path: m.file_path.clone(),
                    name: m.name.clone(),
                    module: m.module.clone(),
                },
            );
            assert(out@.map_values(|i: RawImport| import_parts(i)) =~= was.map_values(
                |i: RawImport| import_parts(i),
            ).push(all[i as int]));
            i += 1;
        }
        assert(all.take(self.imports@.len() as int) =~= all);
        out
    }

    /// The shape that the store knows of a file; see [`stored_shape`].
    pub fn file_shape(&self, file: &str) -> (r: FileShape)
        ensures
            r@ == stored_shape(self@, file@),
    {
        let test = |n: &Node| -> (t: bool)
            ensures
                t == (n@.file_path == file@),
        { text::same(n.file_path.as_str(), file) };
        let nodes = rows::select(&self.nodes, Ghost(store::node_in(file@)), test);
        let ghost of_inherit = |i: InheritRowModel| i.file_path == file@;
        let test = |i: &InheritRow| -> (t: bool)
            ensures
                t == (i@.file_path == file@),
        { text::same(i.file_path.as_str(), file) };
        let inherits = inherits_of(&rows::select(&self.inherits, Ghost(of_inherit), test));
        let ghost of_field = |f: FieldRowModel| f.file_path == file@;
        let test = |f: &FieldRow| -> (t: bool)
            ensures
                t == (f@.file_path == file@),
        { text::same(f.file_path.as_str(), file) };
        let fields = fields_of(&rows::select(&self.fields, Ghost(of_field), test));
        make_shape(&nodes, &inherits, &fields)
    }
}

} // verus!
