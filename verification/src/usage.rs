//! Who uses what: definitions with their callers, the files that use a type,
//! and where fields and variables are declared.

use vstd::prelude::*;
use vstd::string::*;

use crate::like;
use crate::order;
use crate::rows;
use crate::rows::Row;
use crate::store::{Store, StoreModel};
use crate::store_files;
use crate::store_lists;
use crate::store_queries;
use crate::tables::{
    CallRow, CallRowModel, FieldRow, FieldRowModel, ImportRow, ImportRowModel, InheritRow,
    InheritRowModel, LocalRow, LocalRowModel, TypeRef, TypeRefModel,
};
use crate::text;
use crate::types;
use crate::types::{EdgeModel, Node, NodeLabel, NodeModel, Receiver};

verus! {

/// The functions and methods with a name.
pub open spec fn callable_named(name: Seq<char>) -> spec_fn(NodeModel) -> bool {
    |n: NodeModel| n.name == name && store_files::is_callable(n)
}

/// A definition with the number of its callers.
pub open spec fn with_callers(edges: Seq<EdgeModel>) -> spec_fn(NodeModel) -> (NodeModel, nat) {
    |n: NodeModel| (n, store_queries::caller_count(edges, n.id))
}

/// Whether a definition comes before another: the one with more callers first,
/// then by file.
pub open spec fn definition_less(a: (NodeModel, nat), b: (NodeModel, nat)) -> bool {
    if a.1 != b.1 {
        a.1 > b.1
    } else {
        text::text_less(a.0.file_path, b.0.file_path)
    }
}

/// See [`definition_less`].
pub open spec fn definition_order() -> spec_fn((NodeModel, nat), (NodeModel, nat)) -> bool {
    |a: (NodeModel, nat), b: (NodeModel, nat)| definition_less(a, b)
}

/// What definitions with the numbers of their callers hold.
pub open spec fn definition_views(v: Seq<(Node, usize)>) -> Seq<(NodeModel, nat)> {
    v.map_values(|p: (Node, usize)| (p.0@, p.1 as nat))
}

/// The files with a piece of evidence.
pub open spec fn evidence(files: Seq<Seq<char>>, what: Seq<char>) -> Seq<(Seq<char>, Seq<char>)> {
    files.map_values(|f: Seq<char>| (f, what))
}

/// Whether a pair of texts comes before another.
pub open spec fn pair_less(a: (Seq<char>, Seq<char>), b: (Seq<char>, Seq<char>)) -> bool {
    if a.0 != b.0 {
        text::text_less(a.0, b.0)
    } else {
        text::text_less(a.1, b.1)
    }
}

/// See [`pair_less`].
pub open spec fn pair_order() -> spec_fn((Seq<char>, Seq<char>), (Seq<char>, Seq<char>)) -> bool {
    |a: (Seq<char>, Seq<char>), b: (Seq<char>, Seq<char>)| pair_less(a, b)
}

/// The pairs without those that begin as the one before them does.
pub open spec fn first_per_file(s: Seq<(Seq<char>, Seq<char>)>) -> Seq<(Seq<char>, Seq<char>)>
    decreases s.len(),
{
    if s.len() == 0 {
        s
    } else {
        let rest = first_per_file(s.drop_last());
        if rest.len() > 0 && rest.last().0 == s.last().0 {
            rest
        } else {
            rest.push(s.last())
        }
    }
}

/// The nodes that define a type or a function with a name.
pub open spec fn defines_type(name: Seq<char>) -> spec_fn(NodeModel) -> bool {
    |n: NodeModel| n.name == name && store_queries::is_type_like(n)
}

/// The imports of a name from inside the repository.
pub open spec fn imports_inside(name: Seq<char>) -> spec_fn(ImportRowModel) -> bool {
    |i: ImportRowModel|
        i.name == name && !(!store_queries::is_local_module(i.module, seq!['.', '/'])
            && store_queries::is_script(i.file_path))
}

/// The call sites that go through a name or through a member of it.
pub open spec fn goes_through(name: Seq<char>) -> spec_fn(CallRowModel) -> bool {
    |c: CallRowModel|
        match c.call.receiver {
            Some(r) => r == name || like::like(r, name + ".%"@),
            None => false,
        }
}

/// The files of nodes.
pub open spec fn node_file() -> spec_fn(NodeModel) -> Seq<char> {
    |n: NodeModel| n.file_path
}

/// All the evidence for the uses of a type; `documents` are the documents that
/// mention it.
pub open spec fn all_evidence(s: StoreModel, name: Seq<char>, documents: Seq<Seq<char>>) -> Seq<
    (Seq<char>, Seq<char>),
> {
    evidence(
        rows::distinct(rows::kept(s.nodes, defines_type(name)).map_values(node_file())),
        "definition"@,
    ) + evidence(
        rows::distinct(
            rows::kept(s.fields, |f: FieldRowModel| f.declared_type == name).map_values(
                |f: FieldRowModel| f.file_path,
            ),
        ),
        "field/DI type"@,
    ) + evidence(
        rows::distinct(
            rows::kept(s.locals, |l: LocalRowModel| l.declared_type == name).map_values(
                |l: LocalRowModel| l.file_path,
            ),
        ),
        "typed local"@,
    ) + evidence(
        rows::distinct(
            rows::kept(s.imports, imports_inside(name)).map_values(|i: ImportRowModel| i.file_path),
        ),
        "import"@,
    ) + evidence(
        rows::distinct(
            rows::kept(s.inherits, |i: InheritRowModel| i.super_name == name).map_values(
                |i: InheritRowModel| i.file_path,
            ),
        ),
        "subtype"@,
    ) + evidence(
        rows::distinct(
            rows::kept(s.calls, goes_through(name)).map_values(store_lists::call_file()),
        ),
        "static member access"@,
    ) + evidence(
        rows::distinct(
            rows::kept(s.type_refs, |t: TypeRefModel| t.name == name).map_values(
                |t: TypeRefModel| t.file_path,
            ),
        ),
        "type reference"@,
    ) + evidence(documents, "doc mention"@)
}

/// The files that use a type, each with its first piece of evidence.
pub open spec fn uses(s: StoreModel, name: Seq<char>, documents: Seq<Seq<char>>) -> Seq<
    (Seq<char>, Seq<char>),
> {
    first_per_file(order::arranged(all_evidence(s, name, documents), pair_order()))
}

/// Puts the files with a piece of evidence at the end.
fn add_evidence(out: &mut Vec<(String, String)>, files: &Vec<String>, what: &str)
    ensures
        store_files::pair_views(final(out)@) == store_files::pair_views(old(out)@) + evidence(
            text::views(files@),
            what@,
        ),
{
    let ghost was = store_files::pair_views(out@);
    let ghost all = evidence(text::views(files@), what@);
    let mut i: usize = 0;
    while i < files.len()
        invariant
            i <= files.len(),
            all == evidence(text::views(files@), what@),
            store_files::pair_views(out@) == was + all.take(i as int),
        decreases files.len() - i,
    {
        let ghost now = out@;
        out.push((files[i].clone(), what.to_owned()));
        assert(store_files::pair_views(out@) =~= store_files::pair_views(now).push(all[i as int]));
        assert(was + all.take(i + 1) =~= (was + all.take(i as int)).push(all[i as int]));
        i += 1;
    }
    assert(all.take(files@.len() as int) =~= all);
}

/// The pairs in their order, one for each file.
fn first_evidence(v: Vec<(String, String)>) -> (r: Vec<(String, String)>)
    ensures
        store_files::pair_views(r@) == first_per_file(
            order::arranged(store_files::pair_views(v@), pair_order()),
        ),
{
    let ghost all = v@;
    let ghost f = |p: (String, String)| (p.0@, p.1@);
    let ghost before = |a: (String, String), b: (String, String)|
        pair_less((a.0@, a.1@), (b.0@, b.1@));
    let less = |a: &(String, String), b: &(String, String)| -> (t: bool)
        ensures
            t == pair_less((a.0@, a.1@), (b.0@, b.1@)),
    {
        if !text::same(a.0.as_str(), b.0.as_str()) {
            text::less(a.0.as_str(), b.0.as_str())
        } else {
            text::less(a.1.as_str(), b.1.as_str())
        }
    };
    let sorted = order::arrange(v, Ghost(before), less);
    proof {
        order::lemma_arranged_map(all, before, f, pair_order());
        assert(store_files::pair_views(sorted@) =~= sorted@.map_values(f));
        assert(store_files::pair_views(all) =~= all.map_values(f));
    }
    let ghost s = store_files::pair_views(sorted@);
    let mut out: Vec<(String, String)> = Vec::new();
    let mut i: usize = 0;
    assert(s.len() == sorted@.len());
    assert(store_files::pair_views(out@) =~= first_per_file(s.take(0)));
    while i < sorted.len()
        invariant
            i <= sorted.len(),
            s == store_files::pair_views(sorted@),
            s.len() == sorted@.len(),
            store_files::pair_views(out@) == first_per_file(s.take(i as int)),
        decreases sorted.len() - i,
    {
        let p = &sorted[i];
        let ghost was = store_files::pair_views(out@);
        assert(s.take(i + 1).drop_last() =~= s.take(i as int));
        assert(s.take(i + 1).last() == (p.0@, p.1@));
        assert(was.len() == out@.len());
        let repeated = out.len() > 0 && text::same(out[out.len() - 1].0.as_str(), p.0.as_str());
        if !repeated {
            out.push((p.0.clone(), p.1.clone()));
            assert(store_files::pair_views(out@) =~= was.push((p.0@, p.1@)));
        }
        i += 1;
    }
    assert(s.take(sorted@.len() as int) =~= s);
    out
}

/// A declaration: the name, its type and its file.
pub struct Declaration {
    pub name: String,
    pub declared_type: String,
    pub file_path: String,
}

/// What declarations hold.
pub open spec fn declaration_views(v: Seq<Declaration>) -> Seq<(Seq<char>, Seq<char>, Seq<char>)> {
    v.map_values(|d: Declaration| (d.name@, d.declared_type@, d.file_path@))
}

/// The declarations of a name: first fields, then typed locals, each once.
pub open spec fn declarations(s: StoreModel, name: Seq<char>) -> Seq<
    (Seq<char>, Seq<char>, Seq<char>),
> {
    rows::distinct(
        rows::kept(s.fields, |f: FieldRowModel| f.field_name == name).map_values(
            |f: FieldRowModel| (f.field_name, f.declared_type, f.file_path),
        ) + rows::kept(
            s.locals,
            |l: LocalRowModel| l.var_name == name && l.declared_type.len() > 0,
        ).map_values(|l: LocalRowModel| (l.var_name, l.declared_type, l.file_path)),
    )
}

/// Whether declarations hold one with the parts.
fn has_declaration(v: &Vec<Declaration>, name: &str, declared: &str, file: &str) -> (r: bool)
    ensures
        r == declaration_views(v@).contains((name@, declared@, file@)),
{
    let ghost s = declaration_views(v@);
    assert(s.len() == v@.len());
    let mut i: usize = 0;
    while i < v.len()
        invariant
            i <= v.len(),
            s == declaration_views(v@),
            s.len() == v@.len(),
            forall|j: int| 0 <= j < i ==> #[trigger] s[j] != (name@, declared@, file@),
        decreases v.len() - i,
    {
        assert(s[i as int] == (
            v@[i as int].name@,
            v@[i as int].declared_type@,
            v@[i as int].file_path@,
        ));
        if text::same(v[i].name.as_str(), name) && text::same(
            v[i].declared_type.as_str(),
            declared,
        ) && text::same(v[i].file_path.as_str(), file) {
            return true;
        }
        i += 1;
    }
    false
}

/// Puts a declaration at the end unless it is there.
fn add_declaration(v: &mut Vec<Declaration>, name: &str, declared: &str, file: &str)
    ensures
        declaration_views(final(v)@) == (if declaration_views(old(v)@).contains(
            (name@, declared@, file@),
        ) {
            declaration_views(old(v)@)
        } else {
            declaration_views(old(v)@).push((name@, declared@, file@))
        }),
{
    if !has_declaration(v, name, declared, file) {
        let ghost was = v@;
        v.push(
            Declaration {
                name: name.to_owned(),
                declared_type: declared.to_owned(),
                file_path: file.to_owned(),
            },
        );
        assert(declaration_views(v@) =~= declaration_views(was).push((name@, declared@, file@)));
    }
}

impl Store {
    /// The functions and methods with a name, each with the number of its
    /// callers, the most called first.
    pub fn definitions_of(&self, name: &str) -> (r: Vec<(Node, usize)>)
        ensures
            definition_views(r@) == order::arranged(
                rows::kept(self@.nodes, callable_named(name@)).map_values(
                    with_callers(self@.edges),
                ),
                definition_order(),
            ),
    {
        let test = |n: &Node| -> (t: bool)
            ensures
                t == callable_named(name@)(n@),
        {
            text::same(n.name.as_str(), name) && (n.label == NodeLabel::Function || n.label
                == NodeLabel::Method)
        };
        let found = rows::select(&self.nodes, Ghost(callable_named(name@)), test);
        let ghost all = rows::seen(found@).map_values(with_callers(self@.edges));
        let mut items: Vec<(Node, usize)> = Vec::new();
        let mut i: usize = 0;
        while i < found.len()
            invariant
                i <= found.len(),
                all == rows::seen(found@).map_values(with_callers(self@.edges)),
                definition_views(items@) == all.take(i as int),
            decreases found.len() - i,
        {
            let n: usize = self.count_callers(found[i].id.as_str());
            let ghost was = items@;
            items.push((found[i].copy(), n));
            assert(definition_views(items@) =~= definition_views(was).push(all[i as int]));
            i += 1;
        }
        assert(all.take(found@.len() as int) =~= all);
        let ghost s = items@;
        let ghost f = |p: (Node, usize)| (p.0@, p.1 as nat);
        let ghost before = |a: (Node, usize), b: (Node, usize)|
            definition_less((a.0@, a.1 as nat), (b.0@, b.1 as nat));
        let less = |a: &(Node, usize), b: &(Node, usize)| -> (t: bool)
            ensures
                t == definition_less((a.0@, a.1 as nat), (b.0@, b.1 as nat)),
        {
            if a.1 != b.1 {
                a.1 > b.1
            } else {
                text::less(a.0.file_path.as_str(), b.0.file_path.as_str())
            }
        };
        let r = order::arrange(items, Ghost(before), less);
        proof {
            order::lemma_arranged_map(s, before, f, definition_order());
            assert(definition_views(r@) =~= r@.map_values(f));
            assert(definition_views(s) =~= s.map_values(f));
        }
        r
    }

    /// The files that use a type, each with its first piece of evidence; see
    /// [`uses`].
    pub fn type_usages(&self, name: &str, documents: &Vec<String>) -> (r: Vec<(String, String)>)
        ensures
            store_files::pair_views(r@) == uses(self@, name@, text::views(documents@)),
    {
        let mut out: Vec<(String, String)> = Vec::new();
        let test = |n: &Node| -> (t: bool)
            ensures
                t == defines_type(name@)(n@),
        {
            text::same(n.name.as_str(), name) && (n.label == NodeLabel::Class || n.label
                == NodeLabel::Interface || n.label == NodeLabel::Enum || n.label == NodeLabel::Type
                || n.label == NodeLabel::Function || n.label == NodeLabel::Method)
        };
        let found = rows::select(&self.nodes, Ghost(defines_type(name@)), test);
        let get = |n: &Node| -> (r: String)
            ensures
                r@ == n@.file_path,
        { n.file_path.clone() };
        let files = rows::distinct_texts(&found, Ghost(node_file()), get);
        add_evidence(&mut out, &files, "definition");
        let ghost want = |f: FieldRowModel| f.declared_type == name@;
        let test = |f: &FieldRow| -> (t: bool)
            ensures
                t == (f@.declared_type == name@),
        { text::same(f.declared_type.as_str(), name) };
        let found = rows::select(&self.fields, Ghost(want), test);
        let ghost file = |f: FieldRowModel| f.file_path;
        let get = |f: &FieldRow| -> (r: String)
            ensures
                r@ == f@.file_path,
        { f.file_path.clone() };
        let files = rows::distinct_texts(&found, Ghost(file), get);
        add_evidence(&mut out, &files, "field/DI type");
        let ghost want = |l: LocalRowModel| l.declared_type == name@;
        let test = |l: &LocalRow| -> (t: bool)
            ensures
                t == (l@.declared_type == name@),
        { text::same(l.declared_type.as_str(), name) };
        let found = rows::select(&self.locals, Ghost(want), test);
        let ghost file = |l: LocalRowModel| l.file_path;
        let get = |l: &LocalRow| -> (r: String)
            ensures
                r@ == l@.file_path,
        { l.file_path.clone() };
        let files = rows::distinct_texts(&found, Ghost(file), get);
        add_evidence(&mut out, &files, "typed local");
        let test = |i: &ImportRow| -> (t: bool)
            ensures
                t == imports_inside(name@)(i@),
        {
            text::same(i.name.as_str(), name) && !(!store_queries::local_module(
                i.module.as_str(),
                false,
            ) && store_queries::script(i.file_path.as_str()))
        };
        let found = rows::select(&self.imports, Ghost(imports_inside(name@)), test);
        let ghost file = |i: ImportRowModel| i.file_path;
        let get = |i: &ImportRow| -> (r: String)
            ensures
                r@ == i@.file_path,
        { i.file_path.clone() };
        let files = rows::distinct_texts(&found, Ghost(file), get);
        add_evidence(&mut out, &files, "import");
        let ghost want = |i: InheritRowModel| i.super_name == name@;
        let test = |i: &InheritRow| -> (t: bool)
            ensures
                t == (i@.super_name == name@),
        { text::same(i.super_name.as_str(), name) };
        let found = rows::select(&self.inherits, Ghost(want), test);
        let ghost file = |i: InheritRowModel| i.file_path;
        let get = |i: &InheritRow| -> (r: String)
            ensures
                r@ == i@.file_path,
        { i.file_path.clone() };
        let files = rows::distinct_texts(&found, Ghost(file), get);
        add_evidence(&mut out, &files, "subtype");
        let pattern = name.to_owned().concat(".%");
        let test = |c: &CallRow| -> (t: bool)
            ensures
                t == goes_through(name@)(c@),
        {
            match &c.call.receiver {
                Receiver::Bare => false,
                Receiver::Named(r) => text::same(r.as_str(), name) || like::matches_like(
                    r.as_str(),
                    pattern.as_str(),
                ),
            }
        };
        let found = rows::select(&self.calls, Ghost(goes_through(name@)), test);
        let get = |c: &CallRow| -> (r: String)
            ensures
                r@ == c@.file_path,
        { c.file_path.clone() };
        let files = rows::distinct_texts(&found, Ghost(store_lists::call_file()), get);
        add_evidence(&mut out, &files, "static member access");
        let ghost want = |t: TypeRefModel| t.name == name@;
        let test = |t: &TypeRef| -> (r: bool)
            ensures
                r == (t@.name == name@),
        { text::same(t.name.as_str(), name) };
        let found = rows::select(&self.type_refs, Ghost(want), test);
        let ghost file = |t: TypeRefModel| t.file_path;
        let get = |t: &TypeRef| -> (r: String)
            ensures
                r@ == t@.file_path,
        { t.file_path.clone() };
        let files = rows::distinct_texts(&found, Ghost(file), get);
        add_evidence(&mut out, &files, "type reference");
        add_evidence(&mut out, documents, "doc mention");
        assert(store_files::pair_views(out@) =~= all_evidence(
            self@,
            name@,
            text::views(documents@),
        ));
        first_evidence(out)
    }

    /// The declarations of a field or variable, at most twenty-five; see
    /// [`declarations`].
    pub fn field_matches(&self, name: &str) -> (r: Vec<Declaration>)
        ensures
            declaration_views(r@) == rows::limited(declarations(self@, name@), 25),
    {
        let ghost of_field = |f: FieldRowModel| f.field_name == name@;
        let test = |f: &FieldRow| -> (t: bool)
            ensures
                t == (f@.field_name == name@),
        { text::same(f.field_name.as_str(), name) };
        let fields = rows::select(&self.fields, Ghost(of_field), test);
        let ghost of_local = |l: LocalRowModel| l.var_name == name@ && l.declared_type.len() > 0;
        let test = |l: &LocalRow| -> (t: bool)
            ensures
                t == (l@.var_name == name@ && l@.declared_type.len() > 0),
        { text::same(l.var_name.as_str(), name) && !l.declared_type.as_str().is_empty() };
        let locals = rows::select(&self.locals, Ghost(of_local), test);
        let ghost a = rows::seen(fields@).map_values(
            |f: FieldRowModel| (f.field_name, f.declared_type, f.file_path),
        );
        let ghost b = rows::seen(locals@).map_values(
            |l: LocalRowModel| (l.var_name, l.declared_type, l.file_path),
        );
        let mut out: Vec<Declaration> = Vec::new();
        let mut i: usize = 0;
        assert(declaration_views(out@) =~= rows::distinct(a.take(0)));
        while i < fields.len()
            invariant
                i <= fields.len(),
                a == rows::seen(fields@).map_values(
                    |f: FieldRowModel| (f.field_name, f.declared_type, f.file_path),
                ),
                declaration_views(out@) == rows::distinct(a.take(i as int)),
            decreases fields.len() - i,
        {
            let f = &fields[i];
            assert(a.take(i + 1).drop_last() =~= a.take(i as int));
            add_declaration(
                &mut out,
                f.field_name.as_str(),
                f.declared_type.as_str(),
                f.file_path.as_str(),
            );
            i += 1;
        }
        let mut j: usize = 0;
        assert(a + b.take(0) =~= a.take(fields@.len() as int));
        while j < locals.len()
            invariant
                j <= locals.len(),
                b == rows::seen(locals@).map_values(
                    |l: LocalRowModel| (l.var_name, l.declared_type, l.file_path),
                ),
                declaration_views(out@) == rows::distinct(a + b.take(j as int)),
            decreases locals.len() - j,
        {
            let l = &locals[j];
            assert((a + b.take(j + 1)).drop_last() =~= a + b.take(j as int));
            add_declaration(
                &mut out,
                l.var_name.as_str(),
                l.declared_type.as_str(),
                l.file_path.as_str(),
            );
            j += 1;
        }
        assert(b.take(locals@.len() as int) =~= b);
        let ghost all = out@;
        out.truncate(25);
        assert(declaration_views(out@) =~= rows::limited(declaration_views(all), 25));
        out
    }

    /// How many call sites name something in each file.
    pub fn call_sites_by_file(&self, name: &str) -> (r: Vec<(String, usize)>)
        ensures
            r@.map_values(|p: (String, usize)| (p.0@, p.1 as nat)) == rows::distinct(
                rows::kept(self@.calls, store_queries::calls_naming(name@)).map_values(
                    store_lists::call_file(),
                ),
            ).map_values(|f: Seq<char>| (f, sites_in(self@, name@, f))),
    {
        let files = self.files_with_calls_naming(name);
        let ghost names = text::views(files@);
        let ghost all = names.map_values(|f: Seq<char>| (f, sites_in(self@, name@, f)));
        let mut out: Vec<(String, usize)> = Vec::new();
        let mut i: usize = 0;
        while i < files.len()
            invariant
                i <= files.len(),
                names == text::views(files@),
                all == names.map_values(|f: Seq<char>| (f, sites_in(self@, name@, f))),
                out@.map_values(|p: (String, usize)| (p.0@, p.1 as nat)) == all.take(i as int),
            decreases files.len() - i,
        {
            let file = &files[i];
            let ghost want = |c: CallRowModel| c.call.callee_name == name@ && c.file_path == file@;
            let test = |c: &CallRow| -> (t: bool)
                ensures
                    t == (c@.call.callee_name == name@ && c@.file_path == file@),
            {
                text::same(c.call.callee_name.as_str(), name) && text::same(
                    c.file_path.as_str(),
                    file.as_str(),
                )
            };
            let n: usize = rows::count(&self.calls, Ghost(want), test);
            let ghost was = out@;
            out.push((file.clone(), n));
            assert(out@.map_values(|p: (String, usize)| (p.0@, p.1 as nat)) =~= was.map_values(
                |p: (String, usize)| (p.0@, p.1 as nat),
            ).push(all[i as int]));
            i += 1;
        }
        assert(all.take(files@.len() as int) =~= all);
        out
    }
}

/// The number of call sites in a file that name something.
pub open spec fn sites_in(s: StoreModel, name: Seq<char>, file: Seq<char>) -> nat {
    rows::kept(
        s.calls,
        |c: CallRowModel| c.call.callee_name == name && c.file_path == file,
    ).len()
}

} // verus!
