//! The shape of a file, what is declared in it, and what a report tells of it.

use vstd::prelude::*;

use crate::order;
use crate::report;
use crate::rows;
use crate::store::StoreModel;
use crate::store_files;
use crate::store_queries;
use crate::tables::{FieldRowModel, LocalRowModel};
use crate::text;
use crate::tools_lists;
use crate::types::{InheritKind, NodeLabel, NodeModel};
use crate::usage;

verus! {

/// The shape of a file has its functions and methods by their ids, the last of
/// those with one id; other nodes make no difference to them.
pub proof fn law_shape_holds_the_functions(
    nodes: Seq<NodeModel>,
    n: NodeModel,
    inherits: Seq<(Seq<char>, Seq<char>, InheritKind)>,
    fields: Seq<(Seq<char>, Seq<char>, Seq<char>)>,
)
    ensures
        store_files::shape_of(Seq::empty(), inherits, fields).fn_defs =~= Map::<
            Seq<char>,
            Seq<char>,
        >::empty(),
        store_files::shape_of(nodes.push(n), inherits, fields).fn_defs == (if n.label
            == NodeLabel::Function || n.label == NodeLabel::Method {
            store_files::shape_of(nodes, inherits, fields).fn_defs.insert(n.id, n.name)
        } else {
            store_files::shape_of(nodes, inherits, fields).fn_defs
        }),
{
    let keep = |n: NodeModel| store_files::is_callable(n);
    let g = |n: NodeModel| (n.id, n.name);
    rows::lemma_kept_push(nodes, n, keep);
    let k = rows::kept(nodes, keep);
    let none = rows::kept(Seq::<NodeModel>::empty(), keep);
    assert(none.len() == 0) by {
        rows::lemma_kept(Seq::<NodeModel>::empty(), keep);
    }
    assert(none.map_values(g).len() == 0);
    assert(k.push(n).map_values(g) =~= k.map_values(g).push(g(n)));
    assert(k.map_values(g).push(g(n)).drop_last() =~= k.map_values(g));
}

/// Whether a name is declared with a type in a file.
pub open spec fn is_declared(s: StoreModel, name: Seq<char>, t: Seq<char>, file: Seq<char>) -> bool {
    ||| exists|f: FieldRowModel| #[trigger]
        s.fields.contains(f) && f.field_name == name && f.declared_type == t && f.file_path == file
    ||| t.len() > 0 && exists|l: LocalRowModel| #[trigger]
        s.locals.contains(l) && l.var_name == name && l.declared_type == t && l.file_path == file
}

/// The declarations of a name are those of its fields and of its locals with a
/// type, each once.
pub proof fn law_declarations_of_a_name(
    s: StoreModel,
    name: Seq<char>,
    t: Seq<char>,
    file: Seq<char>,
)
    ensures
        usage::declarations(s, name).no_duplicates(),
        usage::declarations(s, name).contains((name, t, file)) <==> is_declared(s, name, t, file),
{
    let kf = |f: FieldRowModel| f.field_name == name;
    let gf = |f: FieldRowModel| (f.field_name, f.declared_type, f.file_path);
    let kl = |l: LocalRowModel| l.var_name == name && l.declared_type.len() > 0;
    let gl = |l: LocalRowModel| (l.var_name, l.declared_type, l.file_path);
    let a = rows::kept(s.fields, kf);
    let b = rows::kept(s.locals, kl);
    let all = a.map_values(gf) + b.map_values(gl);
    let x = (name, t, file);
    rows::lemma_kept(s.fields, kf);
    rows::lemma_kept(s.locals, kl);
    rows::lemma_distinct(all);
    assert(usage::declarations(s, name) == rows::distinct(all));
    if all.contains(x) {
        let i = choose|i: int| 0 <= i < all.len() && all[i] == x;
        if i < a.len() {
            assert(all[i] == gf(a[i]));
            assert(s.fields.contains(a[i]));
        } else {
            let j = i - a.len();
            assert(all[i] == gl(b[j]));
            assert(kl(b[j]));
            assert(s.locals.contains(b[j]));
        }
    }
    if exists|f: FieldRowModel| #[trigger]
        s.fields.contains(f) && f.field_name == name && f.declared_type == t && f.file_path
            == file {
        let f = choose|f: FieldRowModel| #[trigger]
            s.fields.contains(f) && f.field_name == name && f.declared_type == t && f.file_path
                == file;
        assert(kf(f));
        assert(a.contains(f));
        let i = choose|i: int| 0 <= i < a.len() && a[i] == f;
        assert(all[i] == gf(f));
        assert(all[i] == x);
    }
    if t.len() > 0 && exists|l: LocalRowModel| #[trigger]
        s.locals.contains(l) && l.var_name == name && l.declared_type == t && l.file_path == file {
        let l = choose|l: LocalRowModel| #[trigger]
            s.locals.contains(l) && l.var_name == name && l.declared_type == t && l.file_path
                == file;
        assert(kl(l));
        assert(b.contains(l));
        let i = choose|i: int| 0 <= i < b.len() && b[i] == l;
        assert(all[a.len() + i] == gl(l));
        assert(all[a.len() + i] == x);
    }
}

/// The signature of a symbol is the line on which it begins, as far as it goes
/// into a hundred and twenty characters; there is none where the text is not
/// there or ends before it.
pub proof fn law_signature_is_the_first_line(content: Seq<char>, line: u32)
    requires
        line > 0,
    ensures
        line > text::lines(content).len() ==> tools_lists::signature_of(Some(content), line).len()
            == 0,
        tools_lists::signature_of(None, line).len() == 0,
        tools_lists::signature_of(Some(content), line).len() <= 120,
        line <= text::lines(content).len() ==> tools_lists::signature_of(
            Some(content),
            line,
        ).is_prefix_of(text::trim(text::lines(content)[line - 1])),
        line <= text::lines(content).len() && text::trim(text::lines(content)[line - 1]).len()
            <= 120 ==> tools_lists::signature_of(Some(content), line) == text::trim(
            text::lines(content)[line - 1],
        ),
{
    if line <= text::lines(content).len() {
        let t = text::trim(text::lines(content)[line - 1]);
        let r = tools_lists::signature_of(Some(content), line);
        assert(t.take(r.len() as int) =~= r);
    }
}

/// The functions that a report tells of as dead are ten at most, by file and
/// line: functions or methods that no call site names.
pub proof fn law_dead_functions_are_told(s: StoreModel)
    ensures
        ({
            let r = report::dead_of(s);
            &&& r.len() <= 10
            &&& forall|n: NodeModel| #[trigger]
                r.contains(n) ==> s.nodes.contains(n) && (n.label == NodeLabel::Function || n.label
                    == NodeLabel::Method)
            &&& forall|n: NodeModel, k: int|
                #![trigger r.contains(n), s.calls[k]]
                r.contains(n) && 0 <= k < s.calls.len() ==> s.calls[k].call.callee_name != n.name
            &&& forall|i: int, j: int|
                0 <= i < j < r.len() && (#[trigger] r[i]).file_path == (#[trigger] r[j]).file_path
                    ==> r[i].line_start <= r[j].line_start
        }),
{
    let keep = store_queries::looks_dead(s);
    let before = store_queries::place_order();
    let found = rows::kept(s.nodes, keep);
    let sorted = order::arranged(found, before);
    let r = report::dead_of(s);
    rows::lemma_kept(s.nodes, keep);
    assert(order::is_order(before)) by {
        assert forall|a: NodeModel, b: NodeModel| #[trigger] before(a, b) implies !before(b, a) by {
            order::lemma_text_asymmetric(a.file_path, b.file_path);
        }
        assert forall|a: NodeModel, b: NodeModel, c: NodeModel|
            #![trigger before(a, b), before(a, c)]
            #![trigger before(a, b), before(c, b)]
            before(a, b) implies before(a, c) || before(c, b) by {
            if a.file_path != b.file_path {
                order::lemma_text_between(a.file_path, b.file_path, c.file_path);
            } else {
                order::lemma_text_total(a.file_path, c.file_path);
            }
        }
    }
    order::law_arranged(found, before);
    order::lemma_same_items(found, before);
    assert forall|n: NodeModel| #[trigger] r.contains(n) implies found.contains(n) by {
        let i = choose|i: int| 0 <= i < r.len() && r[i] == n;
        assert(sorted[i] == n);
        assert(sorted.contains(n));
    }
    assert forall|n: NodeModel, k: int|
        #![trigger r.contains(n), s.calls[k]]
        r.contains(n) && 0 <= k < s.calls.len() implies s.calls[k].call.callee_name != n.name by {
        assert(found.contains(n));
        assert(keep(n));
        rows::lemma_any(s.calls, store_queries::calls_naming(n.name));
        assert(s.calls.contains(s.calls[k]));
        assert(!store_queries::calls_naming(n.name)(s.calls[k]));
    }
    assert forall|i: int, j: int|
        0 <= i < j < r.len() && (#[trigger] r[i]).file_path == (
        #[trigger] r[j]).file_path implies r[i].line_start <= r[j].line_start by {
        assert(!before(sorted[j], sorted[i]));
    }
}

} // verus!
