//! What the kinds of syntax stand for, and what a reply, an alias and a hint
//! come to.

use vstd::prelude::*;
use vstd::string::*;

use crate::explorer;
use crate::index;
use crate::listing_laws;
use crate::llm;
use crate::order;
use crate::parse;
use crate::parse::Language;
use crate::query;
use crate::report;
use crate::rows;
use crate::store;
use crate::store::StoreModel;
use crate::store_files::ShapeModel;
use crate::store_queries;
use crate::store_queries::Coverage;
use crate::tables::CallRowModel;
use crate::text;
use crate::tools;
use crate::tools_lists;
use crate::tsconfig;
use crate::tsconfig::ScopeModel;
use crate::types::{NodeLabel, NodeModel};
use crate::usage;
use crate::view_laws;
use crate::viz;
use crate::viz::ScoredModel;

verus! {

/// Each kind of item of Rust defines what it is named for: a union counts as a
/// class as a struct does, and a trait as an interface.
pub proof fn law_kinds_of_rust(kind: Seq<char>)
    ensures
        ({
            let r = parse::label_of(Language::Rust, kind);
            &&& r == Some(NodeLabel::Function) <==> kind == "function_item"@
            &&& r == Some(NodeLabel::Class) <==> kind == "struct_item"@ || kind == "union_item"@
            &&& r == Some(NodeLabel::Enum) <==> kind == "enum_item"@
            &&& r == Some(NodeLabel::Interface) <==> kind == "trait_item"@
            &&& r == Some(NodeLabel::Type) <==> kind == "type_item"@
            &&& r == Some(NodeLabel::Module) <==> kind == "mod_item"@
            &&& r != Some(NodeLabel::Method)
        }),
{
    reveal_strlit("function_item");
    reveal_strlit("struct_item");
    reveal_strlit("union_item");
    reveal_strlit("enum_item");
    reveal_strlit("trait_item");
    reveal_strlit("type_item");
    reveal_strlit("mod_item");
    assert("function_item"@[0] == 'f' && "struct_item"@[0] == 's' && "union_item"@[0] == 'u'
        && "enum_item"@[0] == 'e' && "mod_item"@[0] == 'm');
    assert("trait_item"@[0] == 't' && "type_item"@[0] == 't' && "trait_item"@[1] == 'r'
        && "type_item"@[1] == 'y');
}

/// A function of Python is one wherever it stands, and a class is a class.
pub proof fn law_kinds_of_python(kind: Seq<char>)
    ensures
        ({
            let r = parse::label_of(Language::Python, kind);
            &&& r == Some(NodeLabel::Function) <==> kind == "function_definition"@
            &&& r == Some(NodeLabel::Class) <==> kind == "class_definition"@
            &&& r is Some ==> r == Some(NodeLabel::Function) || r == Some(NodeLabel::Class)
        }),
{
    reveal_strlit("function_definition");
    reveal_strlit("class_definition");
    assert("function_definition"@[0] == 'f' && "class_definition"@[0] == 'c');
}

/// What JavaScript defines, TypeScript defines too, and interfaces, types, enums
/// and abstract classes besides.
pub proof fn law_kinds_of_scripts(kind: Seq<char>)
    ensures
        ({
            let r = parse::label_of(Language::JavaScript, kind);
            let t = parse::label_of(Language::TypeScript, kind);
            &&& r == Some(NodeLabel::Function) <==> kind == "function_declaration"@ || kind
                == "generator_function_declaration"@
            &&& r == Some(NodeLabel::Class) <==> kind == "class_declaration"@
            &&& r == Some(NodeLabel::Method) <==> kind == "method_definition"@
            &&& r is Some ==> t == r
            &&& t == Some(NodeLabel::Interface) <==> kind == "interface_declaration"@
            &&& t == Some(NodeLabel::Type) <==> kind == "type_alias_declaration"@
            &&& t == Some(NodeLabel::Enum) <==> kind == "enum_declaration"@
            &&& t == Some(NodeLabel::Class) <==> kind == "class_declaration"@ || kind
                == "abstract_class_declaration"@
            &&& parse::label_of(Language::Tsx, kind) == t
            &&& t == Some(NodeLabel::Function) ==> r == t
            &&& t == Some(NodeLabel::Method) ==> r == t
        }),
{
    reveal_strlit("function_declaration");
    reveal_strlit("generator_function_declaration");
    reveal_strlit("class_declaration");
    reveal_strlit("method_definition");
    reveal_strlit("interface_declaration");
    reveal_strlit("type_alias_declaration");
    reveal_strlit("enum_declaration");
    reveal_strlit("abstract_class_declaration");
    assert("function_declaration"@[0] == 'f' && "generator_function_declaration"@[0] == 'g'
        && "class_declaration"@[0] == 'c' && "method_definition"@[0] == 'm');
    assert("interface_declaration"@[0] == 'i' && "type_alias_declaration"@[0] == 't'
        && "enum_declaration"@[0] == 'e' && "abstract_class_declaration"@[0] == 'a');
}

/// Go has functions and methods, and its types count as classes.
pub proof fn law_kinds_of_go(kind: Seq<char>)
    ensures
        ({
            let r = parse::label_of(Language::Go, kind);
            &&& r == Some(NodeLabel::Function) <==> kind == "function_declaration"@
            &&& r == Some(NodeLabel::Method) <==> kind == "method_declaration"@
            &&& r == Some(NodeLabel::Class) <==> kind == "type_spec"@
        }),
{
    reveal_strlit("function_declaration");
    reveal_strlit("method_declaration");
    reveal_strlit("type_spec");
    assert("function_declaration"@[0] == 'f' && "method_declaration"@[0] == 'm'
        && "type_spec"@[0] == 't');
}

/// A text has one line more for each line feed that something stands behind.
pub proof fn law_lines_are_counted(s: Seq<char>, c: char)
    ensures
        parse::line_count(Seq::empty()) == 0,
        parse::line_count(s.push(c)) == (if s.len() == 0 || s.last() == '\n' {
            parse::line_count(s) + 1
        } else {
            parse::line_count(s)
        }),
{
    let t = s.push(c);
    assert(t.drop_last() =~= s);
    assert(text::count_char(t, '\n') == text::count_char(s, '\n') + (if c == '\n' {
        1nat
    } else {
        0nat
    }));
}

/// The hit whose number a reply begins with comes first; where there is no reply
/// the hits stay as they are.
pub proof fn law_reply_puts_the_best_first(hits: Seq<NodeModel>, i: nat, rest: Seq<char>)
    requires
        i < hits.len(),
        rest.len() > 0 ==> !('0' <= rest[0] <= '9'),
    ensures
        llm::reranked(hits, Some(text::decimal(i) + rest)).len() == hits.len(),
        llm::reranked(hits, Some(text::decimal(i) + rest))[0] == hits[i as int],
        llm::reranked(hits, None) == hits,
{
    let n = hits.len();
    let reply = text::decimal(i) + rest;
    listing_laws::law_reply_names_the_best(n, i, rest);
    llm::law_reply_only_reorders(reply, n);
    let r = llm::reordered(reply, n);
    assert(r.len() == n) by {
        let all = llm::all_places(n);
        assert(all.no_duplicates());
        assert forall|x: nat| #[trigger] r.to_set().contains(x) <==> all.to_set().contains(x) by {
            if x < n {
                assert(all[x as int] == x);
                assert(all.contains(x));
            }
            if all.contains(x) {
                let k = choose|k: int| 0 <= k < all.len() && all[k] == x;
            }
            assert(r.contains(x) <==> x < n);
        }
        assert(r.to_set() =~= all.to_set());
        r.unique_seq_to_set();
        all.unique_seq_to_set();
    }
}

/// An import of a file goes by the rules of the first configuration that covers
/// the file, and by none where no configuration does.
pub proof fn law_import_goes_by_its_configuration(
    scopes: Seq<ScopeModel>,
    importer: Seq<char>,
    spec: Seq<char>,
    k: int,
)
    requires
        0 <= k <= scopes.len(),
        forall|j: int| 0 <= j < k ==> !tsconfig::scope_covers(importer)(#[trigger] scopes[j]),
    ensures
        k < scopes.len() && tsconfig::scope_covers(importer)(scopes[k]) ==> tsconfig::alias(
            scopes,
            importer,
            spec,
        ) == tsconfig::rule_module(scopes[k].rules, scopes[k].base_url, spec),
        k == scopes.len() ==> tsconfig::alias(scopes, importer, spec) is None,
{
    if k < scopes.len() && tsconfig::scope_covers(importer)(scopes[k]) {
        rows::lemma_first_is(scopes, tsconfig::scope_covers(importer), k);
    }
    rows::lemma_first_at(scopes, tsconfig::scope_covers(importer));
}

/// An agent is told how to look further just where an answer may miss something,
/// and is told how many call sites did not resolve.
pub proof fn law_hint_is_given_for_what_is_missing(c: Coverage, name: Seq<char>)
    ensures
        tools::fallback_for(c, name) is Some <==> c.may_be_incomplete,
        tools::fallback_for(c, name) matches Some(f) ==> text::decimal(
            c.dropped as nat,
        ).is_prefix_of(f.0),
{
    let d = text::decimal(c.dropped as nat);
    let w = tools::fallback_why(c.dropped as nat, name);
    assert(w.take(d.len() as int) =~= d);
    assert(d.is_prefix_of(w));
}

/// The index of a directory is the one with the usual name; else it is the first
/// file with the extension, which is more than the extension alone.
pub proof fn law_index_is_found_by_its_name(names: Seq<Seq<char>>, k: int)
    requires
        0 <= k < names.len(),
    ensures
        names[k] == "index.scip"@ ==> (query::scip_place(names) matches Some(i) && names[i]
            == "index.scip"@),
        !names.contains("index.scip"@) ==> match query::scip_place(names) {
            Some(i) => 0 <= i < names.len() && ".scip"@.is_suffix_of(names[i]) && names[i].len() > 5
                && (k < i ==> !".scip"@.is_suffix_of(names[k]) || names[k].len() == 5),
            None => !".scip"@.is_suffix_of(names[k]) || names[k].len() == 5,
        },
{
    reveal_strlit(".scip");
    let usual = |n: Seq<char>| n == "index.scip"@;
    let other = |n: Seq<char>| ".scip"@.is_suffix_of(n) && n != ".scip"@;
    rows::lemma_first_at(names, usual);
    rows::lemma_first_at(names, other);
    assert forall|n: Seq<char>| ".scip"@.is_suffix_of(n) implies #[trigger] n.len() >= 5 && (n.len()
        == 5 <==> n == ".scip"@) by {
        if n.len() == 5 {
            assert(n =~= ".scip"@);
        }
    }
    if let Some(i) = rows::first_at(names, usual) {
        assert(usual(names[i]));
        assert(names.contains(names[i]));
    }
    if let Some(i) = rows::first_at(names, other) {
        assert(other(names[i]));
    }
}

/// The names that changed between two shapes are the same either way, and there
/// are none just where both define the same.
pub proof fn law_changed_names_are_those_that_differ(a: ShapeModel, b: ShapeModel, id: Seq<char>)
    ensures
        index::changed_names(a, b) =~= index::changed_names(b, a),
        a.fn_defs == b.fn_defs ==> index::changed_names(a, b) =~= Set::empty(),
        a.fn_defs.contains_key(id) && !b.fn_defs.contains_key(id) ==> index::changed_names(
            a,
            b,
        ).contains(a.fn_defs[id]),
        a.fn_defs.contains_key(id) && b.fn_defs.contains_key(id) && a.fn_defs[id] != b.fn_defs[id]
            ==> index::changed_names(a, b).contains(a.fn_defs[id]) && index::changed_names(
            a,
            b,
        ).contains(b.fn_defs[id]),
{
    if a.fn_defs.contains_key(id) && !(b.fn_defs.contains_key(id) && b.fn_defs[id]
        == a.fn_defs[id]) {
        assert(index::differs_in(a.fn_defs, b.fn_defs, a.fn_defs[id]));
        if b.fn_defs.contains_key(id) {
            assert(index::differs_in(b.fn_defs, a.fn_defs, b.fn_defs[id]));
        }
    }
}

/// The call sites of a file that have a name are counted: one more for each.
pub proof fn law_sites_of_a_file_are_counted(
    s: StoreModel,
    c: CallRowModel,
    name: Seq<char>,
    file: Seq<char>,
)
    ensures
        usage::sites_in((StoreModel { calls: s.calls.push(c), ..s }), name, file)
            == usage::sites_in(s, name, file) + (if c.call.callee_name == name && c.file_path
            == file {
            1nat
        } else {
            0nat
        }),
{
    rows::lemma_kept_push(
        s.calls,
        c,
        |c: CallRowModel| c.call.callee_name == name && c.file_path == file,
    );
}

/// The calls that could be resolved are all but those that no resolver could
/// bind.
pub proof fn law_calls_that_could_be_resolved(s: StoreModel)
    ensures
        report::resolvable_calls(s) + rows::kept(s.calls, store_queries::unresolvable(s)).len()
            == s.calls.len(),
{
    rows::lemma_kept(s.calls, store_queries::unresolvable(s));
}

/// The symbols that stand for a community are three of its own at most, with the
/// highest scores, and those that call or are called where there are any.
pub proof fn law_leading_symbols_are_connected(members: Seq<ScoredModel>, m: ScoredModel)
    ensures
        ({
            let r = explorer::leading(members);
            &&& r.len() <= 3
            &&& members.len() > 0 ==> r.len() > 0
            &&& forall|x: ScoredModel| #[trigger] r.contains(x) ==> members.contains(x)
            &&& forall|i: int, j: int|
                0 <= i < j < r.len() ==> (#[trigger] r[i]).score >= (#[trigger] r[j]).score
            &&& members.contains(m) && (viz::meta_number(m.node, "fan_in"@) > 0 || viz::meta_number(
                m.node,
                "fan_out"@,
            ) > 0) ==> forall|x: ScoredModel| #[trigger]
                r.contains(x) ==> viz::meta_number(x.node, "fan_in"@) > 0 || viz::meta_number(
                    x.node,
                    "fan_out"@,
                ) > 0
        }),
{
    let linked = rows::kept(members, explorer::is_connected());
    let all = if linked.len() > 0 {
        linked
    } else {
        members
    };
    let before = viz::hub_order();
    let sorted = order::arranged(all, before);
    let r = explorer::leading(members);
    rows::lemma_kept(members, explorer::is_connected());
    view_laws::lemma_hub_order();
    order::law_arranged(all, before);
    order::lemma_same_items(all, before);
    let at = order::lemma_arranged_stable(all, before);
    assert forall|x: ScoredModel| #[trigger] r.contains(x) implies all.contains(x) by {
        let i = choose|i: int| 0 <= i < r.len() && r[i] == x;
        assert(sorted[i] == x);
        assert(sorted.contains(x));
    }
    assert forall|i: int, j: int| 0 <= i < j < r.len() implies (#[trigger] r[i]).score >= (
    #[trigger] r[j]).score by {
        assert(!before(sorted[j], sorted[i]));
    }
    assert forall|x: ScoredModel| #[trigger] r.contains(x) implies members.contains(x) by {
        assert(all.contains(x));
    }
    if members.contains(m) && explorer::is_connected()(m) {
        assert(linked.contains(m));
        assert(linked.len() > 0);
        assert forall|x: ScoredModel| #[trigger] r.contains(x) implies explorer::is_connected()(
            x,
        ) by {
            assert(linked.contains(x));
        }
    }
}

/// The routes of a report are all routes of the graph, by name.
pub proof fn law_routes_are_told_by_name(s: StoreModel)
    ensures
        ({
            let r = report::routes_of(s);
            &&& forall|n: NodeModel| #[trigger]
                r.contains(n) <==> s.nodes.contains(n) && n.label == NodeLabel::Route
            &&& forall|i: int, j: int|
                0 <= i < j < r.len() ==> !text::text_less((#[trigger] r[j]).name, (
                #[trigger] r[i]).name)
        }),
{
    let found = rows::kept(s.nodes, store::node_labelled(NodeLabel::Route));
    let before = tools_lists::name_order();
    rows::lemma_kept(s.nodes, store::node_labelled(NodeLabel::Route));
    assert(order::is_order(before)) by {
        assert forall|a: NodeModel, b: NodeModel| #[trigger] before(a, b) implies !before(b, a) by {
            order::lemma_text_asymmetric(a.name, b.name);
        }
        assert forall|a: NodeModel, b: NodeModel, c: NodeModel|
            #![trigger before(a, b), before(a, c)]
            #![trigger before(a, b), before(c, b)]
            before(a, b) implies before(a, c) || before(c, b) by {
            order::lemma_text_between(a.name, b.name, c.name);
        }
    }
    order::law_arranged(found, before);
    order::lemma_same_items(found, before);
    let r = report::routes_of(s);
    assert forall|i: int, j: int| 0 <= i < j < r.len() implies !text::text_less(
        (#[trigger] r[j]).name,
        (#[trigger] r[i]).name,
    ) by {
        assert(!before(r[j], r[i]));
    }
}

} // verus!
