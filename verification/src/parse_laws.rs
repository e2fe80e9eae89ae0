//! What is read out of the syntax tree of a file: which nodes become symbols,
//! which become call sites, and to whom a call is laid.

use vstd::prelude::*;
use vstd::string::*;
use vstd::utf8::*;

use crate::parse;
use crate::parse::{is_parent, is_walk, ContextModel, Language, SyntaxModel};
use crate::types::{CallModel, NodeLabel, NodeModel};

verus! {

/// Whether a way leads from its first node to its last, from each node to its
/// parent.
pub open spec fn is_way_up(nodes: Seq<SyntaxModel>, way: Seq<nat>) -> bool {
    &&& way.len() > 0
    &&& forall|k: int|
        0 <= k < way.len() - 1 ==> is_parent(nodes, #[trigger] way[k], way[k + 1])
}

/// Whether `c` is the first child of node `i` that fills the field.
pub open spec fn fills(nodes: Seq<SyntaxModel>, i: nat, field: Seq<char>, c: nat) -> bool {
    &&& is_parent(nodes, c, i)
    &&& nodes[c as int].field == Some(field)
    &&& forall|k: nat|
        k < c && #[trigger] is_parent(nodes, k, i) ==> nodes[k as int].field != Some(field)
}

/// Whether no child of node `i` fills the field.
pub open spec fn is_unfilled(nodes: Seq<SyntaxModel>, i: nat, field: Seq<char>) -> bool {
    forall|k: nat| #[trigger] is_parent(nodes, k, i) ==> nodes[k as int].field != Some(field)
}

/// Whether syntax of the kind introduces what the label says, where it has a
/// name.
pub open spec fn introduces(language: Language, kind: Seq<char>, label: NodeLabel) -> bool {
    match language {
        Language::Rust => {
            ||| label == NodeLabel::Function && kind == "function_item"@
            ||| label == NodeLabel::Class && (kind == "struct_item"@ || kind == "union_item"@)
            ||| label == NodeLabel::Enum && kind == "enum_item"@
            ||| label == NodeLabel::Interface && kind == "trait_item"@
            ||| label == NodeLabel::Type && kind == "type_item"@
            ||| label == NodeLabel::Module && kind == "mod_item"@
        },
        Language::Python => {
            ||| label == NodeLabel::Function && kind == "function_definition"@
            ||| label == NodeLabel::Class && kind == "class_definition"@
        },
        Language::JavaScript => is_script(kind, label),
        Language::TypeScript => is_script(kind, label) || is_typed_script(kind, label),
        Language::Tsx => is_script(kind, label) || is_typed_script(kind, label),
        Language::Go => {
            ||| label == NodeLabel::Function && kind == "function_declaration"@
            ||| label == NodeLabel::Method && kind == "method_declaration"@
            ||| label == NodeLabel::Class && kind == "type_spec"@
        },
    }
}

/// What JavaScript and TypeScript introduce.
pub open spec fn is_script(kind: Seq<char>, label: NodeLabel) -> bool {
    ||| label == NodeLabel::Function && (kind == "function_declaration"@ || kind
        == "generator_function_declaration"@)
    ||| label == NodeLabel::Class && kind == "class_declaration"@
    ||| label == NodeLabel::Method && kind == "method_definition"@
}

/// What TypeScript alone introduces.
pub open spec fn is_typed_script(kind: Seq<char>, label: NodeLabel) -> bool {
    ||| label == NodeLabel::Interface && kind == "interface_declaration"@
    ||| label == NodeLabel::Type && kind == "type_alias_declaration"@
    ||| label == NodeLabel::Enum && kind == "enum_declaration"@
    ||| label == NodeLabel::Class && kind == "abstract_class_declaration"@
}

/// Whether node `i` carries the name, which is not empty.
pub open spec fn has_name(
    ctx: ContextModel,
    nodes: Seq<SyntaxModel>,
    i: nat,
    name: Seq<char>,
) -> bool {
    name.len() > 0 && exists|c: nat| #[trigger]
        fills(nodes, i, "name"@, c) && parse::text_at(
            ctx.source,
            nodes[c as int].start_byte,
            nodes[c as int].end_byte,
        ) == Some(name)
}

/// Whether node `i` is the definition of a symbol with the label and the name.
pub open spec fn is_definition(
    ctx: ContextModel,
    nodes: Seq<SyntaxModel>,
    i: nat,
    label: NodeLabel,
    name: Seq<char>,
) -> bool {
    i < nodes.len() && introduces(ctx.language, nodes[i as int].kind, label) && has_name(
        ctx,
        nodes,
        i,
        name,
    )
}

/// Whether node `i` is the definition of a function or a method with the name.
pub open spec fn is_function(
    ctx: ContextModel,
    nodes: Seq<SyntaxModel>,
    i: nat,
    name: Seq<char>,
) -> bool {
    is_definition(ctx, nodes, i, NodeLabel::Function, name) || is_definition(
        ctx,
        nodes,
        i,
        NodeLabel::Method,
        name,
    )
}

/// Whether node `i` is the definition of any function or method.
pub open spec fn is_any_function(ctx: ContextModel, nodes: Seq<SyntaxModel>, i: nat) -> bool {
    exists|name: Seq<char>| is_function(ctx, nodes, i, name)
}

/// Whether the way leads from a node to the nearest function or method around
/// it, which has the name.
pub open spec fn is_way_to_function(
    ctx: ContextModel,
    nodes: Seq<SyntaxModel>,
    way: Seq<nat>,
    name: Seq<char>,
) -> bool {
    &&& is_way_up(nodes, way)
    &&& way.len() > 1
    &&& is_function(ctx, nodes, way.last(), name)
    &&& forall|k: int| 0 < k < way.len() - 1 ==> !is_any_function(ctx, nodes, #[trigger] way[k])
}

/// Whether no function or method is around node `i`.
pub open spec fn is_outside_functions(
    ctx: ContextModel,
    nodes: Seq<SyntaxModel>,
    i: nat,
) -> bool {
    forall|way: Seq<nat>| #[trigger]
        is_way_up(nodes, way) && way[0] == i && way.len() > 1 ==> !is_any_function(
            ctx,
            nodes,
            way.last(),
        )
}

/// The id of what is called `name` in the file.
pub open spec fn id_in_file(ctx: ContextModel, name: Seq<char>) -> Seq<char> {
    crate::types::qualified(
        ctx.project,
        parse::dir_parts(ctx.rel_path).push(parse::file_name(ctx.rel_path)),
        name,
    )
}

/// Whether a line is that of a row, of which the first is row zero.
pub open spec fn is_line_of(line: u32, row: usize) -> bool {
    line == row + 1 || (line == u32::MAX && row + 1 > u32::MAX)
}

/// Whether the symbol is the one that node `i` defines.
pub open spec fn is_symbol_of(
    ctx: ContextModel,
    nodes: Seq<SyntaxModel>,
    i: nat,
    n: NodeModel,
) -> bool {
    &&& is_definition(ctx, nodes, i, n.label, n.name)
    &&& n.id == id_in_file(ctx, n.name)
    &&& n.file_path == ctx.rel_path
    &&& is_line_of(n.line_start, nodes[i as int].start_row)
    &&& is_line_of(n.line_end, nodes[i as int].end_row)
}

/// Whether node `i` calls something with the name.
pub open spec fn is_call_of(
    ctx: ContextModel,
    nodes: Seq<SyntaxModel>,
    i: nat,
    callee: Seq<char>,
) -> bool {
    &&& i < nodes.len()
    &&& nodes[i as int].kind == "call_expression"@ || nodes[i as int].kind == "call"@
    &&& exists|c: nat| #[trigger]
        fills(nodes, i, "function"@, c) && parse::trailing_name(ctx.source, nodes, c as int)
            == Some(callee)
}

/// Whether the call site is that of node `i`: it is laid to the nearest function
/// or method around the node, and to the file where there is none.
pub open spec fn is_site_of(
    ctx: ContextModel,
    nodes: Seq<SyntaxModel>,
    i: nat,
    c: CallModel,
) -> bool {
    &&& is_call_of(ctx, nodes, i, c.callee_name)
    &&& is_line_of(c.line, nodes[i as int].start_row)
    &&& forall|way: Seq<nat>, name: Seq<char>| #[trigger]
        is_way_to_function(ctx, nodes, way, name) && way[0] == i ==> c.caller_id == id_in_file(
            ctx,
            name,
        )
    &&& is_outside_functions(ctx, nodes, i) ==> c.caller_id == parse::file_model(
        ctx,
        nodes,
    ).nodes[0].id
}

proof fn lemma_child_from(nodes: Seq<SyntaxModel>, i: nat, j: nat, field: Seq<char>)
    requires
        i < j <= nodes.len(),
        i < nodes.len(),
        forall|m: int| i < m < j ==> (#[trigger] nodes[m]).depth > nodes[i as int].depth,
        forall|k: nat|
            k < j && #[trigger] is_parent(nodes, k, i) ==> nodes[k as int].field != Some(field),
    ensures
        match parse::child_from(nodes, i as int, j as int, field) {
            Some(c) => i < c && fills(nodes, i, field, c as nat),
            None => is_unfilled(nodes, i, field),
        },
    decreases nodes.len() - j,
{
    if j >= nodes.len() || nodes[j as int].depth <= nodes[i as int].depth {
        assert forall|k: nat| #[trigger] is_parent(nodes, k, i) implies nodes[k as int].field
            != Some(field) by {
            if k >= j {
                if j < k {
                    assert(nodes[j as int].depth >= nodes[k as int].depth);
                }
            }
        }
    } else if nodes[j as int].depth == nodes[i as int].depth + 1 && nodes[j as int].field == Some(
        field,
    ) {
        assert(is_parent(nodes, j, i));
    } else {
        assert forall|k: nat| k < j + 1 && #[trigger] is_parent(nodes, k, i) implies nodes[k as int].field
            != Some(field) by {}
        lemma_child_from(nodes, i, (j + 1) as nat, field);
    }
}

/// The child that is looked up by a field is the first one that fills it.
pub proof fn law_field_names_its_first_child(nodes: Seq<SyntaxModel>, i: nat, field: Seq<char>)
    requires
        i < nodes.len(),
    ensures
        match parse::field_child(nodes, i as int, field) {
            Some(c) => i < c && fills(nodes, i, field, c as nat),
            None => is_unfilled(nodes, i, field),
        },
        forall|c: nat| #[trigger]
            fills(nodes, i, field, c) ==> parse::field_child(nodes, i as int, field) == Some(
                c as int,
            ),
{
    lemma_child_from(nodes, i, (i + 1) as nat, field);
    assert forall|c: nat| #[trigger] fills(nodes, i, field, c) implies parse::field_child(
        nodes,
        i as int,
        field,
    ) == Some(c as int) by {
        assert(is_parent(nodes, c, i));
        if let Some(d) = parse::field_child(nodes, i as int, field) {
            assert(is_parent(nodes, d as nat, i));
        }
    }
}

proof fn lemma_shallower(nodes: Seq<SyntaxModel>, i: int, j: int)
    requires
        0 < j <= i < nodes.len(),
        is_walk(nodes),
        forall|m: int| j <= m < i ==> (#[trigger] nodes[m]).depth >= nodes[i].depth,
    ensures
        parse::shallower_before(nodes, i, j) matches Some(p) && 0 <= p < j && is_parent(
            nodes,
            i as nat,
            p as nat,
        ),
    decreases j,
{
    if nodes[j - 1].depth < nodes[i].depth {
        assert(nodes[j].depth <= nodes[j - 1].depth + 1);
    } else {
        if j == 1 {
            assert(nodes[i].depth > 0);
        }
        lemma_shallower(nodes, i, j - 1);
    }
}

proof fn lemma_parent(nodes: Seq<SyntaxModel>, i: nat)
    requires
        is_walk(nodes),
        i < nodes.len(),
    ensures
        i == 0 ==> parse::parent(nodes, i as int) is None,
        i > 0 ==> (parse::parent(nodes, i as int) matches Some(p) && 0 <= p < i && is_parent(
            nodes,
            i,
            p as nat,
        )),
        forall|p: nat| #[trigger]
            is_parent(nodes, i, p) ==> parse::parent(nodes, i as int) == Some(p as int),
{
    if i > 0 {
        lemma_shallower(nodes, i as int, i as int);
        let q = parse::parent(nodes, i as int)->0;
        assert forall|p: nat| #[trigger] is_parent(nodes, i, p) implies p == q by {
            if p < q {
                assert(nodes[q].depth >= nodes[i as int].depth);
            } else if q < p {
                assert(nodes[p as int].depth >= nodes[i as int].depth);
            }
        }
    }
}

proof fn lemma_label(language: Language, kind: Seq<char>)
    ensures
        match parse::label_of(language, kind) {
            Some(label) => introduces(language, kind, label) && label != NodeLabel::File && forall|
                other: NodeLabel,
            | #[trigger] introduces(language, kind, other) ==> other == label,
            None => forall|other: NodeLabel| !#[trigger] introduces(language, kind, other),
        },
{
    reveal_strlit("function_item");
    reveal_strlit("struct_item");
    reveal_strlit("union_item");
    reveal_strlit("enum_item");
    reveal_strlit("trait_item");
    reveal_strlit("type_item");
    reveal_strlit("mod_item");
    reveal_strlit("function_definition");
    reveal_strlit("class_definition");
    reveal_strlit("function_declaration");
    reveal_strlit("generator_function_declaration");
    reveal_strlit("class_declaration");
    reveal_strlit("method_definition");
    reveal_strlit("method_declaration");
    reveal_strlit("type_spec");
    reveal_strlit("interface_declaration");
    reveal_strlit("type_alias_declaration");
    reveal_strlit("enum_declaration");
    reveal_strlit("abstract_class_declaration");
    assert("union_item"@[0] == 'u' && "trait_item"@[0] == 't');
    assert("enum_item"@[0] == 'e' && "type_item"@[0] == 't');
    assert("class_declaration"@[0] == 'c' && "method_definition"@[0] == 'm');
    assert("function_item"@.len() == 13 && "struct_item"@.len() == 11 && "union_item"@.len() == 10
        && "enum_item"@.len() == 9 && "trait_item"@.len() == 10 && "type_item"@.len() == 9
        && "mod_item"@.len() == 8);
    assert("function_definition"@.len() == 19 && "class_definition"@.len() == 16);
    assert("function_declaration"@.len() == 20 && "generator_function_declaration"@.len() == 30
        && "class_declaration"@.len() == 17 && "method_definition"@.len() == 17);
    assert("method_declaration"@.len() == 18 && "type_spec"@.len() == 9);
    assert("interface_declaration"@.len() == 21 && "type_alias_declaration"@.len() == 22
        && "enum_declaration"@.len() == 16 && "abstract_class_declaration"@.len() == 26);
}

proof fn lemma_definition(ctx: ContextModel, nodes: Seq<SyntaxModel>, i: nat)
    requires
        i < nodes.len(),
    ensures
        match parse::definition(ctx, nodes, i as int) {
            Some(n) => is_symbol_of(ctx, nodes, i, n) && forall|label: NodeLabel, name: Seq<char>|
                #[trigger]
                is_definition(ctx, nodes, i, label, name) ==> label == n.label && name == n.name,
            None => forall|label: NodeLabel, name: Seq<char>|
                !#[trigger] is_definition(ctx, nodes, i, label, name),
        },
{
    lemma_label(ctx.language, nodes[i as int].kind);
    law_field_names_its_first_child(nodes, i, "name"@);
}

proof fn lemma_way_back(nodes: Seq<SyntaxModel>, way: Seq<nat>)
    requires
        is_way_up(nodes, way),
        way.len() > 1,
    ensures
        is_parent(nodes, way[0], way[1]),
        is_way_up(nodes, way.drop_first()),
        way.drop_first()[0] == way[1],
        way.drop_first().last() == way.last(),
{
    let t = way.drop_first();
    assert forall|k: int| 0 <= k < t.len() - 1 implies is_parent(
        nodes,
        #[trigger] t[k],
        t[k + 1],
    ) by {
        assert(is_parent(nodes, way[k + 1], way[k + 1 + 1]));
    }
}

proof fn lemma_way_on(nodes: Seq<SyntaxModel>, i: nat, way: Seq<nat>)
    requires
        is_way_up(nodes, way),
        is_parent(nodes, i, way[0]),
    ensures
        is_way_up(nodes, seq![i] + way),
        (seq![i] + way)[0] == i,
        (seq![i] + way).last() == way.last(),
        (seq![i] + way).len() > 1,
{
    let t = seq![i] + way;
    assert forall|k: int| 0 <= k < t.len() - 1 implies is_parent(
        nodes,
        #[trigger] t[k],
        t[k + 1],
    ) by {
        if k > 0 {
            assert(is_parent(nodes, way[k - 1], way[k - 1 + 1]));
        }
    }
}

/// What [`parse::function_around`] gives is the nearest function.
proof fn lemma_around(ctx: ContextModel, nodes: Seq<SyntaxModel>, i: nat)
    requires
        is_walk(nodes),
        i < nodes.len(),
    ensures
        forall|way: Seq<nat>, name: Seq<char>| #[trigger]
            is_way_to_function(ctx, nodes, way, name) && way[0] == i ==> parse::function_around(
                ctx,
                nodes,
                i as int,
            ) == Some(id_in_file(ctx, name)),
        is_outside_functions(ctx, nodes, i) ==> parse::function_around(ctx, nodes, i as int)
            is None,
    decreases i,
{
    lemma_parent(nodes, i);
    if i > 0 {
        let p = parse::parent(nodes, i as int)->0 as nat;
        lemma_around(ctx, nodes, p);
        lemma_definition(ctx, nodes, p);
        assert forall|way: Seq<nat>, name: Seq<char>| #[trigger]
            is_way_to_function(ctx, nodes, way, name) && way[0]
                == i implies parse::function_around(ctx, nodes, i as int) == Some(
            id_in_file(ctx, name),
        ) by {
            lemma_way_back(nodes, way);
            assert(way[1] == p);
            let t = way.drop_first();
            if t.len() == 1 {
                assert(t.last() == p);
                assert(is_function(ctx, nodes, p, name));
            } else {
                assert(!is_any_function(ctx, nodes, way[1]));
                assert forall|k: int| 0 < k < t.len() - 1 implies !is_any_function(
                    ctx,
                    nodes,
                    #[trigger] t[k],
                ) by {
                    assert(!is_any_function(ctx, nodes, way[k + 1]));
                }
                assert(is_way_to_function(ctx, nodes, t, name));
                if let Some(n) = parse::definition(ctx, nodes, p as int) {
                    if n.label == NodeLabel::Function || n.label == NodeLabel::Method {
                        assert(is_function(ctx, nodes, p, n.name));
                    }
                }
            }
        }
        if is_outside_functions(ctx, nodes, i) {
            let one = seq![i, p];
            assert(is_way_up(nodes, one)) by {
                assert(is_parent(nodes, one[0], one[1]));
            }
            assert(!is_any_function(ctx, nodes, one.last()));
            if let Some(n) = parse::definition(ctx, nodes, p as int) {
                if n.label == NodeLabel::Function || n.label == NodeLabel::Method {
                    assert(is_function(ctx, nodes, p, n.name));
                }
            }
            assert(is_outside_functions(ctx, nodes, p)) by {
                assert forall|way: Seq<nat>| #[trigger]
                    is_way_up(nodes, way) && way[0] == p && way.len()
                        > 1 implies !is_any_function(ctx, nodes, way.last()) by {
                    lemma_way_on(nodes, i, way);
                    assert(is_way_up(nodes, seq![i] + way));
                }
            }
        }
    } else {
        assert forall|way: Seq<nat>, name: Seq<char>| #[trigger]
            is_way_to_function(ctx, nodes, way, name) && way[0] == i implies false by {
            lemma_way_back(nodes, way);
        }
    }
}

proof fn lemma_call_at(ctx: ContextModel, nodes: Seq<SyntaxModel>, i: nat)
    requires
        is_walk(nodes),
        i < nodes.len(),
    ensures
        match parse::call_at(ctx, nodes, i as int) {
            Some(c) => is_site_of(ctx, nodes, i, c) && forall|callee: Seq<char>| #[trigger]
                is_call_of(ctx, nodes, i, callee) ==> callee == c.callee_name,
            None => forall|callee: Seq<char>| !#[trigger] is_call_of(ctx, nodes, i, callee),
        },
{
    law_field_names_its_first_child(nodes, i, "function"@);
    lemma_around(ctx, nodes, i);
    assert(parse::file_model(ctx, nodes).nodes[0].id == parse::file_node_id(ctx));
}

/// Whether places are in their order, and below `k`.
pub open spec fn is_rising(at: Seq<nat>, k: nat) -> bool {
    &&& forall|i: int, j: int| 0 <= i < j < at.len() ==> #[trigger] at[i] < #[trigger] at[j]
    &&& forall|i: int| 0 <= i < at.len() ==> #[trigger] at[i] < k
}

/// Whether the symbols are those that the nodes at the places define.
pub open spec fn are_symbols(
    ctx: ContextModel,
    nodes: Seq<SyntaxModel>,
    at: Seq<nat>,
    symbols: Seq<NodeModel>,
) -> bool {
    &&& at.len() == symbols.len()
    &&& forall|j: int| 0 <= j < at.len() ==> is_symbol_of(ctx, nodes, #[trigger] at[j], symbols[j])
}

/// Whether the calls are those of the nodes at the places.
pub open spec fn are_sites(
    ctx: ContextModel,
    nodes: Seq<SyntaxModel>,
    at: Seq<nat>,
    calls: Seq<CallModel>,
) -> bool {
    &&& at.len() == calls.len()
    &&& forall|j: int| 0 <= j < at.len() ==> is_site_of(ctx, nodes, #[trigger] at[j], calls[j])
}

proof fn lemma_definitions(ctx: ContextModel, nodes: Seq<SyntaxModel>, k: nat) -> (at: Seq<nat>)
    requires
        k <= nodes.len(),
    ensures
        is_rising(at, k),
        are_symbols(ctx, nodes, at, parse::definitions(ctx, nodes, k)),
        forall|i: nat, label: NodeLabel, name: Seq<char>|
            i < k && #[trigger] is_definition(ctx, nodes, i, label, name) ==> at.contains(i),
    decreases k,
{
    if k == 0 {
        Seq::empty()
    } else {
        let rest = lemma_definitions(ctx, nodes, (k - 1) as nat);
        let i = (k - 1) as nat;
        lemma_definition(ctx, nodes, i);
        match parse::definition(ctx, nodes, i as int) {
            Some(n) => {
                let at = rest.push(i);
                assert(at.last() == i);
                assert forall|m: nat, label: NodeLabel, name: Seq<char>|
                    m < k && #[trigger] is_definition(
                        ctx,
                        nodes,
                        m,
                        label,
                        name,
                    ) implies at.contains(m) by {
                    if m < i {
                        assert(rest.contains(m));
                        let j = choose|j: int| 0 <= j < rest.len() && rest[j] == m;
                        assert(at[j] == m);
                    } else {
                        assert(at[rest.len() as int] == m);
                    }
                }
                at
            },
            None => rest,
        }
    }
}

proof fn lemma_calls(ctx: ContextModel, nodes: Seq<SyntaxModel>, k: nat) -> (at: Seq<nat>)
    requires
        is_walk(nodes),
        k <= nodes.len(),
    ensures
        is_rising(at, k),
        are_sites(ctx, nodes, at, parse::calls_made(ctx, nodes, k)),
        forall|i: nat, callee: Seq<char>|
            i < k && #[trigger] is_call_of(ctx, nodes, i, callee) ==> at.contains(i),
    decreases k,
{
    if k == 0 {
        Seq::empty()
    } else {
        let rest = lemma_calls(ctx, nodes, (k - 1) as nat);
        let i = (k - 1) as nat;
        lemma_call_at(ctx, nodes, i);
        match parse::call_at(ctx, nodes, i as int) {
            Some(c) => {
                let at = rest.push(i);
                assert forall|m: nat, callee: Seq<char>|
                    m < k && #[trigger] is_call_of(ctx, nodes, m, callee) implies at.contains(
                    m,
                ) by {
                    if m < i {
                        assert(rest.contains(m));
                        let j = choose|j: int| 0 <= j < rest.len() && rest[j] == m;
                        assert(at[j] == m);
                    } else {
                        assert(at[rest.len() as int] == m);
                    }
                }
                at
            },
            None => rest,
        }
    }
}

/// The symbols of a file are, behind the file itself, those that its syntax
/// defines, each once and in the order of the text: a node whose kind introduces
/// one, under the name that stands in its `name` field.
pub proof fn law_symbols_are_the_definitions(ctx: ContextModel, nodes: Seq<SyntaxModel>)
    ensures
        exists|at: Seq<nat>|
            is_rising(at, nodes.len()) && #[trigger] are_symbols(
                ctx,
                nodes,
                at,
                parse::file_model(ctx, nodes).nodes.skip(1),
            ) && forall|i: nat, label: NodeLabel, name: Seq<char>| #[trigger]
                is_definition(ctx, nodes, i, label, name) ==> at.contains(i),
        parse::file_model(ctx, nodes).nodes.len() > 0,
        parse::file_model(ctx, nodes).nodes[0].label == NodeLabel::File,
        parse::file_model(ctx, nodes).nodes[0].file_path == ctx.rel_path,
{
    let at = lemma_definitions(ctx, nodes, nodes.len());
    let m = parse::file_model(ctx, nodes);
    assert(m.nodes.skip(1) =~= parse::definitions(ctx, nodes, nodes.len()));
    assert(are_symbols(ctx, nodes, at, m.nodes.skip(1)));
}

/// The calls of a file are those of its syntax, each once and in the order of
/// the text. A call is laid to the nearest function or method around it, however
/// many other definitions stand in between, and to the file where none is around
/// it.
pub proof fn law_calls_are_laid_to_their_functions(ctx: ContextModel, nodes: Seq<SyntaxModel>)
    requires
        is_walk(nodes),
    ensures
        exists|at: Seq<nat>|
            is_rising(at, nodes.len()) && #[trigger] are_sites(
                ctx,
                nodes,
                at,
                parse::file_model(ctx, nodes).calls,
            ) && forall|i: nat, callee: Seq<char>| #[trigger]
                is_call_of(ctx, nodes, i, callee) ==> at.contains(i),
{
    let at = lemma_calls(ctx, nodes, nodes.len());
    assert(are_sites(ctx, nodes, at, parse::file_model(ctx, nodes).calls));
}

/// A call below a function or method, with no other between them, is among the
/// calls of the file with that function or method as its caller, and what it is
/// laid to is among the symbols of the file.
pub proof fn law_nearest_function_is_the_caller(
    ctx: ContextModel,
    nodes: Seq<SyntaxModel>,
    way: Seq<nat>,
    name: Seq<char>,
    callee: Seq<char>,
)
    requires
        is_walk(nodes),
        is_call_of(ctx, nodes, way[0], callee),
        is_way_to_function(ctx, nodes, way, name),
    ensures
        exists|c: CallModel, n: NodeModel|
            #![trigger parse::file_model(ctx, nodes).calls.contains(c),
                parse::file_model(ctx, nodes).nodes.contains(n)]
            parse::file_model(ctx, nodes).calls.contains(c) && parse::file_model(
                ctx,
                nodes,
            ).nodes.contains(n) && c.caller_id == n.id && c.callee_name == callee && is_line_of(
                c.line,
                nodes[way[0] as int].start_row,
            ) && n.name == name && (n.label == NodeLabel::Function || n.label
                == NodeLabel::Method) && is_line_of(
                n.line_start,
                nodes[way.last() as int].start_row,
            ),
{
    let m = parse::file_model(ctx, nodes);
    let at = lemma_calls(ctx, nodes, nodes.len());
    let i = way[0];
    let d = way.last();
    assert(at.contains(i));
    let j = choose|j: int| 0 <= j < at.len() && at[j] == i;
    let c = m.calls[j];
    assert(is_site_of(ctx, nodes, at[j], c));
    lemma_call_at(ctx, nodes, i);
    assert(m.calls.contains(c));
    let to = lemma_definitions(ctx, nodes, nodes.len());
    let defs = parse::definitions(ctx, nodes, nodes.len());
    assert(to.contains(d)) by {
        if is_definition(ctx, nodes, d, NodeLabel::Function, name) {
        } else {
            assert(is_definition(ctx, nodes, d, NodeLabel::Method, name));
        }
    }
    let q = choose|q: int| 0 <= q < to.len() && to[q] == d;
    let n = defs[q];
    assert(is_symbol_of(ctx, nodes, to[q], n));
    lemma_definition(ctx, nodes, d);
    assert(is_definition(ctx, nodes, d, n.label, n.name));
    assert(m.nodes[q + 1] == n);
    assert(m.nodes.contains(n));
    lemma_call_name(ctx, nodes, i, c.callee_name, callee);
}

proof fn lemma_call_name(
    ctx: ContextModel,
    nodes: Seq<SyntaxModel>,
    i: nat,
    a: Seq<char>,
    b: Seq<char>,
)
    requires
        is_call_of(ctx, nodes, i, a),
        is_call_of(ctx, nodes, i, b),
    ensures
        a == b,
{
    law_field_names_its_first_child(nodes, i, "function"@);
}

/// The name that a called expression ends in: an identifier is its own text, and
/// any other expression ends in what its first part with a name ends in, where
/// its `name` is asked first, then its `field`, its `attribute` and its
/// `property`.
pub proof fn law_called_expression_ends_in_a_name(
    source: Seq<char>,
    nodes: Seq<SyntaxModel>,
    i: nat,
)
    requires
        i < nodes.len(),
    ensures
        ({
            let kind = nodes[i as int].kind;
            let is_name = kind == "identifier"@ || "_identifier"@.is_suffix_of(kind);
            let r = parse::trailing_name(source, nodes, i as int);
            &&& is_name ==> r == parse::text_at(
                source,
                nodes[i as int].start_byte,
                nodes[i as int].end_byte,
            )
            &&& !is_name ==> {
                let a = name_in(source, nodes, i, "name"@);
                let b = name_in(source, nodes, i, "field"@);
                let c = name_in(source, nodes, i, "attribute"@);
                let d = name_in(source, nodes, i, "property"@);
                &&& a is Some ==> r == a
                &&& a is None && b is Some ==> r == b
                &&& a is None && b is None && c is Some ==> r == c
                &&& a is None && b is None && c is None ==> r == d
            }
        }),
{
    law_field_names_its_first_child(nodes, i, "name"@);
    law_field_names_its_first_child(nodes, i, "field"@);
    law_field_names_its_first_child(nodes, i, "attribute"@);
    law_field_names_its_first_child(nodes, i, "property"@);
    lemma_name_in(source, nodes, i, "name"@);
    lemma_name_in(source, nodes, i, "field"@);
    lemma_name_in(source, nodes, i, "attribute"@);
    lemma_name_in(source, nodes, i, "property"@);
}

/// What the first child of node `i` that fills the field ends in.
pub open spec fn name_in(
    source: Seq<char>,
    nodes: Seq<SyntaxModel>,
    i: nat,
    field: Seq<char>,
) -> Option<Seq<char>> {
    if exists|c: nat| fills(nodes, i, field, c) {
        parse::trailing_name(
            source,
            nodes,
            (choose|c: nat| fills(nodes, i, field, c)) as int,
        )
    } else {
        None
    }
}

proof fn lemma_name_in(source: Seq<char>, nodes: Seq<SyntaxModel>, i: nat, field: Seq<char>)
    requires
        i < nodes.len(),
    ensures
        name_in(source, nodes, i, field) == parse::trailing_in(source, nodes, i as int, field),
{
    law_field_names_its_first_child(nodes, i, field);
    if exists|c: nat| fills(nodes, i, field, c) {
        let c = choose|c: nat| fills(nodes, i, field, c);
        assert(is_parent(nodes, c, i));
    }
}

/// The text between two positions is that of the bytes there.
pub proof fn law_text_is_that_of_its_bytes(
    source: Seq<char>,
    from: usize,
    to: usize,
    t: Seq<char>,
)
    requires
        from <= to <= encode_utf8(source).len(),
        encode_utf8(t) == encode_utf8(source).subrange(from as int, to as int),
    ensures
        parse::text_at(source, from, to) == Some(t),
{
    encode_utf8_valid_utf8(t);
    encode_utf8_decode_utf8(t);
}

} // verus!
