//! Grammar-driven parsing: one walk over the syntax tree of a file and, per
//! language, a map from the kinds of syntax nodes to labels.

use vstd::prelude::*;
use vstd::slice::slice_subrange;
use vstd::string::*;
use vstd::utf8::*;

use crate::text;
use crate::types;
use crate::types::{
    CallModel, Metadata, Node, NodeLabel, NodeModel, QualifiedName, RawCall, RawField, RawImport,
    RawInherit, RawLocal, Receiver,
};

verus! {

/// The error of a failed UTF-8 conversion.
#[verifier::external_type_specification]
#[verifier::external_body]
pub struct ExUtf8Error(std::str::Utf8Error);

/// `std::str::from_utf8`: the text that the bytes encode, where they are valid
/// UTF-8, and an error where they are not.
pub assume_specification[ std::str::from_utf8 ](v: &[u8]) -> (r: Result<&str, std::str::Utf8Error>)
    ensures
        match r {
            Ok(s) => valid_utf8(v@) && s.spec_bytes() == v@,
            Err(_) => !valid_utf8(v@),
        },
;

/// The languages that can be parsed.
#[derive(Debug, Clone, Copy, PartialEq, Eq, Structural)]
pub enum Language {
    Rust,
    Python,
    JavaScript,
    TypeScript,
    Tsx,
    Go,
}

/// A node of a syntax tree, as met on a walk in which a node comes before its
/// children: its kind, the field that it fills in its parent, its depth, its
/// rows and its bytes.
pub struct SyntaxNode {
    pub kind: String,
    pub field: Option<String>,
    pub depth: u32,
    pub start_row: usize,
    pub end_row: usize,
    pub start_byte: usize,
    pub end_byte: usize,
}

/// The model of a [`SyntaxNode`].
pub struct SyntaxModel {
    pub kind: Seq<char>,
    pub field: Option<Seq<char>>,
    pub depth: u32,
    pub start_row: usize,
    pub end_row: usize,
    pub start_byte: usize,
    pub end_byte: usize,
}

impl View for SyntaxNode {
    type V = SyntaxModel;

    open spec fn view(&self) -> SyntaxModel {
        SyntaxModel {
            kind: self.kind@,
            field: types::opt_text(self.field),
            depth: self.depth,
            start_row: self.start_row,
            end_row: self.end_row,
            start_byte: self.start_byte,
            end_byte: self.end_byte,
        }
    }
}

/// The models of a sequence of syntax nodes.
pub open spec fn syntax_views(v: Seq<SyntaxNode>) -> Seq<SyntaxModel> {
    v.map_values(|n: SyntaxNode| n@)
}

/// `tree_sitter::Tree`, the syntax tree of a file.
#[verifier::external_type_specification]
#[verifier::external_body]
pub struct ExTree(tree_sitter::Tree);

/// The nodes that a tree holds, a node before its children.
pub uninterp spec fn tree_nodes(tree: tree_sitter::Tree) -> Seq<SyntaxModel>;

/// The nodes of the syntax tree of a text, where the grammar of the language
/// can be used.
pub uninterp spec fn parsed_nodes(language: Language, source: Seq<char>) -> Option<
    Seq<SyntaxModel>,
>;

/// `tree_sitter::Parser::parse` with the grammar of the language: the syntax
/// tree of the text, or nothing where the parser refuses the grammar.
#[verifier::external_body]
fn syntax_tree(language: Language, source: &str) -> (r: Option<tree_sitter::Tree>)
    ensures
        match r {
            Some(t) => parsed_nodes(language, source@) == Some(tree_nodes(t)),
            None => parsed_nodes(language, source@) is None,
        },
{
    let grammar: tree_sitter::Language = match language {
        Language::Rust => tree_sitter_rust::LANGUAGE.into(),
        Language::Python => tree_sitter_python::LANGUAGE.into(),
        Language::JavaScript => tree_sitter_javascript::LANGUAGE.into(),
        Language::TypeScript => tree_sitter_typescript::LANGUAGE_TYPESCRIPT.into(),
        Language::Tsx => tree_sitter_typescript::LANGUAGE_TSX.into(),
        Language::Go => tree_sitter_go::LANGUAGE.into(),
    };
    let mut parser = tree_sitter::Parser::new();
    parser.set_language(&grammar).ok()?;
    parser.parse(source, None)
}

/// `tree_sitter::TreeCursor`, a place in a tree.
#[verifier::external_type_specification]
#[verifier::external_body]
pub struct ExTreeCursor<'a>(tree_sitter::TreeCursor<'a>);

/// The nodes of the tree that a cursor is on, a node before its children.
pub uninterp spec fn cursor_nodes(c: tree_sitter::TreeCursor) -> Seq<SyntaxModel>;

/// The place of a cursor among the nodes of its tree.
pub uninterp spec fn cursor_place(c: tree_sitter::TreeCursor) -> nat;

/// Whether nodes are those of a tree, a node before its children: the first is
/// the root, and each of the others is at most one level deeper than the one
/// before it.
pub open spec fn is_walk(n: Seq<SyntaxModel>) -> bool {
    &&& n.len() > 0
    &&& n[0].depth == 0
    &&& forall|i: int|
        0 < i < n.len() ==> 0 < (#[trigger] n[i]).depth && n[i].depth <= n[i - 1].depth + 1
}

/// Whether `j` is the next node on the level of `i` below the same parent.
pub open spec fn is_next_sibling(n: Seq<SyntaxModel>, i: nat, j: nat) -> bool {
    &&& i < j < n.len()
    &&& n[j as int].depth == n[i as int].depth
    &&& forall|k: int| i < k < j ==> (#[trigger] n[k]).depth > n[i as int].depth
}

/// Whether `j` is the node of which `i` is a child.
pub open spec fn is_parent(n: Seq<SyntaxModel>, i: nat, j: nat) -> bool {
    &&& j < i < n.len()
    &&& n[j as int].depth + 1 == n[i as int].depth
    &&& forall|k: int| j < k < i ==> (#[trigger] n[k]).depth >= n[i as int].depth
}

/// `tree_sitter::Tree::walk`: a cursor on the root of the tree.
#[verifier::external_body]
fn start_walk<'a>(tree: &'a tree_sitter::Tree) -> (c: tree_sitter::TreeCursor<'a>)
    ensures
        cursor_nodes(c) == tree_nodes(*tree),
        is_walk(cursor_nodes(c)),
        cursor_place(c) == 0,
{
    tree.walk()
}

/// `tree_sitter::TreeCursor::node`, with its field name and its depth: the node
/// at the place of the cursor.
#[verifier::external_body]
fn node_here(c: &tree_sitter::TreeCursor) -> (r: SyntaxNode)
    ensures
        r@ == cursor_nodes(*c)[cursor_place(*c) as int],
{
    let (n, field) = (c.node(), c.field_name().map(|f| f.to_string()));
    let (from, to) = (n.start_position(), n.end_position());
    let (kind, depth) = (n.kind().to_string(), c.depth());
    let (start_byte, end_byte) = (n.start_byte(), n.end_byte());
    let (start_row, end_row) = (from.row, to.row);
    SyntaxNode { kind, field, depth, start_row, end_row, start_byte, end_byte }
}

/// `tree_sitter::TreeCursor::goto_first_child`: moves to the first child, which
/// is the next node; says whether there is one.
#[verifier::external_body]
fn to_first_child(c: &mut tree_sitter::TreeCursor) -> (r: bool)
    ensures
        cursor_nodes(*final(c)) == cursor_nodes(*old(c)),
        r == ({
            let (n, i) = (cursor_nodes(*old(c)), cursor_place(*old(c)));
            i + 1 < n.len() && n[(i + 1) as int].depth > n[i as int].depth
        }),
        cursor_place(*final(c)) == (if r {
            cursor_place(*old(c)) + 1
        } else {
            cursor_place(*old(c))
        }),
{
    c.goto_first_child()
}

/// `tree_sitter::TreeCursor::goto_next_sibling`: moves to the next sibling; says
/// whether there is one.
#[verifier::external_body]
fn to_next_sibling(c: &mut tree_sitter::TreeCursor) -> (r: bool)
    ensures
        cursor_nodes(*final(c)) == cursor_nodes(*old(c)),
        r ==> is_next_sibling(
            cursor_nodes(*old(c)),
            cursor_place(*old(c)),
            cursor_place(*final(c)),
        ),
        !r ==> cursor_place(*final(c)) == cursor_place(*old(c)) && forall|j: nat|
            !#[trigger] is_next_sibling(cursor_nodes(*old(c)), cursor_place(*old(c)), j),
{
    c.goto_next_sibling()
}

/// `tree_sitter::TreeCursor::goto_parent`: moves to the parent; says whether
/// there is one, which holds of every node but the root.
#[verifier::external_body]
fn to_parent(c: &mut tree_sitter::TreeCursor) -> (r: bool)
    ensures
        cursor_nodes(*final(c)) == cursor_nodes(*old(c)),
        r == (cursor_place(*old(c)) > 0),
        r ==> is_parent(
            cursor_nodes(*old(c)),
            cursor_place(*old(c)),
            cursor_place(*final(c)),
        ),
        !r ==> cursor_place(*final(c)) == cursor_place(*old(c)),
{
    c.goto_parent()
}

/// Moves from a node to the node after it; says whether there is one.
fn to_next_node(c: &mut tree_sitter::TreeCursor) -> (r: bool)
    requires
        is_walk(cursor_nodes(*old(c))),
        cursor_place(*old(c)) < cursor_nodes(*old(c)).len(),
    ensures
        cursor_nodes(*final(c)) == cursor_nodes(*old(c)),
        r == (cursor_place(*old(c)) + 1 < cursor_nodes(*old(c)).len()),
        r ==> cursor_place(*final(c)) == cursor_place(*old(c)) + 1,
{
    let ghost n = cursor_nodes(*c);
    let ghost i = cursor_place(*c) as int;
    if to_first_child(c) {
        return true;
    }
    loop
        invariant
            is_walk(n),
            0 <= i < n.len(),
            cursor_nodes(*c) == n,
            cursor_place(*c) <= i,
            forall|k: int|
                cursor_place(*c) < k <= i ==> (#[trigger] n[k]).depth > n[cursor_place(
                    *c,
                ) as int].depth,
            i + 1 == n.len() || n[i + 1].depth <= n[cursor_place(*c) as int].depth,
            n == cursor_nodes(*old(c)),
            i == cursor_place(*old(c)),
        decreases cursor_place(*c),
    {
        let ghost p = cursor_place(*c);
        if to_next_sibling(c) {
            let ghost j = cursor_place(*c);
            assert(j > i) by {
                if j <= i {
                    assert(n[j as int].depth > n[p as int].depth);
                }
            }
            assert(j == i + 1) by {
                if i + 1 < j {
                    assert(n[i + 1].depth > n[p as int].depth);
                }
            }
            return true;
        }
        if !to_parent(c) {
            proof {
                if i + 1 < n.len() {
                    assert(n[i + 1].depth > 0);
                }
            }
            return false;
        }
        proof {
            let q = cursor_place(*c);
            if i + 1 < n.len() && n[i + 1].depth == n[p as int].depth {
                assert(is_next_sibling(n, p, (i + 1) as nat));
            }
            assert forall|k: int| q < k <= i implies (#[trigger] n[k]).depth > n[q as int].depth by {
                if k > p {
                    assert(n[k].depth > n[p as int].depth);
                }
            }
        }
    }
}

/// The nodes of a tree, a node before its children.
fn walk_tree(tree: &tree_sitter::Tree) -> (r: Vec<SyntaxNode>)
    ensures
        syntax_views(r@) == tree_nodes(*tree),
{
    let mut at = start_walk(tree);
    let ghost nodes = tree_nodes(*tree);
    let mut out: Vec<SyntaxNode> = Vec::new();
    assert(syntax_views(out@) =~= nodes.take(0));
    loop
        invariant
            nodes == tree_nodes(*tree),
            is_walk(nodes),
            cursor_nodes(at) == nodes,
            cursor_place(at) == out@.len(),
            out@.len() < nodes.len(),
            syntax_views(out@) == nodes.take(out@.len() as int),
        decreases nodes.len() - out@.len(),
    {
        let ghost done = out@;
        out.push(node_here(&at));
        assert(syntax_views(out@) =~= nodes.take(out@.len() as int)) by {
            assert(syntax_views(out@) =~= syntax_views(done).push(out@.last()@));
            assert(nodes.take((done.len() + 1) as int) =~= nodes.take(done.len() as int).push(
                nodes[done.len() as int],
            ));
        }
        if !to_next_node(&mut at) {
            assert(nodes.take(nodes.len() as int) =~= nodes);
            return out;
        }
    }
}

/// What a parser finds in a file.
pub struct ParsedFile {
    pub nodes: Vec<Node>,
    pub calls: Vec<RawCall>,
    pub inherits: Vec<RawInherit>,
    pub fields: Vec<RawField>,
    pub locals: Vec<RawLocal>,
    pub imports: Vec<RawImport>,
    pub type_refs: Vec<String>,
}

/// The model of the nodes and calls of a [`ParsedFile`].
#[verifier::ext_equal]
pub struct ParsedModel {
    pub nodes: Seq<NodeModel>,
    pub calls: Seq<CallModel>,
}

impl ParsedFile {
    /// The nodes and calls.
    pub open spec fn model(self) -> ParsedModel {
        ParsedModel {
            nodes: types::node_views(self.nodes@),
            calls: types::call_views(self.calls@),
        }
    }

    /// Whether nothing but nodes and calls was found.
    pub open spec fn only_nodes_and_calls(self) -> bool {
        &&& self.inherits@.len() == 0
        &&& self.fields@.len() == 0
        &&& self.locals@.len() == 0
        &&& self.imports@.len() == 0
        &&& self.type_refs@.len() == 0
    }

    /// The result of a file in which nothing was found.
    pub fn empty() -> (r: ParsedFile)
        ensures
            r.model() == (ParsedModel { nodes: Seq::empty(), calls: Seq::empty() }),
            r.only_nodes_and_calls(),
    {
        let r = ParsedFile {
            nodes: Vec::new(),
            calls: Vec::new(),
            inherits: Vec::new(),
            fields: Vec::new(),
            locals: Vec::new(),
            imports: Vec::new(),
            type_refs: Vec::new(),
        };
        assert(r.model() =~= ParsedModel { nodes: Seq::empty(), calls: Seq::empty() });
        r
    }
}

/// What a syntax node of the kind defines in Rust.
pub open spec fn rust_kind(kind: Seq<char>) -> Option<NodeLabel> {
    if kind == "function_item"@ {
        Some(NodeLabel::Function)
    } else if kind == "struct_item"@ {
        Some(NodeLabel::Class)
    } else if kind == "union_item"@ {
        Some(NodeLabel::Class)
    } else if kind == "enum_item"@ {
        Some(NodeLabel::Enum)
    } else if kind == "trait_item"@ {
        Some(NodeLabel::Interface)
    } else if kind == "type_item"@ {
        Some(NodeLabel::Type)
    } else if kind == "mod_item"@ {
        Some(NodeLabel::Module)
    } else {
        None
    }
}

/// See [`rust_kind`].
pub fn rust_label(kind: &str) -> (r: Option<NodeLabel>)
    ensures
        r == rust_kind(kind@),
{
    if text::same(kind, "function_item") {
        Some(NodeLabel::Function)
    } else if text::same(kind, "struct_item") {
        Some(NodeLabel::Class)
    } else if text::same(kind, "union_item") {
        Some(NodeLabel::Class)
    } else if text::same(kind, "enum_item") {
        Some(NodeLabel::Enum)
    } else if text::same(kind, "trait_item") {
        Some(NodeLabel::Interface)
    } else if text::same(kind, "type_item") {
        Some(NodeLabel::Type)
    } else if text::same(kind, "mod_item") {
        Some(NodeLabel::Module)
    } else {
        None
    }
}

/// What a syntax node of the kind defines in Python.
pub open spec fn python_kind(kind: Seq<char>) -> Option<NodeLabel> {
    if kind == "function_definition"@ {
        Some(NodeLabel::Function)
    } else if kind == "class_definition"@ {
        Some(NodeLabel::Class)
    } else {
        None
    }
}

/// See [`python_kind`].
pub fn python_label(kind: &str) -> (r: Option<NodeLabel>)
    ensures
        r == python_kind(kind@),
{
    if text::same(kind, "function_definition") {
        Some(NodeLabel::Function)
    } else if text::same(kind, "class_definition") {
        Some(NodeLabel::Class)
    } else {
        None
    }
}

/// What a syntax node of the kind defines in JavaScript.
pub open spec fn js_kind(kind: Seq<char>) -> Option<NodeLabel> {
    if kind == "function_declaration"@ {
        Some(NodeLabel::Function)
    } else if kind == "generator_function_declaration"@ {
        Some(NodeLabel::Function)
    } else if kind == "class_declaration"@ {
        Some(NodeLabel::Class)
    } else if kind == "method_definition"@ {
        Some(NodeLabel::Method)
    } else {
        None
    }
}

/// See [`js_kind`].
pub fn js_label(kind: &str) -> (r: Option<NodeLabel>)
    ensures
        r == js_kind(kind@),
{
    if text::same(kind, "function_declaration") {
        Some(NodeLabel::Function)
    } else if text::same(kind, "generator_function_declaration") {
        Some(NodeLabel::Function)
    } else if text::same(kind, "class_declaration") {
        Some(NodeLabel::Class)
    } else if text::same(kind, "method_definition") {
        Some(NodeLabel::Method)
    } else {
        None
    }
}

/// What a syntax node of the kind defines in TypeScript.
pub open spec fn ts_kind(kind: Seq<char>) -> Option<NodeLabel> {
    if kind == "interface_declaration"@ {
        Some(NodeLabel::Interface)
    } else if kind == "type_alias_declaration"@ {
        Some(NodeLabel::Type)
    } else if kind == "enum_declaration"@ {
        Some(NodeLabel::Enum)
    } else if kind == "abstract_class_declaration"@ {
        Some(NodeLabel::Class)
    } else {
        js_kind(kind)
    }
}

/// See [`ts_kind`].
pub fn ts_label(kind: &str) -> (r: Option<NodeLabel>)
    ensures
        r == ts_kind(kind@),
{
    if text::same(kind, "interface_declaration") {
        Some(NodeLabel::Interface)
    } else if text::same(kind, "type_alias_declaration") {
        Some(NodeLabel::Type)
    } else if text::same(kind, "enum_declaration") {
        Some(NodeLabel::Enum)
    } else if text::same(kind, "abstract_class_declaration") {
        Some(NodeLabel::Class)
    } else {
        js_label(kind)
    }
}

/// What a syntax node of the kind defines in Go.
pub open spec fn go_kind(kind: Seq<char>) -> Option<NodeLabel> {
    if kind == "function_declaration"@ {
        Some(NodeLabel::Function)
    } else if kind == "method_declaration"@ {
        Some(NodeLabel::Method)
    } else if kind == "type_spec"@ {
        Some(NodeLabel::Class)
    } else {
        None
    }
}

/// See [`go_kind`].
pub fn go_label(kind: &str) -> (r: Option<NodeLabel>)
    ensures
        r == go_kind(kind@),
{
    if text::same(kind, "function_declaration") {
        Some(NodeLabel::Function)
    } else if text::same(kind, "method_declaration") {
        Some(NodeLabel::Method)
    } else if text::same(kind, "type_spec") {
        Some(NodeLabel::Class)
    } else {
        None
    }
}


/// What a syntax node of the kind defines in the language.
pub open spec fn label_of(language: Language, kind: Seq<char>) -> Option<NodeLabel> {
    match language {
        Language::Rust => rust_kind(kind),
        Language::Python => python_kind(kind),
        Language::JavaScript => js_kind(kind),
        Language::TypeScript => ts_kind(kind),
        Language::Tsx => ts_kind(kind),
        Language::Go => go_kind(kind),
    }
}

/// See [`label_of`].
fn label_for(language: Language, kind: &str) -> (r: Option<NodeLabel>)
    ensures
        r == label_of(language, kind@),
{
    match language {
        Language::Rust => rust_label(kind),
        Language::Python => python_label(kind),
        Language::JavaScript => js_label(kind),
        Language::TypeScript => ts_label(kind),
        Language::Tsx => ts_label(kind),
        Language::Go => go_label(kind),
    }
}

/// The name under which a language is stored.
pub open spec fn language_text(language: Language) -> Seq<char> {
    match language {
        Language::Rust => "rust"@,
        Language::Python => "python"@,
        Language::JavaScript => "javascript"@,
        Language::TypeScript => "typescript"@,
        Language::Tsx => "typescript"@,
        Language::Go => "go"@,
    }
}

/// See [`language_text`].
fn language_name(language: Language) -> (r: &'static str)
    ensures
        r@ == language_text(language),
{
    match language {
        Language::Rust => "rust",
        Language::Python => "python",
        Language::JavaScript => "javascript",
        Language::TypeScript => "typescript",
        Language::Tsx => "typescript",
        Language::Go => "go",
    }
}

/// What a file's nodes are made from: the language, the project, the path and
/// the text of the file.
pub struct FileContext<'a> {
    pub language: Language,
    pub project: &'a str,
    pub rel_path: &'a str,
    pub source: &'a str,
}

/// The model of a [`FileContext`].
pub struct ContextModel {
    pub language: Language,
    pub project: Seq<char>,
    pub rel_path: Seq<char>,
    pub source: Seq<char>,
}

impl<'a> View for FileContext<'a> {
    type V = ContextModel;

    open spec fn view(&self) -> ContextModel {
        ContextModel {
            language: self.language,
            project: self.project@,
            rel_path: self.rel_path@,
            source: self.source@,
        }
    }
}

/// The text between two byte positions, where the bytes there are a text.
pub open spec fn text_at(source: Seq<char>, from: usize, to: usize) -> Option<Seq<char>> {
    let bytes = encode_utf8(source);
    if from <= to <= bytes.len() && valid_utf8(bytes.subrange(from as int, to as int)) {
        Some(decode_utf8(bytes.subrange(from as int, to as int)))
    } else {
        None
    }
}

/// See [`text_at`].
fn read_text(source: &str, from: usize, to: usize) -> (r: Option<String>)
    ensures
        types::opt_text(r) == text_at(source@, from, to),
{
    let bytes = source.as_bytes();
    if from <= to && to <= bytes.len() {
        match std::str::from_utf8(slice_subrange(bytes, from, to)) {
            Ok(s) => {
                proof {
                    encode_utf8_decode_utf8(s@);
                }
                Some(s.to_owned())
            },
            Err(_) => None,
        }
    } else {
        None
    }
}

/// The first child of node `i`, among the nodes from `j` on, that fills the
/// field.
pub open spec fn child_from(nodes: Seq<SyntaxModel>, i: int, j: int, field: Seq<char>) -> Option<int>
    decreases nodes.len() - j,
{
    if j < 0 || j >= nodes.len() || nodes[j].depth <= nodes[i].depth {
        None
    } else if nodes[j].depth == nodes[i].depth + 1 && nodes[j].field == Some(field) {
        Some(j)
    } else {
        child_from(nodes, i, j + 1, field)
    }
}

/// The first child of node `i` that fills the field.
pub open spec fn field_child(nodes: Seq<SyntaxModel>, i: int, field: Seq<char>) -> Option<int> {
    child_from(nodes, i, i + 1, field)
}

/// See [`field_child`].
fn child_by_field(nodes: &[SyntaxNode], i: usize, field: &str) -> (r: Option<usize>)
    requires
        i < nodes@.len(),
    ensures
        match r {
            Some(c) => field_child(syntax_views(nodes@), i as int, field@) == Some(c as int) && i < c
                < nodes@.len(),
            None => field_child(syntax_views(nodes@), i as int, field@) is None,
        },
{
    let ghost all = syntax_views(nodes@);
    let n: usize = nodes.len();
    let mut j: usize = i + 1;
    while j < n
        invariant
            n == nodes@.len(),
            i < j <= n,
            all == syntax_views(nodes@),
            field_child(all, i as int, field@) == child_from(all, i as int, j as int, field@),
        decreases n - j,
    {
        assert(all[j as int] == nodes@[j as int]@);
        assert(all[i as int] == nodes@[i as int]@);
        if nodes[j].depth <= nodes[i].depth {
            return None;
        }
        if nodes[j].depth - 1 == nodes[i].depth {
            if let Some(f) = &nodes[j].field {
                if text::same(f.as_str(), field) {
                    return Some(j);
                }
            }
        }
        j += 1;
    }
    None
}

/// Whether a kind is that of an identifier.
pub open spec fn is_identifier(kind: Seq<char>) -> bool {
    kind == "identifier"@ || "_identifier"@.is_suffix_of(kind)
}

/// The name that a called expression ends in: an identifier itself, or what
/// the first of its fields `name`, `field`, `attribute` and `property` that
/// ends in a name ends in.
pub open spec fn trailing_name(
    source: Seq<char>,
    nodes: Seq<SyntaxModel>,
    i: int,
) -> Option<Seq<char>>
    decreases nodes.len() - i, 1int,
{
    if i < 0 || i >= nodes.len() {
        None
    } else if is_identifier(nodes[i].kind) {
        text_at(source, nodes[i].start_byte, nodes[i].end_byte)
    } else {
        match trailing_in(source, nodes, i, "name"@) {
            Some(s) => Some(s),
            None => match trailing_in(source, nodes, i, "field"@) {
                Some(s) => Some(s),
                None => match trailing_in(source, nodes, i, "attribute"@) {
                    Some(s) => Some(s),
                    None => trailing_in(source, nodes, i, "property"@),
                },
            },
        }
    }
}

/// The name that the child of node `i` in the field ends in.
pub open spec fn trailing_in(
    source: Seq<char>,
    nodes: Seq<SyntaxModel>,
    i: int,
    field: Seq<char>,
) -> Option<Seq<char>>
    decreases nodes.len() - i, 0int,
{
    match field_child(nodes, i, field) {
        Some(c) => if i < c < nodes.len() {
            trailing_name(source, nodes, c)
        } else {
            None
        },
        None => None,
    }
}


/// See [`trailing_name`].
fn trailing_ident(source: &str, nodes: &[SyntaxNode], i: usize) -> (r: Option<String>)
    requires
        i < nodes@.len(),
    ensures
        types::opt_text(r) == trailing_name(source@, syntax_views(nodes@), i as int),
    decreases nodes@.len() - i,
{
    let ghost all = syntax_views(nodes@);
    assert(all[i as int] == nodes@[i as int]@);
    let kind = nodes[i].kind.as_str();
    if text::same(kind, "identifier") || text::finishes_with(kind, "_identifier") {
        return read_text(source, nodes[i].start_byte, nodes[i].end_byte);
    }
    if let Some(c) = child_by_field(nodes, i, "name") {
        if let Some(s) = trailing_ident(source, nodes, c) {
            return Some(s);
        }
    }
    if let Some(c) = child_by_field(nodes, i, "field") {
        if let Some(s) = trailing_ident(source, nodes, c) {
            return Some(s);
        }
    }
    if let Some(c) = child_by_field(nodes, i, "attribute") {
        if let Some(s) = trailing_ident(source, nodes, c) {
            return Some(s);
        }
    }
    if let Some(c) = child_by_field(nodes, i, "property") {
        return trailing_ident(source, nodes, c);
    }
    None
}

/// The parts of a path that are not empty.
pub open spec fn path_parts(path: Seq<char>) -> Seq<Seq<char>> {
    types::non_empty(text::split_char(path, '/'))
}

/// The directories of a path.
pub open spec fn dir_parts(path: Seq<char>) -> Seq<Seq<char>> {
    let parts = path_parts(path);
    if parts.len() == 0 {
        parts
    } else {
        parts.drop_last()
    }
}

/// The last part of a path.
pub open spec fn file_name(path: Seq<char>) -> Seq<char> {
    let parts = path_parts(path);
    if parts.len() == 0 {
        "file"@
    } else {
        parts.last()
    }
}

/// The number of lines of a text: each ends with a line feed, but for the last
/// one where it is not empty.
pub open spec fn line_count(s: Seq<char>) -> nat {
    text::count_char(s, '\n') + if s.len() > 0 && s.last() != '\n' {
        1nat
    } else {
        0nat
    }
}

/// A number of lines in 32 bits, the greatest one where it does not fit.
pub open spec fn line_number(n: nat) -> u32 {
    if n < u32::MAX {
        n as u32
    } else {
        u32::MAX
    }
}

/// The id of a file's own node.
pub open spec fn file_node_id(ctx: ContextModel) -> Seq<char> {
    types::qualified(ctx.project, dir_parts(ctx.rel_path), file_name(ctx.rel_path))
}

/// A file's own node.
pub open spec fn file_node(ctx: ContextModel) -> NodeModel {
    NodeModel {
        id: file_node_id(ctx),
        label: NodeLabel::File,
        name: file_name(ctx.rel_path),
        file_path: ctx.rel_path,
        line_start: 1,
        line_end: if line_count(ctx.source) == 0 {
            1
        } else {
            line_number(line_count(ctx.source))
        },
        language: language_text(ctx.language),
        metadata: Seq::empty(),
        community: None,
        pagerank: 0,
        betweenness: 0,
    }
}

/// The name that node `i` gives what it defines.
pub open spec fn defined_name(
    ctx: ContextModel,
    nodes: Seq<SyntaxModel>,
    i: int,
) -> Option<Seq<char>> {
    match field_child(nodes, i, "name"@) {
        None => None,
        Some(c) => match text_at(ctx.source, nodes[c].start_byte, nodes[c].end_byte) {
            None => None,
            Some(name) => if name.len() == 0 {
                None
            } else {
                Some(name)
            },
        },
    }
}

/// What node `i` defines.
pub open spec fn definition(
    ctx: ContextModel,
    nodes: Seq<SyntaxModel>,
    i: int,
) -> Option<NodeModel> {
    match label_of(ctx.language, nodes[i].kind) {
        None => None,
        Some(label) => match defined_name(ctx, nodes, i) {
            None => None,
            Some(name) => Some(
                NodeModel {
                    id: types::qualified(
                        ctx.project,
                        dir_parts(ctx.rel_path).push(file_name(ctx.rel_path)),
                        name,
                    ),
                    label,
                    name,
                    file_path: ctx.rel_path,
                    line_start: line_number(nodes[i].start_row as nat + 1),
                    line_end: line_number(nodes[i].end_row as nat + 1),
                    language: language_text(ctx.language),
                    metadata: Seq::empty(),
                    community: None,
                    pagerank: 0,
                    betweenness: 0,
                },
            ),
        },
    }
}

/// The last node before `j` that is less deep than node `i`.
pub open spec fn shallower_before(nodes: Seq<SyntaxModel>, i: int, j: int) -> Option<int>
    decreases j,
{
    if j <= 0 {
        None
    } else if nodes[j - 1].depth < nodes[i].depth {
        Some(j - 1)
    } else {
        shallower_before(nodes, i, j - 1)
    }
}

/// The parent of node `i`.
pub open spec fn parent(nodes: Seq<SyntaxModel>, i: int) -> Option<int> {
    shallower_before(nodes, i, i)
}

/// The function or method whose body holds what node `i` holds: what it
/// defines itself, or what holds it.
pub open spec fn function_of(
    ctx: ContextModel,
    nodes: Seq<SyntaxModel>,
    i: int,
) -> Option<Seq<char>>
    decreases i, 1int,
{
    match definition(ctx, nodes, i) {
        Some(n) => if n.label == NodeLabel::Function || n.label == NodeLabel::Method {
            Some(n.id)
        } else {
            function_around(ctx, nodes, i)
        },
        None => function_around(ctx, nodes, i),
    }
}

/// The function or method that holds node `i`.
pub open spec fn function_around(
    ctx: ContextModel,
    nodes: Seq<SyntaxModel>,
    i: int,
) -> Option<Seq<char>>
    decreases i, 0int,
{
    match parent(nodes, i) {
        Some(p) => if 0 <= p < i {
            function_of(ctx, nodes, p)
        } else {
            None
        },
        None => None,
    }
}


/// Whether a kind is that of a call.
pub open spec fn is_call(kind: Seq<char>) -> bool {
    kind == "call_expression"@ || kind == "call"@
}

/// The call that node `i` makes, on behalf of the function around it or else
/// of the file.
pub open spec fn call_at(ctx: ContextModel, nodes: Seq<SyntaxModel>, i: int) -> Option<CallModel> {
    if !is_call(nodes[i].kind) {
        None
    } else {
        match field_child(nodes, i, "function"@) {
            None => None,
            Some(c) => match trailing_name(ctx.source, nodes, c) {
                None => None,
                Some(name) => Some(
                    CallModel {
                        caller_id: match function_around(ctx, nodes, i) {
                            Some(f) => f,
                            None => file_node_id(ctx),
                        },
                        callee_name: name,
                        line: line_number(nodes[i].start_row as nat + 1),
                        receiver: None,
                        enclosing_class: None,
                    },
                ),
            },
        }
    }
}

/// What the first `k` nodes define.
pub open spec fn definitions(ctx: ContextModel, nodes: Seq<SyntaxModel>, k: nat) -> Seq<NodeModel>
    decreases k,
{
    if k == 0 {
        Seq::empty()
    } else {
        let rest = definitions(ctx, nodes, (k - 1) as nat);
        match definition(ctx, nodes, k - 1) {
            Some(n) => rest.push(n),
            None => rest,
        }
    }
}

/// The calls of the first `k` nodes.
pub open spec fn calls_made(ctx: ContextModel, nodes: Seq<SyntaxModel>, k: nat) -> Seq<CallModel>
    decreases k,
{
    if k == 0 {
        Seq::empty()
    } else {
        let rest = calls_made(ctx, nodes, (k - 1) as nat);
        match call_at(ctx, nodes, k - 1) {
            Some(c) => rest.push(c),
            None => rest,
        }
    }
}

/// What is found in a file with the given syntax nodes.
pub open spec fn file_model(ctx: ContextModel, nodes: Seq<SyntaxModel>) -> ParsedModel {
    ParsedModel {
        nodes: seq![file_node(ctx)] + definitions(ctx, nodes, nodes.len()),
        calls: calls_made(ctx, nodes, nodes.len()),
    }
}

/// What is found in a file of the language.
pub open spec fn parsed(ctx: ContextModel) -> ParsedModel {
    match parsed_nodes(ctx.language, ctx.source) {
        Some(nodes) => file_model(ctx, nodes),
        None => ParsedModel { nodes: Seq::empty(), calls: Seq::empty() },
    }
}

/// The strings as slices.
fn as_strs<'a>(v: &'a Vec<String>) -> (r: Vec<&'a str>)
    ensures
        types::str_views(r@) == text::views(v@),
{
    let mut r: Vec<&'a str> = Vec::new();
    let mut i: usize = 0;
    while i < v.len()
        invariant
            i <= v.len(),
            types::str_views(r@) == text::views(v@).take(i as int),
        decreases v.len() - i,
    {
        let ghost before = types::str_views(r@);
        r.push(v[i].as_str());
        assert(types::str_views(r@) =~= before.push(v@[i as int]@));
        i += 1;
    }
    assert(text::views(v@).take(v@.len() as int) =~= text::views(v@));
    r
}

/// See [`path_parts`].
pub fn split_path(path: &str) -> (r: Vec<String>)
    ensures
        text::views(r@) == path_parts(path@),
{
    let pieces = text::split_on(path, '/');
    let ghost all = text::split_char(path@, '/');
    let mut r: Vec<String> = Vec::new();
    assert(text::views(r@) =~= types::non_empty(all.take(0)));
    let mut i: usize = 0;
    while i < pieces.len()
        invariant
            i <= pieces.len(),
            text::views(pieces@) == all,
            text::views(r@) == types::non_empty(all.take(i as int)),
        decreases pieces.len() - i,
    {
        proof {
            assert(all[i as int] == pieces@[i as int]@);
            assert(all.take(i + 1).drop_last() =~= all.take(i as int));
        }
        if !pieces[i].as_str().is_empty() {
            let ghost before = text::views(r@);
            r.push(pieces[i].clone());
            assert(text::views(r@) =~= before.push(pieces@[i as int]@));
        }
        i += 1;
    }
    assert(all.take(all.len() as int) =~= all);
    r
}

/// A line number from a count of rows; see [`line_number`].
fn line_of(row: usize) -> (r: u32)
    ensures
        r == line_number(row as nat + 1),
{
    if row < (u32::MAX - 1) as usize {
        row as u32 + 1
    } else {
        u32::MAX
    }
}

/// The last line of a file, at least the first; see [`line_count`].
fn last_line(source: &str) -> (r: u32)
    ensures
        r == (if line_count(source@) == 0 {
            1u32
        } else {
            line_number(line_count(source@))
        }),
{
    let v = text::chars_of(source);
    let mut n: usize = 0;
    let mut i: usize = 0;
    while i < v.len()
        invariant
            i <= v.len(),
            v@ == source@,
            n == text::count_char(source@.take(i as int), '\n'),
            n <= i,
        decreases v.len() - i,
    {
        assert(source@.take(i + 1).drop_last() =~= source@.take(i as int));
        if v[i] == '\n' {
            n += 1;
        }
        i += 1;
    }
    assert(source@.take(source@.len() as int) =~= source@);
    if v.len() > 0 && v[v.len() - 1] != '\n' {
        line_of(n)
    } else if n == 0 {
        1
    } else {
        line_of(n - 1)
    }
}

/// See [`definition`].
fn define(ctx: &FileContext, segs: &Vec<&str>, nodes: &[SyntaxNode], i: usize) -> (r: Option<Node>)
    requires
        i < nodes@.len(),
        types::str_views(segs@) == dir_parts(ctx.rel_path@).push(file_name(ctx.rel_path@)),
    ensures
        match r {
            Some(n) => definition(ctx@, syntax_views(nodes@), i as int) == Some(n@),
            None => definition(ctx@, syntax_views(nodes@), i as int) is None,
        },
{
    let ghost all = syntax_views(nodes@);
    assert(all[i as int] == nodes@[i as int]@);
    let label = match label_for(ctx.language, nodes[i].kind.as_str()) {
        Some(l) => l,
        None => return None,
    };
    let c: usize = match child_by_field(nodes, i, "name") {
        Some(c) => c,
        None => return None,
    };
    assert(all[c as int] == nodes@[c as int]@);
    let name = match read_text(ctx.source, nodes[c].start_byte, nodes[c].end_byte) {
        Some(s) => s,
        None => return None,
    };
    if name.as_str().is_empty() {
        return None;
    }
    Some(
        Node {
            id: QualifiedName::build(ctx.project, segs, name.as_str()),
            label,
            name,
            file_path: ctx.rel_path.to_owned(),
            line_start: line_of(nodes[i].start_row),
            line_end: line_of(nodes[i].end_row),
            language: language_name(ctx.language).to_owned(),
            metadata: Metadata::new(),
            community: None,
            pagerank: 0,
            betweenness: 0,
        },
    )
}

/// Whether the places on the stack are those of nodes that lead down to the
/// last of the first `i` nodes, with nothing shallower in between.
#[verifier::opaque]
spec fn is_chain(nodes: Seq<SyntaxModel>, stack: Seq<usize>, i: int) -> bool {
    &&& forall|q: int| 0 <= q < stack.len() ==> #[trigger] stack[q] < i
    &&& forall|q: int|
        #![trigger stack[q]]
        0 < q < stack.len() ==> stack[q - 1] < stack[q] && forall|m: int|
            stack[q - 1] < m < stack[q] ==> (#[trigger] nodes[m]).depth
                >= nodes[stack[q] as int].depth
    &&& stack.len() > 0 ==> forall|m: int|
        0 <= m < stack[0] ==> (#[trigger] nodes[m]).depth >= nodes[stack[0] as int].depth
    &&& i > 0 ==> stack.len() > 0 && stack.last() == i - 1
}

proof fn lemma_parent(nodes: Seq<SyntaxModel>, i: int, p: int, j: int)
    requires
        0 <= p < j <= i < nodes.len(),
        nodes[p].depth < nodes[i].depth,
        forall|m: int| p < m < j ==> (#[trigger] nodes[m]).depth >= nodes[i].depth,
    ensures
        shallower_before(nodes, i, j) == Some(p),
    decreases j,
{
    if p < j - 1 {
        assert(nodes[j - 1].depth >= nodes[i].depth);
        lemma_parent(nodes, i, p, j - 1);
    }
}

proof fn lemma_no_parent(nodes: Seq<SyntaxModel>, i: int, j: int)
    requires
        0 <= j <= i < nodes.len(),
        forall|m: int| 0 <= m < j ==> (#[trigger] nodes[m]).depth >= nodes[i].depth,
    ensures
        shallower_before(nodes, i, j) is None,
    decreases j,
{
    if j > 0 {
        assert(nodes[j - 1].depth >= nodes[i].depth);
        lemma_no_parent(nodes, i, j - 1);
    }
}

proof fn lemma_chain_top(nodes: Seq<SyntaxModel>, stack: Seq<usize>, i: int)
    requires
        is_chain(nodes, stack, i),
        i >= 0,
    ensures
        stack.len() == 0 ==> i == 0,
        stack.len() > 0 ==> stack.last() == i - 1,
        forall|q: int| 0 <= q < stack.len() ==> #[trigger] stack[q] < i,
{
    reveal(is_chain);
    if stack.len() > 0 {
        assert(stack[stack.len() - 1] < i);
    }
}

proof fn lemma_chain_below(nodes: Seq<SyntaxModel>, stack: Seq<usize>, i: int, k: int, d: u32)
    requires
        is_chain(nodes, stack, i),
        0 <= k < stack.len(),
        nodes[stack[k] as int].depth >= d,
        forall|m: int| stack[k] < m < i ==> (#[trigger] nodes[m]).depth >= d,
    ensures
        k > 0 ==> forall|m: int| stack[k - 1] < m < i ==> (#[trigger] nodes[m]).depth >= d,
        k == 0 ==> forall|m: int| 0 <= m < i ==> (#[trigger] nodes[m]).depth >= d,
{
    reveal(is_chain);
    if k > 0 {
        assert(stack[k - 1] < stack[k]);
        assert forall|m: int| stack[k - 1] < m < i implies (#[trigger] nodes[m]).depth >= d by {
            if m < stack[k] {
                assert(nodes[m].depth >= nodes[stack[k] as int].depth);
            }
        }
    } else {
        assert forall|m: int| 0 <= m < i implies (#[trigger] nodes[m]).depth >= d by {
            if m < stack[0] {
                assert(nodes[m].depth >= nodes[stack[0] as int].depth);
            }
        }
    }
}

proof fn lemma_chain_push(nodes: Seq<SyntaxModel>, full: Seq<usize>, k: int, i: usize)
    requires
        is_chain(nodes, full, i as int),
        0 <= k <= full.len(),
        k > 0 ==> forall|m: int|
            full[k - 1] < m < i ==> (#[trigger] nodes[m]).depth >= nodes[i as int].depth,
        k == 0 ==> forall|m: int|
            0 <= m < i ==> (#[trigger] nodes[m]).depth >= nodes[i as int].depth,
    ensures
        is_chain(nodes, full.take(k).push(i), i + 1),
{
    reveal(is_chain);
    let now = full.take(k).push(i);
    assert forall|q: int| 0 <= q < now.len() implies #[trigger] now[q] < i + 1 by {
        if q < k {
            assert(now[q] == full[q]);
        }
    }
    assert forall|q: int|
        #![trigger now[q]]
        0 < q < now.len() implies now[q - 1] < now[q] && forall|m: int|
        now[q - 1] < m < now[q] ==> (#[trigger] nodes[m]).depth >= nodes[now[q] as int].depth by {
        assert(now[q - 1] == full[q - 1]);
        if q < k {
            assert(now[q] == full[q]);
            assert(full[q - 1] < full[q]);
        } else {
            assert(full[q - 1] < i);
        }
    }
    if k > 0 {
        assert(now[0] == full[0]);
    }
}

/// Takes from the stack what is not above node `i`; what is left on top is its
/// parent.
fn pop_to_parent(nodes: &[SyntaxNode], stack: &mut Vec<usize>, i: usize)
    requires
        i < nodes@.len(),
        is_chain(syntax_views(nodes@), old(stack)@, i as int),
    ensures
        match parent(syntax_views(nodes@), i as int) {
            Some(p) => final(stack)@.len() > 0 && final(stack)@.last() == p && p < i,
            None => final(stack)@.len() == 0,
        },
        is_chain(syntax_views(nodes@), final(stack)@.push(i), i + 1),
{
    let ghost all = syntax_views(nodes@);
    let ghost full = stack@;
    proof {
        lemma_chain_top(all, full, i as int);
        assert(full.take(full.len() as int) =~= full);
    }
    let mut open: bool = true;
    while open && stack.len() > 0
        invariant
            i < nodes@.len(),
            all == syntax_views(nodes@),
            is_chain(all, full, i as int),
            stack@.len() <= full.len(),
            stack@ == full.take(stack@.len() as int),
            forall|q: int| 0 <= q < full.len() ==> #[trigger] full[q] < i,
            stack@.len() > 0 ==> forall|m: int|
                full[stack@.len() - 1] < m < i ==> (#[trigger] all[m]).depth
                    >= all[i as int].depth,
            stack@.len() == 0 ==> forall|m: int|
                0 <= m < i ==> (#[trigger] all[m]).depth >= all[i as int].depth,
            !open ==> stack@.len() > 0 && all[full[stack@.len() - 1] as int].depth
                < all[i as int].depth,
        decreases
                stack@.len(),
                (if open {
                    1int
                } else {
                    0int
                }),
    {
        let top: usize = stack[stack.len() - 1];
        let ghost k = stack@.len() - 1;
        proof {
            assert(stack@[k] == full[k]);
            assert(full[k] < i);
            assert(all[top as int] == nodes@[top as int]@);
            assert(all[i as int] == nodes@[i as int]@);
        }
        if nodes[top].depth >= nodes[i].depth {
            proof {
                lemma_chain_below(all, full, i as int, k, all[i as int].depth);
            }
            stack.pop();
            assert(stack@ =~= full.take(k));
        } else {
            open = false;
        }
    }
    proof {
        let k = stack@.len() as int;
        lemma_chain_push(all, full, k, i);
        if k > 0 {
            assert(stack@[k - 1] == full[k - 1]);
            assert(full[k - 1] < i);
            lemma_parent(all, i as int, full[k - 1] as int, i as int);
        } else {
            lemma_no_parent(all, i as int, i as int);
        }
    }
}

/// See [`call_at`]; `caller` is the id on whose behalf node `i` calls.
fn call_of(ctx: &FileContext, nodes: &[SyntaxNode], i: usize, caller: &String) -> (r: Option<
    RawCall,
>)
    requires
        i < nodes@.len(),
        caller@ == (match function_around(ctx@, syntax_views(nodes@), i as int) {
            Some(f) => f,
            None => file_node_id(ctx@),
        }),
    ensures
        match r {
            Some(c) => call_at(ctx@, syntax_views(nodes@), i as int) == Some(c@),
            None => call_at(ctx@, syntax_views(nodes@), i as int) is None,
        },
{
    let ghost all = syntax_views(nodes@);
    assert(all[i as int] == nodes@[i as int]@);
    let kind = nodes[i].kind.as_str();
    if !text::same(kind, "call_expression") && !text::same(kind, "call") {
        return None;
    }
    let c: usize = match child_by_field(nodes, i, "function") {
        Some(c) => c,
        None => return None,
    };
    match trailing_ident(ctx.source, nodes, c) {
        None => None,
        Some(callee) => Some(
            RawCall {
                caller_id: caller.clone(),
                callee_name: callee,
                line: line_of(nodes[i].start_row),
                receiver: Receiver::Bare,
                enclosing_class: None,
            },
        ),
    }
}

/// What is found in a file whose syntax nodes are given; see [`file_model`].
pub fn collect(ctx: &FileContext, nodes: &[SyntaxNode]) -> (r: ParsedFile)
    ensures
        r.model() == file_model(ctx@, syntax_views(nodes@)),
        r.only_nodes_and_calls(),
{
    let ghost all = syntax_views(nodes@);
    let mut dir = split_path(ctx.rel_path);
    let ghost parts = path_parts(ctx.rel_path@);
    let name = match dir.pop() {
        Some(n) => n,
        None => "file".to_owned(),
    };
    proof {
        assert(text::views(dir@) =~= dir_parts(ctx.rel_path@));
        assert(parts.len() > 0 ==> name@ == parts.last());
        assert(name@ == file_name(ctx.rel_path@));
    }
    let file_id = QualifiedName::build(ctx.project, &as_strs(&dir), name.as_str());
    let mut r = ParsedFile::empty();
    let file = Node {
        id: file_id,
        label: NodeLabel::File,
        name: name.clone(),
        file_path: ctx.rel_path.to_owned(),
        line_start: 1,
        line_end: last_line(ctx.source),
        language: language_name(ctx.language).to_owned(),
        metadata: Metadata::new(),
        community: None,
        pagerank: 0,
        betweenness: 0,
    };
    r.nodes.push(file);
    dir.push(name);
    let segs = as_strs(&dir);
    proof {
        assert(types::str_views(segs@) =~= dir_parts(ctx.rel_path@).push(
            file_name(ctx.rel_path@),
        ));
        assert(types::node_views(r.nodes@) =~= seq![file_node(ctx@)]);
        assert(types::node_views(r.nodes@) =~= seq![file_node(ctx@)] + definitions(ctx@, all, 0));
    }
    let mut owner: Vec<usize> = Vec::new();
    let mut stack: Vec<usize> = Vec::new();
    assert(is_chain(all, stack@, 0)) by {
        reveal(is_chain);
    }
    let mut i: usize = 0;
    while i < nodes.len()
        invariant
            i <= nodes.len(),
            all == syntax_views(nodes@),
            types::str_views(segs@) == dir_parts(ctx.rel_path@).push(file_name(ctx.rel_path@)),
            r.only_nodes_and_calls(),
            types::node_views(r.nodes@) == seq![file_node(ctx@)] + definitions(
                ctx@,
                all,
                i as nat,
            ),
            types::call_views(r.calls@) == calls_made(ctx@, all, i as nat),
            is_chain(all, stack@, i as int),
            owner@.len() == i,
            forall|j: int|
                #![trigger owner@[j]]
                0 <= j < i ==> owner@[j] < r.nodes@.len() && function_of(ctx@, all, j) == (
                if owner@[j] == 0 {
                    None
                } else {
                    Some(r.nodes@[owner@[j] as int].id@)
                }),
        decreases nodes.len() - i,
    {
        assert(all[i as int] == nodes@[i as int]@);
        pop_to_parent(nodes, &mut stack, i);
        let around: usize = if stack.len() > 0 {
            owner[stack[stack.len() - 1]]
        } else {
            0
        };
        let ghost n0 = types::node_views(r.nodes@);
        assert(n0.len() == r.nodes@.len());
        assert(n0.len() > 0);
        assert(n0[0] == file_node(ctx@));
        assert(n0[0] == r.nodes@[0]@);
        assert(around < r.nodes@.len());
        assert(function_around(ctx@, all, i as int) == (if around == 0 {
            None
        } else {
            Some(r.nodes@[around as int].id@)
        }));
        if let Some(call) = call_of(ctx, nodes, i, &r.nodes[around].id) {
            let ghost before = types::call_views(r.calls@);
            r.calls.push(call);
            assert(types::call_views(r.calls@) =~= before.push(call@));
        }
        let mut own: usize = around;
        let ghost before = r.nodes@;
        if let Some(n) = define(ctx, &segs, nodes, i) {
            if n.label == NodeLabel::Function || n.label == NodeLabel::Method {
                own = r.nodes.len();
            }
            r.nodes.push(n);
            assert(types::node_views(r.nodes@) =~= n0.push(n@));
            assert((seq![file_node(ctx@)] + definitions(ctx@, all, i as nat)).push(n@) =~= seq![
                file_node(ctx@),
            ] + definitions(ctx@, all, i as nat).push(n@));
        }
        proof {
            assert forall|j: int| 0 <= j < before.len() implies #[trigger] r.nodes@[j]
                == before[j] by {}
        }
        owner.push(own);
        stack.push(i);
        i += 1;
    }
    r
}


/// What is found in a file: the walk over its syntax tree, or nothing where
/// the language's grammar cannot be used. See [`parsed`].
pub fn parse_with(ctx: &FileContext) -> (r: ParsedFile)
    ensures
        r.model() == parsed(ctx@),
        r.only_nodes_and_calls(),
{
    match syntax_tree(ctx.language, ctx.source) {
        Some(tree) => collect(ctx, &walk_tree(&tree)),
        None => ParsedFile::empty(),
    }
}

/// What is found in a Rust file.
pub fn parse_rust(project: &str, rel_path: &str, source: &str) -> (r: ParsedFile)
    ensures
        r.model() == parsed(
            ContextModel {
                language: Language::Rust,
                project: project@,
                rel_path: rel_path@,
                source: source@,
            },
        ),
        r.only_nodes_and_calls(),
{
    parse_with(&FileContext { language: Language::Rust, project, rel_path, source })
}

/// What is found in a Python file.
pub fn parse_python(project: &str, rel_path: &str, source: &str) -> (r: ParsedFile)
    ensures
        r.model() == parsed(
            ContextModel {
                language: Language::Python,
                project: project@,
                rel_path: rel_path@,
                source: source@,
            },
        ),
        r.only_nodes_and_calls(),
{
    parse_with(&FileContext { language: Language::Python, project, rel_path, source })
}

/// What is found in a JavaScript file.
pub fn parse_js(project: &str, rel_path: &str, source: &str) -> (r: ParsedFile)
    ensures
        r.model() == parsed(
            ContextModel {
                language: Language::JavaScript,
                project: project@,
                rel_path: rel_path@,
                source: source@,
            },
        ),
        r.only_nodes_and_calls(),
{
    parse_with(&FileContext { language: Language::JavaScript, project, rel_path, source })
}

/// What is found in a TypeScript file.
pub fn parse_ts(project: &str, rel_path: &str, source: &str) -> (r: ParsedFile)
    ensures
        r.model() == parsed(
            ContextModel {
                language: Language::TypeScript,
                project: project@,
                rel_path: rel_path@,
                source: source@,
            },
        ),
        r.only_nodes_and_calls(),
{
    parse_with(&FileContext { language: Language::TypeScript, project, rel_path, source })
}

/// What is found in a TypeScript with JSX file.
pub fn parse_tsx(project: &str, rel_path: &str, source: &str) -> (r: ParsedFile)
    ensures
        r.model() == parsed(
            ContextModel {
                language: Language::Tsx,
                project: project@,
                rel_path: rel_path@,
                source: source@,
            },
        ),
        r.only_nodes_and_calls(),
{
    parse_with(&FileContext { language: Language::Tsx, project, rel_path, source })
}

/// What is found in a Go file.
pub fn parse_go(project: &str, rel_path: &str, source: &str) -> (r: ParsedFile)
    ensures
        r.model() == parsed(
            ContextModel {
                language: Language::Go,
                project: project@,
                rel_path: rel_path@,
                source: source@,
            },
        ),
        r.only_nodes_and_calls(),
{
    parse_with(&FileContext { language: Language::Go, project, rel_path, source })
}

/// What follows the last dot of a path: the whole path where it has none.
pub open spec fn extension(path: Seq<char>) -> Seq<char> {
    text::split_char(path, '.').last()
}

/// The language of a file, by its extension.
pub open spec fn language_of(path: Seq<char>) -> Option<Language> {
    let ext = extension(path);
    if ext == "rs"@ {
        Some(Language::Rust)
    } else if ext == "py"@ || ext == "pyi"@ {
        Some(Language::Python)
    } else if ext == "js"@ || ext == "jsx"@ || ext == "mjs"@ || ext == "cjs"@ {
        Some(Language::JavaScript)
    } else if ext == "ts"@ || ext == "mts"@ || ext == "cts"@ {
        Some(Language::TypeScript)
    } else if ext == "tsx"@ {
        Some(Language::Tsx)
    } else if ext == "go"@ {
        Some(Language::Go)
    } else {
        None
    }
}

proof fn lemma_split_some(s: Seq<char>, sep: char)
    ensures
        text::split_char(s, sep).len() > 0,
    decreases s.len(),
{
    if s.len() > 0 {
        lemma_split_some(s.drop_last(), sep);
    }
}

/// See [`extension`].
pub fn extension_of(path: &str) -> (r: String)
    ensures
        r@ == extension(path@),
{
    let mut pieces = text::split_on(path, '.');
    proof {
        lemma_split_some(path@, '.');
        assert(text::views(pieces@).len() == pieces@.len());
        assert(text::views(pieces@).last() == pieces@.last()@);
    }
    match pieces.pop() {
        Some(s) => s,
        None => String::new(),
    }
}

/// See [`language_of`].
pub fn language_for(path: &str) -> (r: Option<Language>)
    ensures
        r == language_of(path@),
{
    let owned = extension_of(path);
    let ext = owned.as_str();
    if text::same(ext, "rs") {
        Some(Language::Rust)
    } else if text::same(ext, "py") || text::same(ext, "pyi") {
        Some(Language::Python)
    } else if text::same(ext, "js") || text::same(ext, "jsx") || text::same(ext, "mjs")
        || text::same(ext, "cjs") {
        Some(Language::JavaScript)
    } else if text::same(ext, "ts") || text::same(ext, "mts") || text::same(ext, "cts") {
        Some(Language::TypeScript)
    } else if text::same(ext, "tsx") {
        Some(Language::Tsx)
    } else if text::same(ext, "go") {
        Some(Language::Go)
    } else {
        None
    }
}

/// What is found in a file, by the language of its extension; nothing where
/// that is unknown.
pub fn parse_file(project: &str, rel_path: &str, source: &str) -> (r: ParsedFile)
    ensures
        r.model() == (match language_of(rel_path@) {
            Some(language) => parsed(
                ContextModel {
                    language,
                    project: project@,
                    rel_path: rel_path@,
                    source: source@,
                },
            ),
            None => ParsedModel { nodes: Seq::empty(), calls: Seq::empty() },
        }),
        r.only_nodes_and_calls(),
{
    match language_for(rel_path) {
        Some(Language::Rust) => parse_rust(project, rel_path, source),
        Some(Language::Python) => parse_python(project, rel_path, source),
        Some(Language::JavaScript) => parse_js(project, rel_path, source),
        Some(Language::TypeScript) => parse_ts(project, rel_path, source),
        Some(Language::Tsx) => parse_tsx(project, rel_path, source),
        Some(Language::Go) => parse_go(project, rel_path, source),
        None => ParsedFile::empty(),
    }
}

/// Whatever a file holds, its nodes carry its path and no metadata, the first of
/// them alone stands for the file, and its calls are made by one of its nodes.
pub proof fn law_parsed_file_is_closed(ctx: ContextModel, nodes: Seq<SyntaxModel>)
    ensures
        file_model(ctx, nodes).nodes[0] == file_node(ctx),
        forall|i: int|
            0 <= i < file_model(ctx, nodes).nodes.len() ==> (#[trigger] file_model(
                ctx,
                nodes,
            ).nodes[i]).file_path == ctx.rel_path && (file_model(ctx, nodes).nodes[i].label
                == NodeLabel::File) == (i == 0) && file_model(ctx, nodes).nodes[i].metadata.len()
                == 0,
        forall|i: int|
            0 <= i < file_model(ctx, nodes).calls.len() ==> exists|j: int|
                0 <= j < file_model(ctx, nodes).nodes.len() && (#[trigger] file_model(
                    ctx,
                    nodes,
                ).nodes[j]).id == (#[trigger] file_model(ctx, nodes).calls[i]).caller_id,
{
    let m = file_model(ctx, nodes);
    let defs = definitions(ctx, nodes, nodes.len());
    lemma_definitions_path(ctx, nodes, nodes.len());
    lemma_calls_owned(ctx, nodes, nodes.len());
    assert forall|i: int| 0 <= i < m.nodes.len() implies (#[trigger] m.nodes[i]).file_path
        == ctx.rel_path && (m.nodes[i].label == NodeLabel::File) == (i == 0)
        && m.nodes[i].metadata.len() == 0 by {
        if i > 0 {
            assert(m.nodes[i] == defs[i - 1]);
        }
    }
    assert forall|i: int| 0 <= i < m.calls.len() implies exists|j: int|
        0 <= j < m.nodes.len() && (#[trigger] m.nodes[j]).id == (
        #[trigger] m.calls[i]).caller_id by {
        assert(owned(ctx, defs, m.calls[i]));
        if m.calls[i].caller_id == file_node_id(ctx) {
            assert(m.nodes[0].id == m.calls[i].caller_id);
        } else {
            let j = choose|j: int|
                0 <= j < defs.len() && (#[trigger] defs[j]).id == m.calls[i].caller_id;
            assert(m.nodes[j + 1] == defs[j]);
        }
    }
}

spec fn owned(ctx: ContextModel, defs: Seq<NodeModel>, c: CallModel) -> bool {
    c.caller_id == file_node_id(ctx) || exists|j: int|
        0 <= j < defs.len() && (#[trigger] defs[j]).id == c.caller_id
}

proof fn lemma_definitions_path(ctx: ContextModel, nodes: Seq<SyntaxModel>, k: nat)
    ensures
        forall|i: int|
            0 <= i < definitions(ctx, nodes, k).len() ==> (#[trigger] definitions(
                ctx,
                nodes,
                k,
            )[i]).file_path == ctx.rel_path && definitions(ctx, nodes, k)[i].label
                != NodeLabel::File && definitions(ctx, nodes, k)[i].metadata.len() == 0,
    decreases k,
{
    if k > 0 {
        lemma_definitions_path(ctx, nodes, (k - 1) as nat);
    }
}

proof fn lemma_defined_at(ctx: ContextModel, nodes: Seq<SyntaxModel>, k: nat, i: int)
    requires
        0 <= i < k,
        definition(ctx, nodes, i) is Some,
    ensures
        definitions(ctx, nodes, k).contains(definition(ctx, nodes, i)->0),
    decreases k,
{
    let now = definitions(ctx, nodes, k);
    let rest = definitions(ctx, nodes, (k - 1) as nat);
    let n = definition(ctx, nodes, i)->0;
    if i == k - 1 {
        assert(now[rest.len() as int] == n);
    } else {
        lemma_defined_at(ctx, nodes, (k - 1) as nat, i);
        let j = choose|j: int| 0 <= j < rest.len() && rest[j] == n;
        assert(now[j] == n);
    }
}

proof fn lemma_function_of(ctx: ContextModel, nodes: Seq<SyntaxModel>, k: nat, i: int)
    requires
        0 <= i < k,
        function_of(ctx, nodes, i) is Some,
    ensures
        exists|j: int|
            0 <= j < definitions(ctx, nodes, k).len() && (#[trigger] definitions(
                ctx,
                nodes,
                k,
            )[j]).id == function_of(ctx, nodes, i)->0,
    decreases i,
{
    let own = match definition(ctx, nodes, i) {
        Some(n) => n.label == NodeLabel::Function || n.label == NodeLabel::Method,
        None => false,
    };
    if own {
        lemma_defined_at(ctx, nodes, k, i);
        let defs = definitions(ctx, nodes, k);
        let j = choose|j: int| 0 <= j < defs.len() && defs[j] == definition(ctx, nodes, i)->0;
        assert(defs[j].id == function_of(ctx, nodes, i)->0);
    } else {
        lemma_function_of(ctx, nodes, k, parent(nodes, i)->0);
    }
}

proof fn lemma_calls_owned(ctx: ContextModel, nodes: Seq<SyntaxModel>, k: nat)
    requires
        k <= nodes.len(),
    ensures
        forall|i: int|
            0 <= i < calls_made(ctx, nodes, k).len() ==> owned(
                ctx,
                definitions(ctx, nodes, nodes.len()),
                #[trigger] calls_made(ctx, nodes, k)[i],
            ),
    decreases k,
{
    if k > 0 {
        lemma_calls_owned(ctx, nodes, (k - 1) as nat);
        let rest = calls_made(ctx, nodes, (k - 1) as nat);
        let now = calls_made(ctx, nodes, k);
        let defs = definitions(ctx, nodes, nodes.len());
        assert forall|i: int| 0 <= i < now.len() implies owned(ctx, defs, #[trigger] now[i]) by {
            if i < rest.len() {
                assert(now[i] == rest[i]);
            } else if function_around(ctx, nodes, k - 1) is Some {
                lemma_function_of(ctx, nodes, nodes.len(), parent(nodes, k - 1)->0);
            }
        }
    }
}

} // verus!
