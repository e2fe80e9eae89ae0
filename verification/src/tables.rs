//! The rows of the store's tables.

use vstd::prelude::*;

use crate::rows::{Keyed, Row};
use crate::text;
use crate::types::{
    CallModel, Edge, EdgeKey, EdgeModel, Hyperedge, HyperedgeMember, HyperedgeModel, InheritKind,
    MemberModel, Node, NodeModel, RawCall,
};

verus! {

/// A call site with its file.
#[derive(Debug, PartialEq, Eq)]
pub struct CallRow {
    pub call: RawCall,
    pub file_path: String,
}

/// The model of a [`CallRow`].
pub struct CallRowModel {
    pub call: CallModel,
    pub file_path: Seq<char>,
}

impl View for CallRow {
    type V = CallRowModel;

    open spec fn view(&self) -> CallRowModel {
        CallRowModel {
            call: self.call@,
            file_path: self.file_path@,
        }
    }
}

impl Row for CallRow {
    fn copy(&self) -> (r: CallRow) {
        CallRow {
            call: self.call.clone(),
            file_path: self.file_path.clone(),
        }
    }
}

impl Clone for CallRow {
    fn clone(&self) -> (r: CallRow)
        ensures
            r@ == self@,
    {
        self.copy()
    }
}

/// A supertype clause with its file.
#[derive(Debug, PartialEq, Eq)]
pub struct InheritRow {
    pub impl_name: String,
    pub super_name: String,
    pub kind: InheritKind,
    pub file_path: String,
}

/// The model of a [`InheritRow`].
pub struct InheritRowModel {
    pub impl_name: Seq<char>,
    pub super_name: Seq<char>,
    pub kind: InheritKind,
    pub file_path: Seq<char>,
}

impl View for InheritRow {
    type V = InheritRowModel;

    open spec fn view(&self) -> InheritRowModel {
        InheritRowModel {
            impl_name: self.impl_name@,
            super_name: self.super_name@,
            kind: self.kind,
            file_path: self.file_path@,
        }
    }
}

impl Row for InheritRow {
    fn copy(&self) -> (r: InheritRow) {
        InheritRow {
            impl_name: self.impl_name.clone(),
            super_name: self.super_name.clone(),
            kind: self.kind,
            file_path: self.file_path.clone(),
        }
    }
}

impl Clone for InheritRow {
    fn clone(&self) -> (r: InheritRow)
        ensures
            r@ == self@,
    {
        self.copy()
    }
}

/// A typed field with its file.
#[derive(Debug, PartialEq, Eq)]
pub struct FieldRow {
    pub class_id: String,
    pub field_name: String,
    pub declared_type: String,
    pub file_path: String,
}

/// The model of a [`FieldRow`].
pub struct FieldRowModel {
    pub class_id: Seq<char>,
    pub field_name: Seq<char>,
    pub declared_type: Seq<char>,
    pub file_path: Seq<char>,
}

impl View for FieldRow {
    type V = FieldRowModel;

    open spec fn view(&self) -> FieldRowModel {
        FieldRowModel {
            class_id: self.class_id@,
            field_name: self.field_name@,
            declared_type: self.declared_type@,
            file_path: self.file_path@,
        }
    }
}

impl Row for FieldRow {
    fn copy(&self) -> (r: FieldRow) {
        FieldRow {
            class_id: self.class_id.clone(),
            field_name: self.field_name.clone(),
            declared_type: self.declared_type.clone(),
            file_path: self.file_path.clone(),
        }
    }
}

impl Clone for FieldRow {
    fn clone(&self) -> (r: FieldRow)
        ensures
            r@ == self@,
    {
        self.copy()
    }
}

/// A typed local variable with its file.
#[derive(Debug, PartialEq, Eq)]
pub struct LocalRow {
    pub caller_id: String,
    pub var_name: String,
    pub declared_type: String,
    pub file_path: String,
}

/// The model of a [`LocalRow`].
pub struct LocalRowModel {
    pub caller_id: Seq<char>,
    pub var_name: Seq<char>,
    pub declared_type: Seq<char>,
    pub file_path: Seq<char>,
}

impl View for LocalRow {
    type V = LocalRowModel;

    open spec fn view(&self) -> LocalRowModel {
        LocalRowModel {
            caller_id: self.caller_id@,
            var_name: self.var_name@,
            declared_type: self.declared_type@,
            file_path: self.file_path@,
        }
    }
}

impl Row for LocalRow {
    fn copy(&self) -> (r: LocalRow) {
        LocalRow {
            caller_id: self.caller_id.clone(),
            var_name: self.var_name.clone(),
            declared_type: self.declared_type.clone(),
            file_path: self.file_path.clone(),
        }
    }
}

impl Clone for LocalRow {
    fn clone(&self) -> (r: LocalRow)
        ensures
            r@ == self@,
    {
        self.copy()
    }
}

/// An import with its file.
#[derive(Debug, PartialEq, Eq)]
pub struct ImportRow {
    pub file_path: String,
    pub name: String,
    pub module: String,
}

/// The model of a [`ImportRow`].
pub struct ImportRowModel {
    pub file_path: Seq<char>,
    pub name: Seq<char>,
    pub module: Seq<char>,
}

impl View for ImportRow {
    type V = ImportRowModel;

    open spec fn view(&self) -> ImportRowModel {
        ImportRowModel {
            file_path: self.file_path@,
            name: self.name@,
            module: self.module@,
        }
    }
}

impl Row for ImportRow {
    fn copy(&self) -> (r: ImportRow) {
        ImportRow {
            file_path: self.file_path.clone(),
            name: self.name.clone(),
            module: self.module.clone(),
        }
    }
}

impl Clone for ImportRow {
    fn clone(&self) -> (r: ImportRow)
        ensures
            r@ == self@,
    {
        self.copy()
    }
}

/// A mention of a type in a file.
#[derive(Debug, PartialEq, Eq)]
pub struct TypeRef {
    pub file_path: String,
    pub name: String,
}

/// The model of a [`TypeRef`].
pub struct TypeRefModel {
    pub file_path: Seq<char>,
    pub name: Seq<char>,
}

impl View for TypeRef {
    type V = TypeRefModel;

    open spec fn view(&self) -> TypeRefModel {
        TypeRefModel {
            file_path: self.file_path@,
            name: self.name@,
        }
    }
}

impl Row for TypeRef {
    fn copy(&self) -> (r: TypeRef) {
        TypeRef {
            file_path: self.file_path.clone(),
            name: self.name.clone(),
        }
    }
}

impl Clone for TypeRef {
    fn clone(&self) -> (r: TypeRef)
        ensures
            r@ == self@,
    {
        self.copy()
    }
}

/// What is known of an indexed file: the hash of its bytes and when it was
/// changed.
#[derive(Debug, PartialEq, Eq)]
pub struct ManifestEntry {
    pub file_path: String,
    pub sha256: String,
    pub mtime: i64,
}

/// The model of a [`ManifestEntry`].
pub struct ManifestEntryModel {
    pub file_path: Seq<char>,
    pub sha256: Seq<char>,
    pub mtime: i64,
}

impl View for ManifestEntry {
    type V = ManifestEntryModel;

    open spec fn view(&self) -> ManifestEntryModel {
        ManifestEntryModel {
            file_path: self.file_path@,
            sha256: self.sha256@,
            mtime: self.mtime,
        }
    }
}

impl Row for ManifestEntry {
    fn copy(&self) -> (r: ManifestEntry) {
        ManifestEntry {
            file_path: self.file_path.clone(),
            sha256: self.sha256.clone(),
            mtime: self.mtime,
        }
    }
}

impl Clone for ManifestEntry {
    fn clone(&self) -> (r: ManifestEntry)
        ensures
            r@ == self@,
    {
        self.copy()
    }
}

impl Keyed for ManifestEntry {
    type Key = Seq<char>;

    open spec fn key(m: ManifestEntryModel) -> Seq<char> {
        m.file_path
    }

    fn same_key(&self, other: &ManifestEntry) -> (r: bool) {
        text::same(self.file_path.as_str(), other.file_path.as_str())
    }
}

/// A summary of a path.
#[derive(Debug, PartialEq, Eq)]
pub struct ContextEntry {
    pub path: String,
    pub summary: String,
    pub added_at: i64,
}

/// The model of a [`ContextEntry`].
pub struct ContextEntryModel {
    pub path: Seq<char>,
    pub summary: Seq<char>,
    pub added_at: i64,
}

impl View for ContextEntry {
    type V = ContextEntryModel;

    open spec fn view(&self) -> ContextEntryModel {
        ContextEntryModel {
            path: self.path@,
            summary: self.summary@,
            added_at: self.added_at,
        }
    }
}

impl Row for ContextEntry {
    fn copy(&self) -> (r: ContextEntry) {
        ContextEntry {
            path: self.path.clone(),
            summary: self.summary.clone(),
            added_at: self.added_at,
        }
    }
}

impl Clone for ContextEntry {
    fn clone(&self) -> (r: ContextEntry)
        ensures
            r@ == self@,
    {
        self.copy()
    }
}

impl Keyed for ContextEntry {
    type Key = (Seq<char>, Seq<char>);

    open spec fn key(m: ContextEntryModel) -> (Seq<char>, Seq<char>) {
        (m.path, m.summary)
    }

    fn same_key(&self, other: &ContextEntry) -> (r: bool) {
        text::same(self.path.as_str(), other.path.as_str()) && text::same(self.summary.as_str(), other.summary.as_str())
    }
}

/// A fact about the whole index.
#[derive(Debug, PartialEq, Eq)]
pub struct MetaRow {
    pub name: String,
    pub value: String,
}

/// The model of a [`MetaRow`].
pub struct MetaRowModel {
    pub name: Seq<char>,
    pub value: Seq<char>,
}

impl View for MetaRow {
    type V = MetaRowModel;

    open spec fn view(&self) -> MetaRowModel {
        MetaRowModel {
            name: self.name@,
            value: self.value@,
        }
    }
}

impl Row for MetaRow {
    fn copy(&self) -> (r: MetaRow) {
        MetaRow {
            name: self.name.clone(),
            value: self.value.clone(),
        }
    }
}

impl Clone for MetaRow {
    fn clone(&self) -> (r: MetaRow)
        ensures
            r@ == self@,
    {
        self.copy()
    }
}

impl Keyed for MetaRow {
    type Key = Seq<char>;

    open spec fn key(m: MetaRowModel) -> Seq<char> {
        m.name
    }

    fn same_key(&self, other: &MetaRow) -> (r: bool) {
        text::same(self.name.as_str(), other.name.as_str())
    }
}

/// How often two files changed together.
#[derive(Debug, PartialEq, Eq)]
pub struct CoChange {
    pub file_a: String,
    pub file_b: String,
    pub n: u32,
}

/// The model of a [`CoChange`].
pub struct CoChangeModel {
    pub file_a: Seq<char>,
    pub file_b: Seq<char>,
    pub n: u32,
}

impl View for CoChange {
    type V = CoChangeModel;

    open spec fn view(&self) -> CoChangeModel {
        CoChangeModel {
            file_a: self.file_a@,
            file_b: self.file_b@,
            n: self.n,
        }
    }
}

impl Row for CoChange {
    fn copy(&self) -> (r: CoChange) {
        CoChange {
            file_a: self.file_a.clone(),
            file_b: self.file_b.clone(),
            n: self.n,
        }
    }
}

impl Clone for CoChange {
    fn clone(&self) -> (r: CoChange)
        ensures
            r@ == self@,
    {
        self.copy()
    }
}

impl Keyed for CoChange {
    type Key = (Seq<char>, Seq<char>);

    open spec fn key(m: CoChangeModel) -> (Seq<char>, Seq<char>) {
        (m.file_a, m.file_b)
    }

    fn same_key(&self, other: &CoChange) -> (r: bool) {
        text::same(self.file_a.as_str(), other.file_a.as_str()) && text::same(self.file_b.as_str(), other.file_b.as_str())
    }
}

/// The embedding of a node: the bits of its single-precision numbers.
#[derive(Debug, PartialEq, Eq)]
pub struct VectorRow {
    pub node_id: String,
    pub bits: Vec<u32>,
}

/// The model of a [`VectorRow`].
pub struct VectorRowModel {
    pub node_id: Seq<char>,
    pub bits: Seq<u32>,
}

impl View for VectorRow {
    type V = VectorRowModel;

    open spec fn view(&self) -> VectorRowModel {
        VectorRowModel {
            node_id: self.node_id@,
            bits: self.bits@,
        }
    }
}

impl Row for VectorRow {
    fn copy(&self) -> (r: VectorRow) {
        VectorRow {
            node_id: self.node_id.clone(),
            bits: self.bits.clone(),
        }
    }
}

impl Clone for VectorRow {
    fn clone(&self) -> (r: VectorRow)
        ensures
            r@ == self@,
    {
        self.copy()
    }
}

impl Keyed for VectorRow {
    type Key = Seq<char>;

    open spec fn key(m: VectorRowModel) -> Seq<char> {
        m.node_id
    }

    fn same_key(&self, other: &VectorRow) -> (r: bool) {
        text::same(self.node_id.as_str(), other.node_id.as_str())
    }
}

impl Row for Node {
    fn copy(&self) -> (r: Node) {
        self.clone()
    }
}

impl Keyed for Node {
    type Key = Seq<char>;

    open spec fn key(m: NodeModel) -> Seq<char> {
        m.id
    }

    fn same_key(&self, other: &Node) -> (r: bool) {
        text::same(self.id.as_str(), other.id.as_str())
    }
}

impl Row for Edge {
    fn copy(&self) -> (r: Edge) {
        self.clone()
    }
}

impl Keyed for Edge {
    type Key = EdgeKey;

    open spec fn key(m: EdgeModel) -> EdgeKey {
        m.key()
    }

    fn same_key(&self, other: &Edge) -> (r: bool) {
        text::same(self.src.as_str(), other.src.as_str()) && text::same(
            self.dst.as_str(),
            other.dst.as_str(),
        ) && self.relation == other.relation
    }
}

impl Row for Hyperedge {
    fn copy(&self) -> (r: Hyperedge) {
        self.clone()
    }
}

impl Keyed for Hyperedge {
    type Key = Seq<char>;

    open spec fn key(m: HyperedgeModel) -> Seq<char> {
        m.id
    }

    fn same_key(&self, other: &Hyperedge) -> (r: bool) {
        text::same(self.id.as_str(), other.id.as_str())
    }
}

impl Row for HyperedgeMember {
    fn copy(&self) -> (r: HyperedgeMember) {
        self.clone()
    }
}

impl Keyed for HyperedgeMember {
    type Key = (Seq<char>, Seq<char>);

    open spec fn key(m: MemberModel) -> (Seq<char>, Seq<char>) {
        (m.hyperedge_id, m.node_id)
    }

    fn same_key(&self, other: &HyperedgeMember) -> (r: bool) {
        text::same(self.hyperedge_id.as_str(), other.hyperedge_id.as_str()) && text::same(
            self.node_id.as_str(),
            other.node_id.as_str(),
        )
    }
}

impl Row for RawCall {
    fn copy(&self) -> (r: RawCall) {
        self.clone()
    }
}

} // verus!
