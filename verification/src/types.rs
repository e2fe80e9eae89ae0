//! The nodes and edges of a code graph, the facts a parser finds in a file,
//! and the deterministic ids of nodes.

use vstd::prelude::*;
use vstd::string::*;

use crate::rows;
use crate::text;

verus! {

/// What a graph node represents.
#[derive(Debug, Clone, Copy, PartialEq, Eq, Hash, Structural)]
pub enum NodeLabel {
    Project,
    Package,
    Folder,
    File,
    Module,
    Class,
    Function,
    Method,
    Interface,
    Enum,
    Type,
    Route,
    Resource,
    Document,
    Image,
    Figure,
    Topic,
    /// Made only where a language model is available.
    Concept,
}

impl NodeLabel {
    /// The name under which the value is stored and shown.
    pub open spec fn text(self) -> Seq<char> {
        match self {
            NodeLabel::Project => "Project"@,
            NodeLabel::Package => "Package"@,
            NodeLabel::Folder => "Folder"@,
            NodeLabel::File => "File"@,
            NodeLabel::Module => "Module"@,
            NodeLabel::Class => "Class"@,
            NodeLabel::Function => "Function"@,
            NodeLabel::Method => "Method"@,
            NodeLabel::Interface => "Interface"@,
            NodeLabel::Enum => "Enum"@,
            NodeLabel::Type => "Type"@,
            NodeLabel::Route => "Route"@,
            NodeLabel::Resource => "Resource"@,
            NodeLabel::Document => "Document"@,
            NodeLabel::Image => "Image"@,
            NodeLabel::Figure => "Figure"@,
            NodeLabel::Topic => "Topic"@,
            NodeLabel::Concept => "Concept"@,
        }
    }

    /// See [`NodeLabel::text`].
    pub fn as_str(self) -> (r: &'static str)
        ensures
            r@ == self.text(),
    {
        match self {
            NodeLabel::Project => "Project",
            NodeLabel::Package => "Package",
            NodeLabel::Folder => "Folder",
            NodeLabel::File => "File",
            NodeLabel::Module => "Module",
            NodeLabel::Class => "Class",
            NodeLabel::Function => "Function",
            NodeLabel::Method => "Method",
            NodeLabel::Interface => "Interface",
            NodeLabel::Enum => "Enum",
            NodeLabel::Type => "Type",
            NodeLabel::Route => "Route",
            NodeLabel::Resource => "Resource",
            NodeLabel::Document => "Document",
            NodeLabel::Image => "Image",
            NodeLabel::Figure => "Figure",
            NodeLabel::Topic => "Topic",
            NodeLabel::Concept => "Concept",
        }
    }

    /// The value stored under the given name.
    pub fn from_name(s: &str) -> (r: Option<NodeLabel>)
        ensures
            match r {
                Some(v) => v.text() == s@,
                None => forall|v: NodeLabel| #[trigger] v.text() != s@,
            },
    {
        if text::same(s, "Project") {
            Some(NodeLabel::Project)
        } else if text::same(s, "Package") {
            Some(NodeLabel::Package)
        } else if text::same(s, "Folder") {
            Some(NodeLabel::Folder)
        } else if text::same(s, "File") {
            Some(NodeLabel::File)
        } else if text::same(s, "Module") {
            Some(NodeLabel::Module)
        } else if text::same(s, "Class") {
            Some(NodeLabel::Class)
        } else if text::same(s, "Function") {
            Some(NodeLabel::Function)
        } else if text::same(s, "Method") {
            Some(NodeLabel::Method)
        } else if text::same(s, "Interface") {
            Some(NodeLabel::Interface)
        } else if text::same(s, "Enum") {
            Some(NodeLabel::Enum)
        } else if text::same(s, "Type") {
            Some(NodeLabel::Type)
        } else if text::same(s, "Route") {
            Some(NodeLabel::Route)
        } else if text::same(s, "Resource") {
            Some(NodeLabel::Resource)
        } else if text::same(s, "Document") {
            Some(NodeLabel::Document)
        } else if text::same(s, "Image") {
            Some(NodeLabel::Image)
        } else if text::same(s, "Figure") {
            Some(NodeLabel::Figure)
        } else if text::same(s, "Topic") {
            Some(NodeLabel::Topic)
        } else if text::same(s, "Concept") {
            Some(NodeLabel::Concept)
        } else {
            None
        }
    }
}

/// No two values of [`NodeLabel`] share a name, so a stored value reads back as itself.
pub proof fn law_node_label_names_distinct(a: NodeLabel, b: NodeLabel)
    ensures
        a.text() == b.text() ==> a == b,
{
    reveal_strlit("Project");
    reveal_strlit("Package");
    reveal_strlit("Folder");
    reveal_strlit("File");
    reveal_strlit("Module");
    reveal_strlit("Class");
    reveal_strlit("Function");
    reveal_strlit("Method");
    reveal_strlit("Interface");
    reveal_strlit("Enum");
    reveal_strlit("Type");
    reveal_strlit("Route");
    reveal_strlit("Resource");
    reveal_strlit("Document");
    reveal_strlit("Image");
    reveal_strlit("Figure");
    reveal_strlit("Topic");
    reveal_strlit("Concept");
    if a.text() == b.text() {
        assert(a.text().len() == b.text().len());
        assert(a.text()[0] == b.text()[0]);
        assert(a.text()[1] == b.text()[1]);
        assert(a.text()[2] == b.text()[2]);
        assert(a.text()[3] == b.text()[3]);
        assert(a.text()[4] == b.text()[4]);
        assert(a.text()[5] == b.text()[5]);
        assert(a.text()[6] == b.text()[6]);
        assert(a.text()[7] == b.text()[7]);
        assert(a.text()[8] == b.text()[8]);
    }
}

/// How the source of an edge relates to its target.
#[derive(Debug, Clone, Copy, PartialEq, Eq, Hash, Structural)]
pub enum EdgeRelation {
    Calls,
    AsyncCalls,
    UsesType,
    Implements,
    Inherits,
    Defines,
    MemberOf,
    Contains,
    ContainsFile,
    ContainsFolder,
    ContainsPackage,
    Override,
    HttpCalls,
    Emits,
    ListensOn,
    PublishesTo,
    SubscribesTo,
    Configures,
    Tests,
    FileChangesWith,
    Similar,
    SemanticallySimilar,
    DataFlows,
    ConceptuallyRelated,
    RationaleFor,
    ParticipateIn,
    Implement,
    Form,
    MemberOfFlow,
}

impl EdgeRelation {
    /// The name under which the value is stored and shown.
    pub open spec fn text(self) -> Seq<char> {
        match self {
            EdgeRelation::Calls => "Calls"@,
            EdgeRelation::AsyncCalls => "AsyncCalls"@,
            EdgeRelation::UsesType => "UsesType"@,
            EdgeRelation::Implements => "Implements"@,
            EdgeRelation::Inherits => "Inherits"@,
            EdgeRelation::Defines => "Defines"@,
            EdgeRelation::MemberOf => "MemberOf"@,
            EdgeRelation::Contains => "Contains"@,
            EdgeRelation::ContainsFile => "ContainsFile"@,
            EdgeRelation::ContainsFolder => "ContainsFolder"@,
            EdgeRelation::ContainsPackage => "ContainsPackage"@,
            EdgeRelation::Override => "Override"@,
            EdgeRelation::HttpCalls => "HttpCalls"@,
            EdgeRelation::Emits => "Emits"@,
            EdgeRelation::ListensOn => "ListensOn"@,
            EdgeRelation::PublishesTo => "PublishesTo"@,
            EdgeRelation::SubscribesTo => "SubscribesTo"@,
            EdgeRelation::Configures => "Configures"@,
            EdgeRelation::Tests => "Tests"@,
            EdgeRelation::FileChangesWith => "FileChangesWith"@,
            EdgeRelation::Similar => "Similar"@,
            EdgeRelation::SemanticallySimilar => "SemanticallySimilar"@,
            EdgeRelation::DataFlows => "DataFlows"@,
            EdgeRelation::ConceptuallyRelated => "ConceptuallyRelated"@,
            EdgeRelation::RationaleFor => "RationaleFor"@,
            EdgeRelation::ParticipateIn => "ParticipateIn"@,
            EdgeRelation::Implement => "Implement"@,
            EdgeRelation::Form => "Form"@,
            EdgeRelation::MemberOfFlow => "MemberOfFlow"@,
        }
    }

    /// See [`EdgeRelation::text`].
    pub fn as_str(self) -> (r: &'static str)
        ensures
            r@ == self.text(),
    {
        match self {
            EdgeRelation::Calls => "Calls",
            EdgeRelation::AsyncCalls => "AsyncCalls",
            EdgeRelation::UsesType => "UsesType",
            EdgeRelation::Implements => "Implements",
            EdgeRelation::Inherits => "Inherits",
            EdgeRelation::Defines => "Defines",
            EdgeRelation::MemberOf => "MemberOf",
            EdgeRelation::Contains => "Contains",
            EdgeRelation::ContainsFile => "ContainsFile",
            EdgeRelation::ContainsFolder => "ContainsFolder",
            EdgeRelation::ContainsPackage => "ContainsPackage",
            EdgeRelation::Override => "Override",
            EdgeRelation::HttpCalls => "HttpCalls",
            EdgeRelation::Emits => "Emits",
            EdgeRelation::ListensOn => "ListensOn",
            EdgeRelation::PublishesTo => "PublishesTo",
            EdgeRelation::SubscribesTo => "SubscribesTo",
            EdgeRelation::Configures => "Configures",
            EdgeRelation::Tests => "Tests",
            EdgeRelation::FileChangesWith => "FileChangesWith",
            EdgeRelation::Similar => "Similar",
            EdgeRelation::SemanticallySimilar => "SemanticallySimilar",
            EdgeRelation::DataFlows => "DataFlows",
            EdgeRelation::ConceptuallyRelated => "ConceptuallyRelated",
            EdgeRelation::RationaleFor => "RationaleFor",
            EdgeRelation::ParticipateIn => "ParticipateIn",
            EdgeRelation::Implement => "Implement",
            EdgeRelation::Form => "Form",
            EdgeRelation::MemberOfFlow => "MemberOfFlow",
        }
    }

    /// The value stored under the given name.
    pub fn from_name(s: &str) -> (r: Option<EdgeRelation>)
        ensures
            match r {
                Some(v) => v.text() == s@,
                None => forall|v: EdgeRelation| #[trigger] v.text() != s@,
            },
    {
        if text::same(s, "Calls") {
            Some(EdgeRelation::Calls)
        } else if text::same(s, "AsyncCalls") {
            Some(EdgeRelation::AsyncCalls)
        } else if text::same(s, "UsesType") {
            Some(EdgeRelation::UsesType)
        } else if text::same(s, "Implements") {
            Some(EdgeRelation::Implements)
        } else if text::same(s, "Inherits") {
            Some(EdgeRelation::Inherits)
        } else if text::same(s, "Defines") {
            Some(EdgeRelation::Defines)
        } else if text::same(s, "MemberOf") {
            Some(EdgeRelation::MemberOf)
        } else if text::same(s, "Contains") {
            Some(EdgeRelation::Contains)
        } else if text::same(s, "ContainsFile") {
            Some(EdgeRelation::ContainsFile)
        } else if text::same(s, "ContainsFolder") {
            Some(EdgeRelation::ContainsFolder)
        } else if text::same(s, "ContainsPackage") {
            Some(EdgeRelation::ContainsPackage)
        } else if text::same(s, "Override") {
            Some(EdgeRelation::Override)
        } else if text::same(s, "HttpCalls") {
            Some(EdgeRelation::HttpCalls)
        } else if text::same(s, "Emits") {
            Some(EdgeRelation::Emits)
        } else if text::same(s, "ListensOn") {
            Some(EdgeRelation::ListensOn)
        } else if text::same(s, "PublishesTo") {
            Some(EdgeRelation::PublishesTo)
        } else if text::same(s, "SubscribesTo") {
            Some(EdgeRelation::SubscribesTo)
        } else if text::same(s, "Configures") {
            Some(EdgeRelation::Configures)
        } else if text::same(s, "Tests") {
            Some(EdgeRelation::Tests)
        } else if text::same(s, "FileChangesWith") {
            Some(EdgeRelation::FileChangesWith)
        } else if text::same(s, "Similar") {
            Some(EdgeRelation::Similar)
        } else if text::same(s, "SemanticallySimilar") {
            Some(EdgeRelation::SemanticallySimilar)
        } else if text::same(s, "DataFlows") {
            Some(EdgeRelation::DataFlows)
        } else if text::same(s, "ConceptuallyRelated") {
            Some(EdgeRelation::ConceptuallyRelated)
        } else if text::same(s, "RationaleFor") {
            Some(EdgeRelation::RationaleFor)
        } else if text::same(s, "ParticipateIn") {
            Some(EdgeRelation::ParticipateIn)
        } else if text::same(s, "Implement") {
            Some(EdgeRelation::Implement)
        } else if text::same(s, "Form") {
            Some(EdgeRelation::Form)
        } else if text::same(s, "MemberOfFlow") {
            Some(EdgeRelation::MemberOfFlow)
        } else {
            None
        }
    }
}

/// No two values of [`EdgeRelation`] share a name, so a stored value reads back as itself.
pub proof fn law_edge_relation_names_distinct(a: EdgeRelation, b: EdgeRelation)
    ensures
        a.text() == b.text() ==> a == b,
{
    reveal_strlit("Calls");
    reveal_strlit("AsyncCalls");
    reveal_strlit("UsesType");
    reveal_strlit("Implements");
    reveal_strlit("Inherits");
    reveal_strlit("Defines");
    reveal_strlit("MemberOf");
    reveal_strlit("Contains");
    reveal_strlit("ContainsFile");
    reveal_strlit("ContainsFolder");
    reveal_strlit("ContainsPackage");
    reveal_strlit("Override");
    reveal_strlit("HttpCalls");
    reveal_strlit("Emits");
    reveal_strlit("ListensOn");
    reveal_strlit("PublishesTo");
    reveal_strlit("SubscribesTo");
    reveal_strlit("Configures");
    reveal_strlit("Tests");
    reveal_strlit("FileChangesWith");
    reveal_strlit("Similar");
    reveal_strlit("SemanticallySimilar");
    reveal_strlit("DataFlows");
    reveal_strlit("ConceptuallyRelated");
    reveal_strlit("RationaleFor");
    reveal_strlit("ParticipateIn");
    reveal_strlit("Implement");
    reveal_strlit("Form");
    reveal_strlit("MemberOfFlow");
    if a.text() == b.text() {
        assert(a.text().len() == b.text().len());
        assert(a.text()[0] == b.text()[0]);
        assert(a.text()[1] == b.text()[1]);
        assert(a.text()[2] == b.text()[2]);
        assert(a.text()[3] == b.text()[3]);
        assert(a.text()[4] == b.text()[4]);
        assert(a.text()[5] == b.text()[5]);
        assert(a.text()[6] == b.text()[6]);
        assert(a.text()[7] == b.text()[7]);
        assert(a.text()[8] == b.text()[8]);
    }
}

/// What the members of a hyperedge have in common.
#[derive(Debug, Clone, Copy, PartialEq, Eq, Hash, Structural)]
pub enum HyperedgeRelation {
    ParticipateIn,
    Implement,
    Form,
    MemberOfFlow,
}

impl HyperedgeRelation {
    /// The name under which the value is stored and shown.
    pub open spec fn text(self) -> Seq<char> {
        match self {
            HyperedgeRelation::ParticipateIn => "ParticipateIn"@,
            HyperedgeRelation::Implement => "Implement"@,
            HyperedgeRelation::Form => "Form"@,
            HyperedgeRelation::MemberOfFlow => "MemberOfFlow"@,
        }
    }

    /// See [`HyperedgeRelation::text`].
    pub fn as_str(self) -> (r: &'static str)
        ensures
            r@ == self.text(),
    {
        match self {
            HyperedgeRelation::ParticipateIn => "ParticipateIn",
            HyperedgeRelation::Implement => "Implement",
            HyperedgeRelation::Form => "Form",
            HyperedgeRelation::MemberOfFlow => "MemberOfFlow",
        }
    }

    /// The value stored under the given name.
    pub fn from_name(s: &str) -> (r: Option<HyperedgeRelation>)
        ensures
            match r {
                Some(v) => v.text() == s@,
                None => forall|v: HyperedgeRelation| #[trigger] v.text() != s@,
            },
    {
        if text::same(s, "ParticipateIn") {
            Some(HyperedgeRelation::ParticipateIn)
        } else if text::same(s, "Implement") {
            Some(HyperedgeRelation::Implement)
        } else if text::same(s, "Form") {
            Some(HyperedgeRelation::Form)
        } else if text::same(s, "MemberOfFlow") {
            Some(HyperedgeRelation::MemberOfFlow)
        } else {
            None
        }
    }
}

/// No two values of [`HyperedgeRelation`] share a name, so a stored value reads back as itself.
pub proof fn law_hyperedge_relation_names_distinct(a: HyperedgeRelation, b: HyperedgeRelation)
    ensures
        a.text() == b.text() ==> a == b,
{
    reveal_strlit("ParticipateIn");
    reveal_strlit("Implement");
    reveal_strlit("Form");
    reveal_strlit("MemberOfFlow");
    if a.text() == b.text() {
        assert(a.text().len() == b.text().len());
        assert(a.text()[0] == b.text()[0]);
        assert(a.text()[1] == b.text()[1]);
        assert(a.text()[2] == b.text()[2]);
        assert(a.text()[3] == b.text()[3]);
        assert(a.text()[4] == b.text()[4]);
        assert(a.text()[5] == b.text()[5]);
        assert(a.text()[6] == b.text()[6]);
        assert(a.text()[7] == b.text()[7]);
        assert(a.text()[8] == b.text()[8]);
    }
}

/// Which mechanism produced an edge, most precise first.
#[derive(Debug, Clone, Copy, PartialEq, Eq, Hash, Structural)]
pub enum ResolutionTier {
    Scip,
    TreeSitter,
    Llm,
    Ingest,
}

impl ResolutionTier {
    /// The name under which the value is stored and shown.
    pub open spec fn text(self) -> Seq<char> {
        match self {
            ResolutionTier::Scip => "Scip"@,
            ResolutionTier::TreeSitter => "TreeSitter"@,
            ResolutionTier::Llm => "Llm"@,
            ResolutionTier::Ingest => "Ingest"@,
        }
    }

    /// See [`ResolutionTier::text`].
    pub fn as_str(self) -> (r: &'static str)
        ensures
            r@ == self.text(),
    {
        match self {
            ResolutionTier::Scip => "Scip",
            ResolutionTier::TreeSitter => "TreeSitter",
            ResolutionTier::Llm => "Llm",
            ResolutionTier::Ingest => "Ingest",
        }
    }

    /// The value stored under the given name.
    pub fn from_name(s: &str) -> (r: Option<ResolutionTier>)
        ensures
            match r {
                Some(v) => v.text() == s@,
                None => forall|v: ResolutionTier| #[trigger] v.text() != s@,
            },
    {
        if text::same(s, "Scip") {
            Some(ResolutionTier::Scip)
        } else if text::same(s, "TreeSitter") {
            Some(ResolutionTier::TreeSitter)
        } else if text::same(s, "Llm") {
            Some(ResolutionTier::Llm)
        } else if text::same(s, "Ingest") {
            Some(ResolutionTier::Ingest)
        } else {
            None
        }
    }
}

/// No two values of [`ResolutionTier`] share a name, so a stored value reads back as itself.
pub proof fn law_resolution_tier_names_distinct(a: ResolutionTier, b: ResolutionTier)
    ensures
        a.text() == b.text() ==> a == b,
{
    reveal_strlit("Scip");
    reveal_strlit("TreeSitter");
    reveal_strlit("Llm");
    reveal_strlit("Ingest");
    if a.text() == b.text() {
        assert(a.text().len() == b.text().len());
        assert(a.text()[0] == b.text()[0]);
        assert(a.text()[1] == b.text()[1]);
        assert(a.text()[2] == b.text()[2]);
        assert(a.text()[3] == b.text()[3]);
        assert(a.text()[4] == b.text()[4]);
        assert(a.text()[5] == b.text()[5]);
        assert(a.text()[6] == b.text()[6]);
        assert(a.text()[7] == b.text()[7]);
        assert(a.text()[8] == b.text()[8]);
    }
}

/// How sure an edge is.
#[derive(Debug, Clone, Copy, PartialEq, Eq, Hash, Structural)]
pub enum Confidence {
    Extracted,
    Inferred,
    Ambiguous,
}

impl Confidence {
    /// The name under which the value is stored and shown.
    pub open spec fn text(self) -> Seq<char> {
        match self {
            Confidence::Extracted => "Extracted"@,
            Confidence::Inferred => "Inferred"@,
            Confidence::Ambiguous => "Ambiguous"@,
        }
    }

    /// See [`Confidence::text`].
    pub fn as_str(self) -> (r: &'static str)
        ensures
            r@ == self.text(),
    {
        match self {
            Confidence::Extracted => "Extracted",
            Confidence::Inferred => "Inferred",
            Confidence::Ambiguous => "Ambiguous",
        }
    }

    /// The value stored under the given name.
    pub fn from_name(s: &str) -> (r: Option<Confidence>)
        ensures
            match r {
                Some(v) => v.text() == s@,
                None => forall|v: Confidence| #[trigger] v.text() != s@,
            },
    {
        if text::same(s, "Extracted") {
            Some(Confidence::Extracted)
        } else if text::same(s, "Inferred") {
            Some(Confidence::Inferred)
        } else if text::same(s, "Ambiguous") {
            Some(Confidence::Ambiguous)
        } else {
            None
        }
    }
}

/// No two values of [`Confidence`] share a name, so a stored value reads back as itself.
pub proof fn law_confidence_names_distinct(a: Confidence, b: Confidence)
    ensures
        a.text() == b.text() ==> a == b,
{
    reveal_strlit("Extracted");
    reveal_strlit("Inferred");
    reveal_strlit("Ambiguous");
    if a.text() == b.text() {
        assert(a.text().len() == b.text().len());
        assert(a.text()[0] == b.text()[0]);
        assert(a.text()[1] == b.text()[1]);
        assert(a.text()[2] == b.text()[2]);
        assert(a.text()[3] == b.text()[3]);
        assert(a.text()[4] == b.text()[4]);
        assert(a.text()[5] == b.text()[5]);
        assert(a.text()[6] == b.text()[6]);
        assert(a.text()[7] == b.text()[7]);
        assert(a.text()[8] == b.text()[8]);
    }
}

/// How a type takes up its supertype.
#[derive(Debug, Clone, Copy, PartialEq, Eq, Hash, Structural)]
pub enum InheritKind {
    Extends,
    Implements,
}

impl InheritKind {
    /// The name under which the value is stored and shown.
    pub open spec fn text(self) -> Seq<char> {
        match self {
            InheritKind::Extends => "Extends"@,
            InheritKind::Implements => "Implements"@,
        }
    }

    /// See [`InheritKind::text`].
    pub fn as_str(self) -> (r: &'static str)
        ensures
            r@ == self.text(),
    {
        match self {
            InheritKind::Extends => "Extends",
            InheritKind::Implements => "Implements",
        }
    }

    /// The value stored under the given name.
    pub fn from_name(s: &str) -> (r: Option<InheritKind>)
        ensures
            match r {
                Some(v) => v.text() == s@,
                None => forall|v: InheritKind| #[trigger] v.text() != s@,
            },
    {
        if text::same(s, "Extends") {
            Some(InheritKind::Extends)
        } else if text::same(s, "Implements") {
            Some(InheritKind::Implements)
        } else {
            None
        }
    }
}

/// No two values of [`InheritKind`] share a name, so a stored value reads back as itself.
pub proof fn law_inherit_kind_names_distinct(a: InheritKind, b: InheritKind)
    ensures
        a.text() == b.text() ==> a == b,
{
    reveal_strlit("Extends");
    reveal_strlit("Implements");
    if a.text() == b.text() {
        assert(a.text().len() == b.text().len());
        assert(a.text()[0] == b.text()[0]);
        assert(a.text()[1] == b.text()[1]);
        assert(a.text()[2] == b.text()[2]);
        assert(a.text()[3] == b.text()[3]);
        assert(a.text()[4] == b.text()[4]);
        assert(a.text()[5] == b.text()[5]);
        assert(a.text()[6] == b.text()[6]);
        assert(a.text()[7] == b.text()[7]);
        assert(a.text()[8] == b.text()[8]);
    }
}

/// The view of an optional text.
pub open spec fn opt_text(o: Option<String>) -> Option<Seq<char>> {
    match o {
        Some(s) => Some(s@),
        None => None,
    }
}

/// What optional texts hold.
pub open spec fn opt_texts(v: Seq<Option<String>>) -> Seq<Option<Seq<char>>> {
    v.map_values(|o: Option<String>| opt_text(o))
}

/// A value of a node's or an edge's metadata: what the rules read is a text or
/// a count; any other value is kept as its JSON notation.
#[derive(Debug, PartialEq, Eq)]
pub enum MetaValue {
    Text(String),
    Count(u64),
    Json(String),
}

/// The model of a [`MetaValue`].
pub enum MetaModel {
    Text(Seq<char>),
    Count(u64),
    Json(Seq<char>),
}

impl View for MetaValue {
    type V = MetaModel;

    open spec fn view(&self) -> MetaModel {
        match self {
            MetaValue::Text(s) => MetaModel::Text(s@),
            MetaValue::Count(n) => MetaModel::Count(*n),
            MetaValue::Json(s) => MetaModel::Json(s@),
        }
    }
}

impl Clone for MetaValue {
    fn clone(&self) -> (r: MetaValue)
        ensures
            r == *self,
    {
        match self {
            MetaValue::Text(s) => MetaValue::Text(s.clone()),
            MetaValue::Count(n) => MetaValue::Count(*n),
            MetaValue::Json(s) => MetaValue::Json(s.clone()),
        }
    }
}

/// The metadata of a node or an edge: named values, each name once.
#[derive(Debug, PartialEq, Eq)]
pub struct Metadata {
    pub entries: Vec<(String, MetaValue)>,
}

/// The model of [`Metadata`].
pub type MetaEntries = Seq<(Seq<char>, MetaModel)>;

/// The value under a name, where there is one.
pub open spec fn meta_get(m: MetaEntries, key: Seq<char>) -> Option<MetaModel>
    decreases m.len(),
{
    if m.len() == 0 {
        None
    } else if m[0].0 == key {
        Some(m[0].1)
    } else {
        meta_get(m.drop_first(), key)
    }
}

/// The text under a name, where there is one.
pub open spec fn meta_text(m: MetaEntries, key: Seq<char>) -> Option<Seq<char>> {
    match meta_get(m, key) {
        Some(MetaModel::Text(t)) => Some(t),
        _ => None,
    }
}

/// The count under a name, where there is one.
pub open spec fn meta_count(m: MetaEntries, key: Seq<char>) -> Option<u64> {
    match meta_get(m, key) {
        Some(MetaModel::Count(n)) => Some(n),
        _ => None,
    }
}

/// The metadata with the value under `key` set, where it stood or at the end.
pub open spec fn meta_set(m: MetaEntries, key: Seq<char>, value: MetaModel) -> MetaEntries
    decreases m.len(),
{
    if m.len() == 0 {
        seq![(key, value)]
    } else if m[0].0 == key {
        m.update(0, (key, value))
    } else {
        seq![m[0]] + meta_set(m.drop_first(), key, value)
    }
}

/// The metadata without the values under `key`.
pub open spec fn meta_without(m: MetaEntries, key: Seq<char>) -> MetaEntries
    decreases m.len(),
{
    if m.len() == 0 {
        Seq::empty()
    } else {
        let rest = meta_without(m.drop_last(), key);
        if m.last().0 == key {
            rest
        } else {
            rest.push(m.last())
        }
    }
}

impl View for Metadata {
    type V = MetaEntries;

    open spec fn view(&self) -> MetaEntries {
        self.entries@.map_values(|e: (String, MetaValue)| (e.0@, e.1@))
    }
}

proof fn lemma_meta_get_from(m: MetaEntries, key: Seq<char>, k: int)
    requires
        0 <= k <= m.len(),
        forall|i: int| 0 <= i < k ==> (#[trigger] m[i]).0 != key,
    ensures
        meta_get(m, key) == meta_get(m.skip(k), key),
    decreases k,
{
    if k == 0 {
        assert(m.skip(0) =~= m);
    } else {
        let t = m.drop_first();
        assert forall|i: int| 0 <= i < k - 1 implies (#[trigger] t[i]).0 != key by {
            assert(t[i] == m[i + 1]);
        }
        lemma_meta_get_from(t, key, k - 1);
        assert(t.skip(k - 1) =~= m.skip(k));
    }
}

proof fn lemma_meta_set_from(m: MetaEntries, key: Seq<char>, value: MetaModel, k: int)
    requires
        0 <= k <= m.len(),
        forall|i: int| 0 <= i < k ==> (#[trigger] m[i]).0 != key,
    ensures
        meta_set(m, key, value) == m.take(k) + meta_set(m.skip(k), key, value),
    decreases k,
{
    if k == 0 {
        assert(m.skip(0) =~= m);
        assert(m.take(0) + meta_set(m.skip(0), key, value) =~= meta_set(m, key, value));
    } else {
        let t = m.drop_first();
        assert forall|i: int| 0 <= i < k - 1 implies (#[trigger] t[i]).0 != key by {
            assert(t[i] == m[i + 1]);
        }
        lemma_meta_set_from(t, key, value, k - 1);
        assert(t.skip(k - 1) =~= m.skip(k));
        assert(seq![m[0]] + (t.take(k - 1) + meta_set(m.skip(k), key, value)) =~= m.take(k)
            + meta_set(m.skip(k), key, value));
    }
}

impl Metadata {
    /// Metadata without a value.
    pub fn new() -> (r: Metadata)
        ensures
            r@ == MetaEntries::empty(),
    {
        let r = Metadata { entries: Vec::new() };
        assert(r@ =~= MetaEntries::empty());
        r
    }

    /// See [`meta_get`].
    pub fn get(&self, key: &str) -> (r: Option<&MetaValue>)
        ensures
            match r {
                Some(v) => meta_get(self@, key@) == Some(v@),
                None => meta_get(self@, key@) is None,
            },
    {
        let mut i: usize = 0;
        while i < self.entries.len()
            invariant
                i <= self.entries.len(),
                forall|k: int| 0 <= k < i ==> (#[trigger] self@[k]).0 != key@,
            decreases self.entries.len() - i,
        {
            if text::same(self.entries[i].0.as_str(), key) {
                proof {
                    lemma_meta_get_from(self@, key@, i as int);
                    assert(self@.skip(i as int)[0] == self@[i as int]);
                }
                return Some(&self.entries[i].1);
            }
            i += 1;
        }
        proof {
            lemma_meta_get_from(self@, key@, i as int);
        }
        None
    }

    /// See [`meta_text`].
    pub fn text(&self, key: &str) -> (r: Option<&String>)
        ensures
            match r {
                Some(v) => meta_text(self@, key@) == Some(v@),
                None => meta_text(self@, key@) is None,
            },
    {
        match self.get(key) {
            Some(MetaValue::Text(s)) => Some(s),
            _ => None,
        }
    }

    /// See [`meta_count`].
    pub fn count(&self, key: &str) -> (r: Option<u64>)
        ensures
            r == meta_count(self@, key@),
    {
        match self.get(key) {
            Some(MetaValue::Count(n)) => Some(*n),
            _ => None,
        }
    }

    /// See [`meta_set`].
    pub fn insert(&mut self, key: String, value: MetaValue)
        ensures
            final(self)@ == meta_set(old(self)@, key@, value@),
    {
        let ghost m = self@;
        let ghost vm = value@;
        let mut i: usize = 0;
        while i < self.entries.len()
            invariant
                i <= self.entries.len(),
                self@ == m,
                m == old(self)@,
                vm == value@,
                forall|k: int| 0 <= k < i ==> (#[trigger] m[k]).0 != key@,
            decreases self.entries.len() - i,
        {
            if text::same(self.entries[i].0.as_str(), key.as_str()) {
                proof {
                    lemma_meta_set_from(m, key@, vm, i as int);
                    assert(m[i as int].0 == key@);
                    assert(m.skip(i as int)[0] == m[i as int]);
                }
                let ghost k = key@;
                self.entries.set(i, (key, value));
                assert(self@ =~= m.take(i as int) + m.skip(i as int).update(0, (k, vm)));
                return ;
            }
            i += 1;
        }
        proof {
            lemma_meta_set_from(m, key@, vm, i as int);
            assert(m.skip(i as int) =~= MetaEntries::empty());
        }
        self.entries.push((key, value));
        assert(self@ =~= m.take(i as int) + seq![(key@, vm)]);
    }

    /// See [`meta_without`].
    pub fn without(&self, key: &str) -> (r: Metadata)
        ensures
            r@ == meta_without(self@, key@),
    {
        let mut r = Metadata::new();
        let mut i: usize = 0;
        while i < self.entries.len()
            invariant
                i <= self.entries.len(),
                r@ == meta_without(self@.take(i as int), key@),
            decreases self.entries.len() - i,
        {
            proof {
                assert(self@.take(i + 1).drop_last() =~= self@.take(i as int));
            }
            if !text::same(self.entries[i].0.as_str(), key) {
                let ghost before = r@;
                let e = (self.entries[i].0.clone(), self.entries[i].1.clone());
                r.entries.push(e);
                assert(r@ =~= before.push((e.0@, e.1@)));
            }
            i += 1;
        }
        assert(self@.take(self@.len() as int) =~= self@);
        r
    }
}

impl Clone for Metadata {
    fn clone(&self) -> (r: Metadata)
        ensures
            r@ == self@,
    {
        let mut r = Metadata::new();
        let mut i: usize = 0;
        while i < self.entries.len()
            invariant
                i <= self.entries.len(),
                r@ == self@.take(i as int),
            decreases self.entries.len() - i,
        {
            let ghost before = r@;
            let e = (self.entries[i].0.clone(), self.entries[i].1.clone());
            r.entries.push(e);
            assert(r@ =~= before.push((e.0@, e.1@)));
            i += 1;
        }
        assert(self@.take(self@.len() as int) =~= self@);
        r
    }
}

/// A node of the graph.
///
/// `pagerank` and `betweenness` hold the bits of non-negative IEEE doubles,
/// whose order is that of the doubles.
#[derive(Debug, PartialEq, Eq)]
pub struct Node {
    pub id: String,
    pub label: NodeLabel,
    pub name: String,
    pub file_path: String,
    pub line_start: u32,
    pub line_end: u32,
    pub language: String,
    pub metadata: Metadata,
    pub community: Option<u32>,
    pub pagerank: u64,
    pub betweenness: u64,
}

/// The model of a [`Node`].
pub struct NodeModel {
    pub id: Seq<char>,
    pub label: NodeLabel,
    pub name: Seq<char>,
    pub file_path: Seq<char>,
    pub line_start: u32,
    pub line_end: u32,
    pub language: Seq<char>,
    pub metadata: MetaEntries,
    pub community: Option<u32>,
    pub pagerank: u64,
    pub betweenness: u64,
}

impl View for Node {
    type V = NodeModel;

    open spec fn view(&self) -> NodeModel {
        NodeModel {
            id: self.id@,
            label: self.label,
            name: self.name@,
            file_path: self.file_path@,
            line_start: self.line_start,
            line_end: self.line_end,
            language: self.language@,
            metadata: self.metadata@,
            community: self.community,
            pagerank: self.pagerank,
            betweenness: self.betweenness,
        }
    }
}

impl Clone for Node {
    fn clone(&self) -> (r: Node)
        ensures
            r@ == self@,
    {
        Node {
            id: self.id.clone(),
            label: self.label,
            name: self.name.clone(),
            file_path: self.file_path.clone(),
            line_start: self.line_start,
            line_end: self.line_end,
            language: self.language.clone(),
            metadata: self.metadata.clone(),
            community: self.community,
            pagerank: self.pagerank,
            betweenness: self.betweenness,
        }
    }
}

/// The models of a sequence of nodes.
pub open spec fn node_views(v: Seq<Node>) -> Seq<NodeModel> {
    rows::seen(v)
}

/// An edge of the graph.
#[derive(Debug, PartialEq, Eq)]
pub struct Edge {
    pub src: String,
    pub dst: String,
    pub relation: EdgeRelation,
    pub tier: ResolutionTier,
    pub confidence: Confidence,
    pub src_file: String,
    pub src_line: u32,
    pub metadata: Metadata,
}

/// The model of an [`Edge`].
pub struct EdgeModel {
    pub src: Seq<char>,
    pub dst: Seq<char>,
    pub relation: EdgeRelation,
    pub tier: ResolutionTier,
    pub confidence: Confidence,
    pub src_file: Seq<char>,
    pub src_line: u32,
    pub metadata: MetaEntries,
}

/// What identifies an edge: its ends and its relation.
pub type EdgeKey = (Seq<char>, Seq<char>, EdgeRelation);

impl EdgeModel {
    /// See [`EdgeKey`].
    pub open spec fn key(self) -> EdgeKey {
        (self.src, self.dst, self.relation)
    }
}

impl View for Edge {
    type V = EdgeModel;

    open spec fn view(&self) -> EdgeModel {
        EdgeModel {
            src: self.src@,
            dst: self.dst@,
            relation: self.relation,
            tier: self.tier,
            confidence: self.confidence,
            src_file: self.src_file@,
            src_line: self.src_line,
            metadata: self.metadata@,
        }
    }
}

impl Clone for Edge {
    fn clone(&self) -> (r: Edge)
        ensures
            r@ == self@,
    {
        Edge {
            src: self.src.clone(),
            dst: self.dst.clone(),
            relation: self.relation,
            tier: self.tier,
            confidence: self.confidence,
            src_file: self.src_file.clone(),
            src_line: self.src_line,
            metadata: self.metadata.clone(),
        }
    }
}

impl Edge {
    /// Whether two edges have the same key.
    pub fn same_key(&self, other: &Edge) -> (r: bool)
        ensures
            r == (self@.key() == other@.key()),
    {
        self.relation == other.relation && text::same(self.src.as_str(), other.src.as_str())
            && text::same(self.dst.as_str(), other.dst.as_str())
    }
}

/// The models of a sequence of edges.
pub open spec fn edge_views(v: Seq<Edge>) -> Seq<EdgeModel> {
    rows::seen(v)
}

/// A set of nodes that belong together.
#[derive(Debug, PartialEq, Eq)]
pub struct Hyperedge {
    pub id: String,
    pub relation: HyperedgeRelation,
    pub label: String,
    pub confidence: Confidence,
    pub tier: ResolutionTier,
    pub metadata: Metadata,
}

/// The model of a [`Hyperedge`].
pub struct HyperedgeModel {
    pub id: Seq<char>,
    pub relation: HyperedgeRelation,
    pub label: Seq<char>,
    pub confidence: Confidence,
    pub tier: ResolutionTier,
    pub metadata: MetaEntries,
}

impl View for Hyperedge {
    type V = HyperedgeModel;

    open spec fn view(&self) -> HyperedgeModel {
        HyperedgeModel {
            id: self.id@,
            relation: self.relation,
            label: self.label@,
            confidence: self.confidence,
            tier: self.tier,
            metadata: self.metadata@,
        }
    }
}

impl Clone for Hyperedge {
    fn clone(&self) -> (r: Hyperedge)
        ensures
            r@ == self@,
    {
        Hyperedge {
            id: self.id.clone(),
            relation: self.relation,
            label: self.label.clone(),
            confidence: self.confidence,
            tier: self.tier,
            metadata: self.metadata.clone(),
        }
    }
}

/// A node's place in a hyperedge.
#[derive(Debug, PartialEq, Eq)]
pub struct HyperedgeMember {
    pub hyperedge_id: String,
    pub node_id: String,
    pub role: Option<String>,
}

/// The model of a [`HyperedgeMember`].
pub struct MemberModel {
    pub hyperedge_id: Seq<char>,
    pub node_id: Seq<char>,
    pub role: Option<Seq<char>>,
}

impl View for HyperedgeMember {
    type V = MemberModel;

    open spec fn view(&self) -> MemberModel {
        MemberModel {
            hyperedge_id: self.hyperedge_id@,
            node_id: self.node_id@,
            role: opt_text(self.role),
        }
    }
}

impl Clone for HyperedgeMember {
    fn clone(&self) -> (r: HyperedgeMember)
        ensures
            r == *self,
    {
        HyperedgeMember {
            hyperedge_id: self.hyperedge_id.clone(),
            node_id: self.node_id.clone(),
            role: match &self.role {
                Some(s) => Some(s.clone()),
                None => None,
            },
        }
    }
}

/// A type's supertype as the parser found it.
#[derive(Debug, PartialEq, Eq)]
pub struct RawInherit {
    pub impl_name: String,
    pub super_name: String,
    pub kind: InheritKind,
}

impl Clone for RawInherit {
    fn clone(&self) -> (r: RawInherit)
        ensures
            r == *self,
    {
        RawInherit {
            impl_name: self.impl_name.clone(),
            super_name: self.super_name.clone(),
            kind: self.kind,
        }
    }
}

/// A field of a class with its declared type.
#[derive(Debug, PartialEq, Eq)]
pub struct RawField {
    pub class_id: String,
    pub field_name: String,
    pub declared_type: String,
}

impl Clone for RawField {
    fn clone(&self) -> (r: RawField)
        ensures
            r == *self,
    {
        RawField {
            class_id: self.class_id.clone(),
            field_name: self.field_name.clone(),
            declared_type: self.declared_type.clone(),
        }
    }
}

/// A name that a file imports, and the module it comes from.
#[derive(Debug, PartialEq, Eq)]
pub struct RawImport {
    pub file_path: String,
    pub name: String,
    pub module: String,
}

impl Clone for RawImport {
    fn clone(&self) -> (r: RawImport)
        ensures
            r == *self,
    {
        RawImport {
            file_path: self.file_path.clone(),
            name: self.name.clone(),
            module: self.module.clone(),
        }
    }
}

/// A local variable with its declared type.
#[derive(Debug, PartialEq, Eq)]
pub struct RawLocal {
    pub caller_id: String,
    pub var_name: String,
    pub declared_type: String,
}

impl Clone for RawLocal {
    fn clone(&self) -> (r: RawLocal)
        ensures
            r == *self,
    {
        RawLocal {
            caller_id: self.caller_id.clone(),
            var_name: self.var_name.clone(),
            declared_type: self.declared_type.clone(),
        }
    }
}

/// What a call is made through: nothing, or a named receiver.
#[derive(Debug, PartialEq, Eq)]
pub enum Receiver {
    Bare,
    Named(String),
}

impl Receiver {
    /// The name of the receiver, where there is one.
    pub open spec fn name(self) -> Option<Seq<char>> {
        match self {
            Receiver::Bare => None,
            Receiver::Named(s) => Some(s@),
        }
    }
}

impl Default for Receiver {
    fn default() -> (r: Receiver)
        ensures
            r == Receiver::Bare,
    {
        Receiver::Bare
    }
}

impl Clone for Receiver {
    fn clone(&self) -> (r: Receiver)
        ensures
            r == *self,
    {
        match self {
            Receiver::Bare => Receiver::Bare,
            Receiver::Named(s) => Receiver::Named(s.clone()),
        }
    }
}

/// A call as the parser found it: the id of the enclosing caller, the called
/// name and the line. The graph builder looks the name up.
#[derive(Debug, PartialEq, Eq)]
pub struct RawCall {
    pub caller_id: String,
    pub callee_name: String,
    pub line: u32,
    pub receiver: Receiver,
    pub enclosing_class: Option<String>,
}

/// The model of a [`RawCall`].
pub struct CallModel {
    pub caller_id: Seq<char>,
    pub callee_name: Seq<char>,
    pub line: u32,
    pub receiver: Option<Seq<char>>,
    pub enclosing_class: Option<Seq<char>>,
}

impl View for RawCall {
    type V = CallModel;

    open spec fn view(&self) -> CallModel {
        CallModel {
            caller_id: self.caller_id@,
            callee_name: self.callee_name@,
            line: self.line,
            receiver: self.receiver.name(),
            enclosing_class: opt_text(self.enclosing_class),
        }
    }
}

impl Clone for RawCall {
    fn clone(&self) -> (r: RawCall)
        ensures
            r == *self,
    {
        RawCall {
            caller_id: self.caller_id.clone(),
            callee_name: self.callee_name.clone(),
            line: self.line,
            receiver: self.receiver.clone(),
            enclosing_class: match &self.enclosing_class {
                Some(s) => Some(s.clone()),
                None => None,
            },
        }
    }
}

/// The models of a sequence of calls.
pub open spec fn call_views(v: Seq<RawCall>) -> Seq<CallModel> {
    rows::seen(v)
}


/// Builds deterministic qualified names, `<project>.<path>.<name>`: each
/// segment is normalized, so the same entity always gets the same id.
pub struct QualifiedName;

/// The text with letters and digits in small letters and each run of other
/// characters made one underscore.
pub open spec fn squeeze(s: Seq<char>) -> Seq<char>
    decreases s.len(),
{
    if s.len() == 0 {
        Seq::empty()
    } else {
        let rest = squeeze(s.drop_last());
        if text::is_alnum(s.last()) {
            rest.push(text::lower_char(s.last()))
        } else if s.len() == 1 || text::is_alnum(s[s.len() - 2]) {
            rest.push('_')
        } else {
            rest
        }
    }
}

/// A segment of a qualified name.
pub open spec fn normalized(s: Seq<char>) -> Seq<char> {
    text::strip_both(squeeze(s), '_')
}

/// The texts that are not empty.
pub open spec fn non_empty(parts: Seq<Seq<char>>) -> Seq<Seq<char>>
    decreases parts.len(),
{
    if parts.len() == 0 {
        Seq::empty()
    } else {
        let rest = non_empty(parts.drop_last());
        if parts.last().len() > 0 {
            rest.push(parts.last())
        } else {
            rest
        }
    }
}

/// The views of a sequence of string slices.
pub open spec fn str_views(v: Seq<&str>) -> Seq<Seq<char>> {
    v.map_values(|s: &str| s@)
}

/// The qualified name of `name` under `path` in `project`.
pub open spec fn qualified(project: Seq<char>, path: Seq<Seq<char>>, name: Seq<char>) -> Seq<char> {
    text::join(
        non_empty((seq![project] + path).push(name).map_values(|s: Seq<char>| normalized(s))),
        "."@,
    )
}

/// See [`normalized`].
pub fn normalize(s: &str) -> (r: String)
    ensures
        r@ == normalized(s@),
{
    let v = text::chars_of(s);
    let mut out = String::new();
    let mut prev_us: bool = false;
    let mut i: usize = 0;
    while i < v.len()
        invariant
            i <= v.len(),
            v@ == s@,
            out@ == squeeze(s@.take(i as int)),
            prev_us == (i > 0 && !text::is_alnum(s@[i - 1])),
        decreases v.len() - i,
    {
        proof {
            assert(s@.take(i + 1).drop_last() =~= s@.take(i as int));
        }
        if text::alnum_char_test(v[i]) {
            out.push(text::to_lower_char(v[i]));
            prev_us = false;
        } else {
            if !prev_us {
                out.push('_');
            }
            prev_us = true;
        }
        i += 1;
    }
    assert(s@.take(s@.len() as int) =~= s@);
    text::without_both(out.as_str(), '_')
}

/// Adds a segment to a qualified name, unless nothing is left of it.
fn push_segment(parts: &mut Vec<String>, seg: &str)
    ensures
        text::views(final(parts)@) == (if normalized(seg@).len() > 0 {
            text::views(old(parts)@).push(normalized(seg@))
        } else {
            text::views(old(parts)@)
        }),
{
    let n = normalize(seg);
    if !n.as_str().is_empty() {
        let ghost before = text::views(parts@);
        parts.push(n);
        assert(text::views(parts@) =~= before.push(n@));
    }
}

impl QualifiedName {
    /// See [`qualified`].
    pub fn build(project: &str, path_parts: &[&str], name: &str) -> (r: String)
        ensures
            r@ == qualified(project@, str_views(path_parts@), name@),
    {
        let ghost all = (seq![project@] + str_views(path_parts@)).push(name@).map_values(
            |s: Seq<char>| normalized(s),
        );
        let mut parts: Vec<String> = Vec::new();
        proof {
            assert(text::views(parts@) =~= non_empty(all.take(0)));
            assert(all.take(1).drop_last() =~= all.take(0));
        }
        push_segment(&mut parts, project);
        let mut i: usize = 0;
        while i < path_parts.len()
            invariant
                i <= path_parts.len(),
                all == (seq![project@] + str_views(path_parts@)).push(name@).map_values(
                    |s: Seq<char>| normalized(s),
                ),
                text::views(parts@) == non_empty(all.take(i + 1)),
            decreases path_parts.len() - i,
        {
            proof {
                assert(all[i + 1] == normalized(path_parts@[i as int]@));
                assert(all.take(i + 2).drop_last() =~= all.take(i + 1));
            }
            push_segment(&mut parts, path_parts[i]);
            i += 1;
        }
        proof {
            assert(all.take(i + 2).drop_last() =~= all.take(i + 1));
            assert(all.take(i + 2) =~= all);
        }
        push_segment(&mut parts, name);
        text::joined(&parts, ".")
    }
}

/// A character of a normalized segment.
pub open spec fn is_segment_char(c: char) -> bool {
    text::is_lower(c) || text::is_digit(c) || c == '_'
}

/// Whether a text is a normalized segment: small letters, digits and single
/// underscores, none of them at an end.
pub open spec fn is_segment(s: Seq<char>) -> bool {
    &&& forall|i: int| 0 <= i < s.len() ==> is_segment_char(#[trigger] s[i])
    &&& forall|i: int|
        0 <= i < s.len() - 1 ==> !(#[trigger] s[i] == '_' && s[i + 1] == '_')
    &&& s.len() > 0 ==> s[0] != '_' && s.last() != '_'
}

proof fn lemma_squeeze(s: Seq<char>)
    ensures
        forall|i: int| 0 <= i < squeeze(s).len() ==> is_segment_char(#[trigger] squeeze(s)[i]),
        forall|i: int|
            0 <= i < squeeze(s).len() - 1 ==> !(#[trigger] squeeze(s)[i] == '_' && squeeze(s)[i + 1]
                == '_'),
        s.len() > 0 ==> squeeze(s).len() > 0 && (squeeze(s).last() == '_') == !text::is_alnum(
            s.last(),
        ),
    decreases s.len(),
{
    if s.len() > 0 {
        let t = s.drop_last();
        lemma_squeeze(t);
        let q = squeeze(s);
        let r = squeeze(t);
        if s.len() > 1 {
            assert(t.last() == s[s.len() - 2]);
        }
        assert(is_segment_char(text::lower_char(s.last())) || !text::is_alnum(s.last()));
        assert forall|i: int| 0 <= i < q.len() implies is_segment_char(#[trigger] q[i]) by {
            if i < r.len() {
                assert(q[i] == r[i]);
            }
        }
        assert forall|i: int| 0 <= i < q.len() - 1 implies !(#[trigger] q[i] == '_' && q[i + 1]
            == '_') by {
            if i + 1 < r.len() {
                assert(q[i] == r[i]);
                assert(q[i + 1] == r[i + 1]);
            }
        }
    }
}

proof fn lemma_strip_both_bounds(s: Seq<char>, c: char) -> (r: (int, int))
    ensures
        0 <= r.0 <= r.1 <= s.len(),
        text::strip_both(s, c) == s.subrange(r.0, r.1),
        r.0 < r.1 ==> s[r.0] != c && s[r.1 - 1] != c,
        s.len() > 0 && s[0] != c && s.last() != c ==> r == (0int, s.len() as int),
{
    let lo = lemma_strip_lead_bound(s, c);
    let t = text::strip_lead(s, c);
    let hi = lemma_strip_trail_bound(t, c);
    assert(t.subrange(0, hi) =~= s.subrange(lo, lo + hi));
    (lo, lo + hi)
}

proof fn lemma_strip_lead_bound(s: Seq<char>, c: char) -> (lo: int)
    ensures
        0 <= lo <= s.len(),
        text::strip_lead(s, c) == s.subrange(lo, s.len() as int),
        lo < s.len() ==> s[lo] != c,
        s.len() > 0 && s[0] != c ==> lo == 0,
    decreases s.len(),
{
    if s.len() > 0 && s[0] == c {
        let k = lemma_strip_lead_bound(s.drop_first(), c);
        assert(s.drop_first().subrange(k, s.len() - 1) =~= s.subrange(k + 1, s.len() as int));
        k + 1
    } else {
        assert(s.subrange(0, s.len() as int) =~= s);
        0
    }
}

proof fn lemma_strip_trail_bound(s: Seq<char>, c: char) -> (hi: int)
    ensures
        0 <= hi <= s.len(),
        text::strip_trail(s, c) == s.subrange(0, hi),
        hi > 0 ==> s[hi - 1] != c,
        s.len() > 0 && s.last() != c ==> hi == s.len(),
    decreases s.len(),
{
    if s.len() > 0 && s.last() == c {
        let k = lemma_strip_trail_bound(s.drop_last(), c);
        assert(s.drop_last().subrange(0, k) =~= s.subrange(0, k));
        k
    } else {
        assert(s.subrange(0, s.len() as int) =~= s);
        s.len() as int
    }
}

/// Normalizing yields a normalized segment.
pub proof fn law_normalized_is_segment(s: Seq<char>)
    ensures
        is_segment(normalized(s)),
{
    lemma_squeeze(s);
    let q = squeeze(s);
    let (lo, hi) = lemma_strip_both_bounds(q, '_');
    let n = normalized(s);
    assert forall|i: int| 0 <= i < n.len() implies is_segment_char(#[trigger] n[i]) by {
        assert(n[i] == q[lo + i]);
    }
    assert forall|i: int| 0 <= i < n.len() - 1 implies !(#[trigger] n[i] == '_' && n[i + 1]
        == '_') by {
        assert(n[i] == q[lo + i]);
        assert(n[i + 1] == q[lo + i + 1]);
    }
}

proof fn lemma_squeeze_segment(s: Seq<char>)
    requires
        forall|i: int| 0 <= i < s.len() ==> is_segment_char(#[trigger] s[i]),
        forall|i: int| 0 <= i < s.len() - 1 ==> !(#[trigger] s[i] == '_' && s[i + 1] == '_'),
    ensures
        squeeze(s) == s,
    decreases s.len(),
{
    if s.len() > 0 {
        let t = s.drop_last();
        assert forall|i: int| 0 <= i < t.len() implies is_segment_char(#[trigger] t[i]) by {
            assert(t[i] == s[i]);
        }
        assert forall|i: int| 0 <= i < t.len() - 1 implies !(#[trigger] t[i] == '_' && t[i + 1]
            == '_') by {
            assert(t[i] == s[i]);
        }
        lemma_squeeze_segment(t);
        assert(is_segment_char(s[s.len() - 1]));
        if s.len() > 1 {
            assert(is_segment_char(s[s.len() - 2]));
            assert(!(s[s.len() - 2] == '_' && s[s.len() - 2 + 1] == '_'));
        }
        assert(squeeze(s) =~= s);
    }
}

/// A normalized segment normalizes to itself, so normalizing twice is
/// normalizing once.
pub proof fn law_normalize_idempotent(s: Seq<char>)
    ensures
        normalized(normalized(s)) == normalized(s),
{
    law_normalized_is_segment(s);
    let n = normalized(s);
    lemma_squeeze_segment(n);
    let (lo, hi) = lemma_strip_both_bounds(n, '_');
    if n.len() == 0 {
        assert(n.subrange(lo, hi) =~= n);
    } else {
        assert(n.subrange(0, n.len() as int) =~= n);
    }
}

/// Whether a text may be the id of a code node: small letters, digits,
/// underscores and dots.
pub open spec fn is_fqn(id: Seq<char>) -> bool {
    forall|i: int| 0 <= i < id.len() ==> is_segment_char(#[trigger] id[i]) || id[i] == '.'
}

proof fn lemma_join_fqn(parts: Seq<Seq<char>>)
    requires
        forall|i: int| 0 <= i < parts.len() ==> is_segment(#[trigger] parts[i]),
    ensures
        is_fqn(text::join(parts, "."@)),
    decreases parts.len(),
{
    reveal_strlit(".");
    if parts.len() > 1 {
        let t = parts.drop_last();
        assert forall|i: int| 0 <= i < t.len() implies is_segment(#[trigger] t[i]) by {
            assert(t[i] == parts[i]);
        }
        lemma_join_fqn(t);
        let a = text::join(t, "."@);
        let b = parts[parts.len() - 1];
        let r = text::join(parts, "."@);
        assert(is_segment(b));
        assert forall|i: int| 0 <= i < r.len() implies is_segment_char(#[trigger] r[i]) || r[i]
            == '.' by {
            if i < a.len() {
                assert(r[i] == a[i]);
            } else if i > a.len() {
                assert(r[i] == b[i - a.len() - 1]);
            }
        }
    } else if parts.len() == 1 {
        assert(is_segment(parts[0]));
    }
}

proof fn lemma_non_empty_segments(parts: Seq<Seq<char>>)
    requires
        forall|i: int| 0 <= i < parts.len() ==> is_segment(#[trigger] parts[i]),
    ensures
        forall|i: int|
            0 <= i < non_empty(parts).len() ==> is_segment(#[trigger] non_empty(parts)[i]),
    decreases parts.len(),
{
    if parts.len() > 0 {
        let t = parts.drop_last();
        assert forall|i: int| 0 <= i < t.len() implies is_segment(#[trigger] t[i]) by {
            assert(t[i] == parts[i]);
        }
        lemma_non_empty_segments(t);
        assert(is_segment(parts[parts.len() - 1]));
        let k = non_empty(parts);
        assert forall|i: int| 0 <= i < k.len() implies is_segment(#[trigger] k[i]) by {
            if i < non_empty(t).len() {
                assert(k[i] == non_empty(t)[i]);
            }
        }
    }
}

/// Every qualified name is a well-formed id, whatever the project, the path
/// and the name hold.
pub proof fn law_qualified_is_fqn(project: Seq<char>, path: Seq<Seq<char>>, name: Seq<char>)
    ensures
        is_fqn(qualified(project, path, name)),
{
    let raw = (seq![project] + path).push(name);
    let all = raw.map_values(|s: Seq<char>| normalized(s));
    assert forall|i: int| 0 <= i < all.len() implies is_segment(#[trigger] all[i]) by {
        law_normalized_is_segment(raw[i]);
    }
    lemma_non_empty_segments(all);
    lemma_join_fqn(non_empty(all));
}

} // verus!
