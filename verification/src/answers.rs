//! What an answer says of itself: which state of the graph it was computed
//! from, how fresh that state is, and how far the evidence reaches.

use vstd::prelude::*;
use vstd::string::*;

use crate::store;
use crate::store::{Store, StoreModel};
use crate::store_queries::Coverage;
use crate::text;

verus! {

/// How far the evidence behind an answer reaches.
#[derive(Debug, PartialEq, Eq)]
pub enum EvidenceQuality {
    Exact,
    LowerBound { reason: String },
    Unavailable { reason: String },
}

/// The model of an [`EvidenceQuality`].
pub enum EvidenceModel {
    Exact,
    LowerBound(Seq<char>),
    Unavailable(Seq<char>),
}

impl View for EvidenceQuality {
    type V = EvidenceModel;

    open spec fn view(&self) -> EvidenceModel {
        match *self {
            EvidenceQuality::Exact => EvidenceModel::Exact,
            EvidenceQuality::LowerBound { reason } => EvidenceModel::LowerBound(reason@),
            EvidenceQuality::Unavailable { reason } => EvidenceModel::Unavailable(reason@),
        }
    }
}

/// How fresh the graph is that answered.
#[derive(Debug, PartialEq, Eq)]
pub enum GraphFreshness {
    Fresh,
    Unknown { reason: String },
}

/// The model of a [`GraphFreshness`].
pub enum FreshnessModel {
    Fresh,
    Unknown(Seq<char>),
}

impl View for GraphFreshness {
    type V = FreshnessModel;

    open spec fn view(&self) -> FreshnessModel {
        match *self {
            GraphFreshness::Fresh => FreshnessModel::Fresh,
            GraphFreshness::Unknown { reason } => FreshnessModel::Unknown(reason@),
        }
    }
}

/// The number of a committed state of the graph.
#[derive(Debug, Clone, Copy, PartialEq, Eq, Structural)]
pub struct GraphGeneration(pub u64);

/// What an answer says of itself.
#[derive(Debug, PartialEq, Eq)]
pub struct AnswerMetadata {
    pub generation: Option<GraphGeneration>,
    pub freshness: GraphFreshness,
    pub evidence: EvidenceQuality,
    pub coverage: Option<Coverage>,
}

/// The model of an [`AnswerMetadata`].
pub struct MetadataModel {
    pub generation: Option<GraphGeneration>,
    pub freshness: FreshnessModel,
    pub evidence: EvidenceModel,
    pub coverage: Option<Coverage>,
}

impl View for AnswerMetadata {
    type V = MetadataModel;

    open spec fn view(&self) -> MetadataModel {
        MetadataModel {
            generation: self.generation,
            freshness: self.freshness@,
            evidence: self.evidence@,
            coverage: self.coverage,
        }
    }
}

/// An answer with what it says of itself.
#[derive(Debug)]
pub struct GraphAnswer<T> {
    pub meta: AnswerMetadata,
    pub data: T,
}

/// The notation of a text in quotes, with escapes.
pub uninterp spec fn quoted(s: Seq<char>) -> Seq<char>;

/// The `Debug` notation of a `str`, which depends on the text alone.
#[verifier::external_body]
pub(crate) fn quote(s: &str) -> (r: String)
    ensures
        r@ == quoted(s@),
{
    format!("{s:?}")
}

/// Why a text is no number, in words.
pub uninterp spec fn number_fault(s: Seq<char>) -> Seq<char>;

/// The words of the error of `str::parse` for an unsigned number of 64 bits;
/// none where there is no error.
#[verifier::external_body]
fn say_number_fault(s: &str) -> (r: String)
    ensures
        r@ == number_fault(s@),
{
    match s.parse::<u64>() {
        Ok(_) => String::new(),
        Err(e) => e.to_string(),
    }
}

/// The number of the state that the index carries: none where it carries no
/// stamp, and an error where the stamp is no number.
pub open spec fn stamp_of(s: StoreModel) -> Result<Option<GraphGeneration>, Seq<char>> {
    match store::meta_value(s.meta, "generation"@) {
        None => Ok(None),
        Some(g) => match text::parse_nat(g) {
            Some(n) => if n <= u64::MAX {
                Ok(Some(GraphGeneration(n as u64)))
            } else {
                Err("malformed generation stamp "@ + quoted(g) + ": "@ + number_fault(g))
            },
            None => Err("malformed generation stamp "@ + quoted(g) + ": "@ + number_fault(g)),
        },
    }
}

/// What an answer from the current tables says of itself. A missing stamp is
/// never made up: the freshness is then unknown. A malformed one leaves no
/// evidence.
pub open spec fn metadata_of(s: StoreModel, evidence: EvidenceModel) -> MetadataModel {
    match stamp_of(s) {
        Ok(Some(g)) => MetadataModel {
            generation: Some(g),
            freshness: FreshnessModel::Fresh,
            evidence,
            coverage: None,
        },
        Ok(None) => MetadataModel {
            generation: None,
            freshness: FreshnessModel::Unknown(
                "graph carries no generation stamp (legacy index)"@,
            ),
            evidence,
            coverage: None,
        },
        Err(e) => MetadataModel {
            generation: None,
            freshness: FreshnessModel::Unknown(e),
            evidence: EvidenceModel::Unavailable(e),
            coverage: None,
        },
    }
}

/// See [`metadata_of`].
pub fn metadata_for(store: &Store, evidence: EvidenceQuality) -> (r: AnswerMetadata)
    ensures
        r@ == metadata_of(store@, evidence@),
{
    match store.meta_get("generation") {
        None => AnswerMetadata {
            generation: None,
            freshness: GraphFreshness::Unknown {
                reason: "graph carries no generation stamp (legacy index)".to_owned(),
            },
            evidence,
            coverage: None,
        },
        Some(g) => match text::parse_number(g.as_str(), u64::MAX) {
            Some(n) => AnswerMetadata {
                generation: Some(GraphGeneration(n)),
                freshness: GraphFreshness::Fresh,
                evidence,
                coverage: None,
            },
            None => {
                let q = quote(g.as_str());
                let f = say_number_fault(g.as_str());
                let reason = "malformed generation stamp ".to_owned().concat(q.as_str()).concat(
                    ": ",
                ).concat(f.as_str());
                AnswerMetadata {
                    generation: None,
                    freshness: GraphFreshness::Unknown { reason: reason.clone() },
                    evidence: EvidenceQuality::Unavailable { reason },
                    coverage: None,
                }
            },
        },
    }
}

} // verus!
