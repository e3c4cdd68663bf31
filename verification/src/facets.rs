//! The facet catalog: descriptions of the categorical and numeric annotation
//! dimensions attachable to observations.

use vstd::prelude::*;

use crate::DbID;

verus! {

/// Which coverage side(s) a facet applies to.
#[derive(Copy, Clone, Debug, PartialEq, Eq, Hash, Structural)]
pub enum FacetCoverage {
    Target,
    Source,
}

impl View for FacetCoverage {
    type V = FacetCoverage;

    open spec fn view(&self) -> FacetCoverage {
        *self
    }
}

impl DeepView for FacetCoverage {
    type V = FacetCoverage;

    open spec fn deep_view(&self) -> FacetCoverage {
        *self
    }
}

/// Numeric range (low, high) of a 32-bit-float facet, held as the IEEE-754
/// bit patterns of the two bounds.
#[derive(Clone, Copy, Debug, PartialEq, Eq, Structural)]
pub struct FacetRange(pub u32, pub u32);

impl View for FacetRange {
    type V = FacetRange;

    open spec fn view(&self) -> FacetRange {
        *self
    }
}

impl DeepView for FacetRange {
    type V = FacetRange;

    open spec fn deep_view(&self) -> FacetRange {
        *self
    }
}

/// Numeric range (low, high) of a 64-bit-float facet, held as the IEEE-754
/// bit patterns of the two bounds.
#[derive(Clone, Copy, Debug, PartialEq, Eq, Structural)]
pub struct FacetRange64(pub u64, pub u64);

impl View for FacetRange64 {
    type V = FacetRange64;

    open spec fn view(&self) -> FacetRange64 {
        *self
    }
}

impl DeepView for FacetRange64 {
    type V = FacetRange64;

    open spec fn deep_view(&self) -> FacetRange64 {
        *self
    }
}

/// One facet catalog entry. This component only holds and serializes the
/// value; consistency of `facet_type` with the populated optional fields is
/// the producer's responsibility and is described by [`facet_wf`].
#[derive(Clone, Debug, PartialEq)]
pub struct Facet {
    pub id: DbID,
    pub name: String,
    pub facet_type: String,
    pub description: String,
    /// Applicable coverage sides; when present, non-empty and without
    /// repeats.
    pub coverage: Option<Vec<FacetCoverage>>,
    pub range: Option<FacetRange>,
    pub range64: Option<FacetRange64>,
    /// Categorical value table as (value id, label) pairs with unique ids.
    pub values: Option<Vec<(DbID, String)>>,
}

/// Mathematical model of a facet catalog entry.
#[verifier::ext_equal]
pub struct FacetModel {
    pub id: u64,
    pub name: Seq<char>,
    pub facet_type: Seq<char>,
    pub description: Seq<char>,
    pub coverage: Option<Seq<FacetCoverage>>,
    pub range: Option<FacetRange>,
    pub range64: Option<FacetRange64>,
    pub values: Option<Seq<(u64, Seq<char>)>>,
}

impl View for Facet {
    type V = FacetModel;

    open spec fn view(&self) -> FacetModel {
        FacetModel {
            id: self.id,
            name: self.name@,
            facet_type: self.facet_type@,
            description: self.description@,
            coverage: self.coverage.deep_view(),
            range: self.range.deep_view(),
            range64: self.range64.deep_view(),
            values: self.values.deep_view(),
        }
    }
}

impl DeepView for Facet {
    type V = FacetModel;

    open spec fn deep_view(&self) -> FacetModel {
        self.view()
    }
}

/// A well-formed facet populates exactly one of the numeric ranges and the
/// categorical table, lists each categorical value id once, and, when it
/// restricts its coverage sides, names at least one side and none twice.
pub open spec fn facet_wf(m: FacetModel) -> bool {
    &&& {
        ||| (m.range is Some && m.range64 is None && m.values is None)
        ||| (m.range is None && m.range64 is Some && m.values is None)
        ||| (m.range is None && m.range64 is None && m.values is Some)
    }
    &&& match m.values {
        Some(vs) => forall|i: int, j: int| 0 <= i < j < vs.len() ==> vs[i].0 != vs[j].0,
        None => true,
    }
    &&& match m.coverage {
        Some(cs) => cs.len() > 0 && (forall|i: int, j: int|
            0 <= i < j < cs.len() ==> cs[i] != cs[j]),
        None => true,
    }
}

/// One facet value of a categorical facet.
#[derive(Clone, Debug, PartialEq)]
pub struct FacetValue {
    pub id: DbID,
    pub value: String,
    pub facet_id: DbID,
}

/// The experiment facet table: each facet name that faceted filtering uses,
/// with the coverage sides it applies to (all of them apply to both).
pub fn facet_set() -> (r: Vec<(String, Vec<FacetCoverage>)>)
    ensures
        r@.len() == 7,
        forall|i: int|
            0 <= i < r@.len() ==> (#[trigger] r@[i].1@) == seq![
                FacetCoverage::Target,
                FacetCoverage::Source,
            ],
        r@[0].0@ == "Direction"@,
        r@[1].0@ == "Effect Size"@,
        r@[2].0@ == "cCRE Category"@,
        r@[3].0@ == "cCRE Overlap"@,
        r@[4].0@ == "Significance"@,
        r@[5].0@ == "Raw p value"@,
        r@[6].0@ == "gRNA Type"@,
{
    let mut experiment_facets: Vec<(String, Vec<FacetCoverage>)> = Vec::new();
    experiment_facets.push(
        ("Direction".to_owned(), vec![FacetCoverage::Target, FacetCoverage::Source]),
    );
    experiment_facets.push(
        ("Effect Size".to_owned(), vec![FacetCoverage::Target, FacetCoverage::Source]),
    );
    experiment_facets.push(
        ("cCRE Category".to_owned(), vec![FacetCoverage::Target, FacetCoverage::Source]),
    );
    experiment_facets.push(
        ("cCRE Overlap".to_owned(), vec![FacetCoverage::Target, FacetCoverage::Source]),
    );
    experiment_facets.push(
        ("Significance".to_owned(), vec![FacetCoverage::Target, FacetCoverage::Source]),
    );
    experiment_facets.push(
        ("Raw p value".to_owned(), vec![FacetCoverage::Target, FacetCoverage::Source]),
    );
    experiment_facets.push(
        ("gRNA Type".to_owned(), vec![FacetCoverage::Target, FacetCoverage::Source]),
    );
    experiment_facets
}

} // verus!
