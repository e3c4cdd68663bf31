//! The top-level aggregates: the Coverage Index over all chromosomes, and
//! the compact feature-membership sets of an experiment.

use vstd::prelude::*;

use crate::DbID;
use crate::bitmap::{treemap_contents, treemap_new};
use crate::chrom_data::{ChromosomeData, ChromosomeModel};
use crate::facets::{Facet, FacetModel, facet_wf};
use crate::regeffects::{BucketLoc, ObservationData, ObservationModel};
use roaring::RoaringTreemap;

verus! {

/// The Coverage Index: every chromosome's data, the facet catalog, the
/// chromosome lengths, the observation lists split by significance, and the
/// feature-id → bucket-key table.
#[derive(Clone, Debug, PartialEq)]
pub struct CoverageData {
    pub significant_observations: Vec<ObservationData>,
    pub nonsignificant_observations: Vec<ObservationData>,
    pub bucket_size: u32,
    pub chromosomes: Vec<ChromosomeData>,
    pub facets: Vec<Facet>,
    pub chrom_lengths: Vec<usize>,
    /// Feature id → bucket key pairs; well-formed data lists each id once.
    pub feature_buckets: Vec<(DbID, BucketLoc)>,
}

/// Mathematical model of a Coverage Index.
#[verifier::ext_equal]
pub struct CoverageModel {
    pub significant_observations: Seq<ObservationModel>,
    pub nonsignificant_observations: Seq<ObservationModel>,
    pub bucket_size: u32,
    pub chromosomes: Seq<ChromosomeModel>,
    pub facets: Seq<FacetModel>,
    pub chrom_lengths: Seq<usize>,
    pub feature_buckets: Seq<(u64, BucketLoc)>,
}

impl View for CoverageData {
    type V = CoverageModel;

    open spec fn view(&self) -> CoverageModel {
        CoverageModel {
            significant_observations: self.significant_observations.deep_view(),
            nonsignificant_observations: self.nonsignificant_observations.deep_view(),
            bucket_size: self.bucket_size,
            chromosomes: self.chromosomes.deep_view(),
            facets: self.facets.deep_view(),
            chrom_lengths: self.chrom_lengths.deep_view(),
            feature_buckets: self.feature_buckets.deep_view(),
        }
    }
}

impl DeepView for CoverageData {
    type V = CoverageModel;

    open spec fn deep_view(&self) -> CoverageModel {
        self.view()
    }
}

/// Law: the significant and nonsignificant lists partition the observations
/// — no observation id appears on both sides.
pub open spec fn reo_partition_ok(m: CoverageModel) -> bool {
    forall|i: int, j: int|
        0 <= i < m.significant_observations.len() && 0 <= j
            < m.nonsignificant_observations.len() ==> m.significant_observations[i].reo_id
            != m.nonsignificant_observations[j].reo_id
}

/// A well-formed Coverage Index: a positive bucket size, one length per
/// chromosome, well-formed facets, a feature table without repeated ids, and
/// observation lists disjoint by id.
pub open spec fn coverage_wf(m: CoverageModel) -> bool {
    &&& m.bucket_size > 0
    &&& m.chromosomes.len() == m.chrom_lengths.len()
    &&& forall|i: int| 0 <= i < m.facets.len() ==> facet_wf(#[trigger] m.facets[i])
    &&& forall|i: int, j: int|
        0 <= i < j < m.feature_buckets.len() ==> m.feature_buckets[i].0 != m.feature_buckets[j].0
    &&& reo_partition_ok(m)
}

/// Law: in a well-formed Coverage Index, the observation-id sets of the
/// significant and nonsignificant lists are disjoint.
pub proof fn lemma_coverage_wf_partitions_observations(m: CoverageModel)
    requires
        coverage_wf(m),
    ensures
        reo_partition_ok(m),
        forall|i: int, j: int|
            0 <= i < m.significant_observations.len() && 0 <= j
                < m.nonsignificant_observations.len() ==> m.significant_observations[i].reo_id
                != m.nonsignificant_observations[j].reo_id,
{
}

impl CoverageData {
    /// Aggregates a Coverage Index from all of its parts at once; no
    /// partially initialized index can be built.
    pub fn new(
        significant_observations: Vec<ObservationData>,
        nonsignificant_observations: Vec<ObservationData>,
        bucket_size: u32,
        chromosomes: Vec<ChromosomeData>,
        facets: Vec<Facet>,
        chrom_lengths: Vec<usize>,
        feature_buckets: Vec<(DbID, BucketLoc)>,
    ) -> (r: Self)
        ensures
            r@.significant_observations == significant_observations.deep_view(),
            r@.nonsignificant_observations == nonsignificant_observations.deep_view(),
            r@.bucket_size == bucket_size,
            r@.chromosomes == chromosomes.deep_view(),
            r@.facets == facets.deep_view(),
            r@.chrom_lengths == chrom_lengths.deep_view(),
            r@.feature_buckets == feature_buckets.deep_view(),
    {
        CoverageData {
            significant_observations,
            nonsignificant_observations,
            bucket_size,
            chromosomes,
            facets,
            chrom_lengths,
            feature_buckets,
        }
    }
}

/// The compact membership sets of one experiment: the ids of features acting
/// as source, and as target, in at least one significant observation.
#[derive(Debug)]
pub struct ExperimentFeatureData {
    pub sources: RoaringTreemap,
    pub targets: RoaringTreemap,
}

/// Mathematical model of the membership sets.
#[verifier::ext_equal]
pub struct FeatureDataModel {
    pub sources: Set<u64>,
    pub targets: Set<u64>,
}

impl View for ExperimentFeatureData {
    type V = FeatureDataModel;

    open spec fn view(&self) -> FeatureDataModel {
        FeatureDataModel {
            sources: treemap_contents(self.sources),
            targets: treemap_contents(self.targets),
        }
    }
}

impl ExperimentFeatureData {
    /// Wraps the two membership bitmaps.
    pub fn new(sources: RoaringTreemap, targets: RoaringTreemap) -> (r: Self)
        ensures
            r@.sources == treemap_contents(sources),
            r@.targets == treemap_contents(targets),
    {
        ExperimentFeatureData { sources, targets }
    }

    /// Both membership sets empty.
    pub fn default() -> (r: Self)
        ensures
            r@.sources == Set::<u64>::empty(),
            r@.targets == Set::<u64>::empty(),
    {
        ExperimentFeatureData { sources: treemap_new(), targets: treemap_new() }
    }
}

} // verus!
