use cov_index::chrom_data::ChromosomeData;
use cov_index::codec::{DecodeError, FieldName};
use cov_index::coverage_data::{CoverageData, ExperimentFeatureData};
use cov_index::facets::{Facet, FacetCoverage, FacetRange, FacetRange64};
use cov_index::interval::Interval;
use cov_index::regeffects::{BucketLoc, ObservationData, RegEffectData};
use cov_index::serialize::{
    decode_coverage_data, decode_experiment_feature_data, decode_interval, encode_coverage_data,
    encode_experiment_feature_data, encode_interval,
};

use roaring::RoaringTreemap;

fn obs(reo_id: u64, target: Option<u64>) -> ObservationData {
    ObservationData {
        reo_id,
        facet_value_ids: vec![100, 200, 300],
        source_id: 7,
        target_id: target,
        effect_size: 0.25f32.to_bits(),
        significance: 0.001f64.to_bits(),
        neg_log_significance: 3.0f64.to_bits(),
    }
}

fn sample_coverage() -> CoverageData {
    let facet_num = Facet {
        id: 1,
        name: "Effect Size".to_string(),
        facet_type: "FacetType.NUMERIC".to_string(),
        description: "effect size of an observation".to_string(),
        coverage: Some(vec![FacetCoverage::Target, FacetCoverage::Source]),
        range: Some(FacetRange(0.0f32.to_bits(), 1.0f32.to_bits())),
        range64: None,
        values: None,
    };
    let facet_cat = Facet {
        id: 2,
        name: "Direction".to_string(),
        facet_type: "FacetType.CATEGORICAL".to_string(),
        description: "ßpécial déscription".to_string(),
        coverage: None,
        range: None,
        range64: Some(FacetRange64(0.0f64.to_bits(), 10.0f64.to_bits())),
        values: Some(vec![(5, "Enriched Only".to_string()), (6, "Depleted Only".to_string())]),
    };
    CoverageData::new(
        vec![obs(1, Some(42)), obs(2, None)],
        vec![obs(3, None)],
        2_000_000,
        vec![ChromosomeData::from("chr1", 0), ChromosomeData::from("chrX", 22)],
        vec![facet_num, facet_cat],
        vec![248_956_422, 156_040_895],
        vec![(42, BucketLoc { chrom: 0, idx: 5 }), (43, BucketLoc { chrom: 1, idx: 9 })],
    )
}

#[test]
fn coverage_round_trip_is_field_wise_equal() {
    let x = sample_coverage();
    let bytes = encode_coverage_data(&x);
    let y = decode_coverage_data(&bytes).unwrap();
    assert_eq!(x, y);
}

#[test]
fn coverage_round_trip_empty() {
    let x = CoverageData::new(vec![], vec![], 1, vec![], vec![], vec![], vec![]);
    let bytes = encode_coverage_data(&x);
    let y = decode_coverage_data(&bytes).unwrap();
    assert_eq!(x, y);
}

/// Byte-level helpers for hand-building map-shaped streams.
fn push_u32(out: &mut Vec<u8>, v: u32) {
    out.extend_from_slice(&v.to_le_bytes());
}

fn push_u64(out: &mut Vec<u8>, v: u64) {
    out.extend_from_slice(&v.to_le_bytes());
}

/// A map-shaped Coverage Index with empty lists, with `skip` left out.
fn coverage_bytes_without(skip: u8) -> Vec<u8> {
    let mut out: Vec<u8> = vec![6];
    for id in 0u8..7 {
        if id == skip {
            continue;
        }
        out.push(id);
        if id == 2 {
            push_u32(&mut out, 1024);
        } else {
            push_u64(&mut out, 0);
        }
    }
    out
}

#[test]
fn missing_field_is_rejected_by_name() {
    let cases = [
        (0u8, FieldName::SignificantObservations),
        (1u8, FieldName::NonsignificantObservations),
        (2u8, FieldName::BucketSize),
        (3u8, FieldName::Chromosomes),
        (4u8, FieldName::Facets),
        (5u8, FieldName::ChromLengths),
        (6u8, FieldName::FeatureBuckets),
    ];
    for (skip, field) in cases {
        let bytes = coverage_bytes_without(skip);
        let got = decode_coverage_data(&bytes);
        assert_eq!(got, Err(DecodeError::MissingField { field }));
    }
}

#[test]
fn duplicate_field_is_rejected_by_name() {
    let mut out: Vec<u8> = vec![2];
    out.push(2);
    push_u32(&mut out, 1024);
    out.push(2);
    push_u32(&mut out, 1024);
    let got = decode_coverage_data(&out);
    assert_eq!(got, Err(DecodeError::DuplicateField { field: FieldName::BucketSize }));
}

#[test]
fn unknown_field_and_truncation_are_structural() {
    let unknown: Vec<u8> = vec![1, 9];
    assert!(matches!(decode_coverage_data(&unknown), Err(DecodeError::Structure { .. })));

    let x = sample_coverage();
    let mut bytes = encode_coverage_data(&x);
    bytes.truncate(bytes.len() - 1);
    assert!(matches!(decode_coverage_data(&bytes), Err(DecodeError::Structure { .. })));

    let mut extra = encode_coverage_data(&x);
    extra.push(0);
    assert!(matches!(decode_coverage_data(&extra), Err(DecodeError::Structure { .. })));
}

#[test]
fn feature_data_round_trip_small_and_sparse() {
    let mut sources = RoaringTreemap::new();
    sources.insert(1);
    sources.insert(2);
    sources.insert(1_000_000);
    let targets = RoaringTreemap::new();
    let x = ExperimentFeatureData::new(sources, targets);

    let bytes = encode_experiment_feature_data(&x);
    let y = decode_experiment_feature_data(&bytes).unwrap();
    assert_eq!(y.sources.len(), 3);
    assert!(y.sources.contains(1) && y.sources.contains(2) && y.sources.contains(1_000_000));
    assert_eq!(y.targets.len(), 0);
}

#[test]
fn feature_data_round_trip_dense_and_high() {
    let mut sources = RoaringTreemap::new();
    for v in 0..10_000u64 {
        sources.insert(v);
    }
    let mut targets = RoaringTreemap::new();
    targets.insert(u64::MAX);
    targets.insert(1u64 << 40);
    let x = ExperimentFeatureData::new(sources.clone(), targets.clone());

    let bytes = encode_experiment_feature_data(&x);
    let y = decode_experiment_feature_data(&bytes).unwrap();
    assert_eq!(y.sources, sources);
    assert_eq!(y.targets, targets);
}

#[test]
fn feature_data_default_round_trip() {
    let x = ExperimentFeatureData::default();
    let bytes = encode_experiment_feature_data(&x);
    let y = decode_experiment_feature_data(&bytes).unwrap();
    assert!(y.sources.is_empty() && y.targets.is_empty());
}

#[test]
fn feature_data_missing_field_is_rejected_by_name() {
    let empty_blob: Vec<u8> = {
        let t = RoaringTreemap::new();
        let mut blob: Vec<u8> = vec![];
        t.serialize_into(&mut blob).unwrap();
        blob
    };
    let mut only_sources: Vec<u8> = vec![1, 0];
    push_u64(&mut only_sources, empty_blob.len() as u64);
    only_sources.extend_from_slice(&empty_blob);
    let got = decode_experiment_feature_data(&only_sources);
    match got {
        Err(DecodeError::MissingField { field }) => assert_eq!(field, FieldName::Targets),
        other => panic!("expected a missing-field error, got {:?}", other.err()),
    }
}

#[test]
fn feature_data_malformed_bitmap_is_rejected() {
    let mut bytes: Vec<u8> = vec![2, 0];
    push_u64(&mut bytes, 3);
    bytes.extend_from_slice(&[1, 2, 3]);
    let got = decode_experiment_feature_data(&bytes);
    assert!(matches!(got, Err(DecodeError::BitmapDecodeFailure { .. })));
}

#[test]
fn interval_round_trip() {
    let mut e = RegEffectData::new();
    e.add_facets(obs(9, Some(8)));
    e.update_buckets(&vec![
        BucketLoc { chrom: 0, idx: 3 },
        BucketLoc { chrom: 2, idx: 1 },
    ]);
    let iv = Interval::new(6_000_000, vec![e, RegEffectData::new()]);

    let bytes = encode_interval(&iv);
    let got = decode_interval(&bytes).unwrap();
    assert_eq!(got.start, 6_000_000);
    assert_eq!(got.values.len(), 2);
    assert_eq!(got.values[0].facets().as_slice(), &[obs(9, Some(8))]);
    assert_eq!(
        got.values[0].associated_buckets().as_slice(),
        &[BucketLoc { chrom: 0, idx: 3 }, BucketLoc { chrom: 2, idx: 1 }]
    );
    assert_eq!(got.values[1].facets().len(), 0);
    assert_eq!(got.values[1].associated_buckets().len(), 0);
}

#[test]
fn decoded_entity_still_deduplicates() {
    let mut e = RegEffectData::new();
    e.update_buckets(&vec![BucketLoc { chrom: 0, idx: 1 }]);
    let iv = Interval::new(0, vec![e]);
    let bytes = encode_interval(&iv);
    let mut got = decode_interval(&bytes).unwrap();
    let entity = &mut got.values[0];
    entity.update_buckets(&vec![
        BucketLoc { chrom: 0, idx: 1 },
        BucketLoc { chrom: 0, idx: 2 },
    ]);
    assert_eq!(
        entity.associated_buckets().as_slice(),
        &[BucketLoc { chrom: 0, idx: 1 }, BucketLoc { chrom: 0, idx: 2 }]
    );
}

#[test]
fn interval_missing_field_is_rejected_by_name() {
    let mut bytes: Vec<u8> = vec![1, 0];
    push_u32(&mut bytes, 77);
    let got = decode_interval(&bytes);
    assert!(got.is_err());
    match got {
        Err(DecodeError::MissingField { field }) => assert_eq!(field, FieldName::Values),
        other => panic!("expected a missing-field error, got {:?}", other),
    }
}

#[test]
fn field_names_label_the_wire_names() {
    assert_eq!(FieldName::SignificantObservations.label(), "significant_observations");
    assert_eq!(FieldName::Facets.label(), "facets");
    assert_eq!(FieldName::Sources.label(), "sources");
    assert_eq!(FieldName::Start.label(), "start");
}

#[test]
fn garbage_bytes_are_rejected_not_accepted() {
    assert!(decode_coverage_data(&vec![]).is_err());
    assert!(decode_coverage_data(&vec![255, 1, 2, 3]).is_err());
    assert!(decode_experiment_feature_data(&vec![7u8; 40]).is_err());
    assert!(decode_interval(&vec![2, 0]).is_err());
}
