use cov_index::chrom_data::ChromosomeData;
use cov_index::facets::{facet_set, FacetCoverage};
use cov_index::regeffects::{BucketLoc, ObservationData, RegEffectData};

fn bl(chrom: u8, idx: u32) -> BucketLoc {
    BucketLoc { chrom, idx }
}

fn obs(reo_id: u64) -> ObservationData {
    ObservationData {
        reo_id,
        facet_value_ids: vec![10, 20],
        source_id: 1,
        target_id: Some(2),
        effect_size: 0x3f800000,
        significance: 0x3fe0000000000000,
        neg_log_significance: 0x3fd0000000000000,
    }
}

#[test]
fn update_buckets_two_then_overlap() {
    let mut e = RegEffectData::new();
    e.update_buckets(&vec![bl(0, 5), bl(0, 6)]);
    assert_eq!(e.associated_buckets().as_slice(), &[bl(0, 5), bl(0, 6)]);

    e.update_buckets(&vec![bl(0, 6), bl(0, 7)]);
    assert_eq!(e.associated_buckets().len(), 3);
    assert_eq!(e.associated_buckets().as_slice(), &[bl(0, 5), bl(0, 6), bl(0, 7)]);
}

#[test]
fn update_buckets_idempotent() {
    let mut once = RegEffectData::new();
    once.update_buckets(&vec![bl(1, 2), bl(3, 4), bl(1, 2)]);
    let mut twice = RegEffectData::new();
    twice.update_buckets(&vec![bl(1, 2), bl(3, 4), bl(1, 2)]);
    twice.update_buckets(&vec![bl(1, 2), bl(3, 4), bl(1, 2)]);
    assert_eq!(once.associated_buckets().as_slice(), twice.associated_buckets().as_slice());
}

#[test]
fn update_buckets_no_duplicates_over_many_calls() {
    let mut e = RegEffectData::new();
    e.update_buckets(&vec![bl(0, 1), bl(0, 2)]);
    e.update_buckets(&vec![bl(0, 2), bl(0, 3)]);
    e.update_buckets(&vec![bl(0, 1), bl(0, 3), bl(2, 1)]);
    let got = e.associated_buckets();
    for i in 0..got.len() {
        for j in (i + 1)..got.len() {
            assert!(got[i] != got[j]);
        }
    }
    assert_eq!(got.len(), 4);
}

#[test]
fn update_buckets_accumulates_union() {
    let mut e = RegEffectData::new();
    e.update_buckets(&vec![bl(0, 1)]);
    e.update_buckets(&vec![bl(7, 9), bl(0, 1)]);
    e.update_buckets(&vec![bl(0, 2)]);
    let got = e.associated_buckets();
    for want in [bl(0, 1), bl(7, 9), bl(0, 2)] {
        assert!(got.contains(&want));
    }
    assert_eq!(got.len(), 3);
}

#[test]
fn add_facets_keeps_repeats_and_buckets() {
    let mut e = RegEffectData::new();
    e.update_buckets(&vec![bl(0, 5)]);
    e.add_facets(obs(11));
    e.add_facets(obs(11));
    assert_eq!(e.facets().len(), 2);
    assert_eq!(e.facets()[0], obs(11));
    assert_eq!(e.facets()[1], obs(11));
    assert_eq!(e.associated_buckets().as_slice(), &[bl(0, 5)]);
}

#[test]
fn bucket_key_orders_like_bucket_loc() {
    let a = bl(0, 5);
    let b = bl(0, 6);
    let c = bl(1, 0);
    assert!(a < b && b < c);
    assert!(a.key() < b.key() && b.key() < c.key());
}

#[test]
fn chromosome_data_from_sets_fields() {
    let cd = ChromosomeData::from("chrX", 22);
    assert_eq!(cd.chrom, "chrX");
    assert_eq!(cd.index, 22);
}

#[test]
fn facet_set_has_all_experiment_facets() {
    let fs = facet_set();
    assert_eq!(fs.len(), 7);
    let names: Vec<&str> = fs.iter().map(|p| p.0.as_str()).collect();
    assert_eq!(
        names,
        vec![
            "Direction",
            "Effect Size",
            "cCRE Category",
            "cCRE Overlap",
            "Significance",
            "Raw p value",
            "gRNA Type"
        ]
    );
    for (_, sides) in fs.iter() {
        assert_eq!(sides.as_slice(), &[FacetCoverage::Target, FacetCoverage::Source]);
    }
}
