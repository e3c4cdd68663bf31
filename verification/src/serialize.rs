//! The binary codec of the data model: deterministic, field-ordered
//! encodings of every structure, and decoders proved to recover any encoded
//! value exactly. The top-level structures use a self-describing map-shaped
//! layout whose decoder rejects missing and duplicated fields by name.

use vstd::prelude::*;

use crate::DbID;
use crate::chrom_data::{ChromosomeData, ChromosomeModel};
use crate::bitmap::{treemap_contents, treemap_deserialize, treemap_of_bytes, treemap_serialize};
use crate::coverage_data::{
    CoverageData, CoverageModel, ExperimentFeatureData, FeatureDataModel,
};
use roaring::RoaringTreemap;
use crate::codec::{
    Codec, DecodeError, decode_u32, decode_u64, decode_u8, decode_vec_of, decode_option_of,
    FieldName, bytes_fits, cat_bytes, decode_bytes, decode_option_vec_of, enc_list_of, enc_option_list_of, enc_option_of,
    enc_bytes, enc_str, enc_u32, enc_u64, enc_u8, encode_bytes, encode_option_vec_of, encode_u32, encode_u64, encode_u8,
    encode_vec_of, encode_option_of, lemma_cat_bytes_push, lemma_cat_bytes_skip_step,
    lemma_cat_bytes_split, lemma_enc_u32_len, lemma_enc_u64_len, lemma_starts_at_concat,
    list_fits, option_list_fits, starts_at, str_fits,
};
use crate::facets::{Facet, FacetCoverage, FacetModel, FacetRange, FacetRange64};
use crate::interval::{Interval, IntervalModel};
use crate::regeffects::{BucketLoc, ObservationData, ObservationModel, RegEffectData};

verus! {

broadcast use lemma_enc_u32_len, lemma_enc_u64_len;

/// Encoding of a bucket key: chromosome index, then intra-chromosome index.
pub open spec fn enc_bucket_loc(m: BucketLoc) -> Seq<u8> {
    enc_u8(m.chrom) + enc_u32(m.idx)
}

/// Positions of the parts of an encoded bucket key.
proof fn lemma_bucket_loc_parts(b: Seq<u8>, pos: int, m: BucketLoc)
    requires
        starts_at(b, pos, enc_bucket_loc(m)),
    ensures
        starts_at(b, pos, enc_u8(m.chrom)),
        starts_at(b, pos + 1, enc_u32(m.idx)),
{
    lemma_starts_at_concat(b, pos, enc_u8(m.chrom), enc_u32(m.idx));
}

impl Codec for BucketLoc {
    open spec fn enc(m: BucketLoc) -> Seq<u8> {
        enc_bucket_loc(m)
    }

    open spec fn fits(m: BucketLoc) -> bool {
        true
    }

    open spec fn decode_inv(&self) -> bool {
        true
    }

    fn encode(&self, out: &mut Vec<u8>) {
        encode_u8(self.chrom, out);
        encode_u32(self.idx, out);
        proof {
            assert(out@ =~= old(out)@ + enc_bucket_loc(self@));
        }
    }

    fn decode(b: &[u8], pos: usize) -> (r: Result<(Self, usize), DecodeError>) {
        let (chrom, p1) = match decode_u8(b, pos) {
            Ok(x) => x,
            Err(e) => {
                proof {
                    assert forall|m: BucketLoc| starts_at(
                        b@,
                        pos as int,
                        enc_bucket_loc(m),
                    ) implies false by {
                        lemma_bucket_loc_parts(b@, pos as int, m);
                    };
                }
                return Err(e);
            },
        };
        let (idx, p2) = match decode_u32(b, p1) {
            Ok(x) => x,
            Err(e) => {
                proof {
                    assert forall|m: BucketLoc| starts_at(
                        b@,
                        pos as int,
                        enc_bucket_loc(m),
                    ) implies false by {
                        lemma_bucket_loc_parts(b@, pos as int, m);
                    };
                }
                return Err(e);
            },
        };
        let v = BucketLoc { chrom, idx };
        proof {
            assert forall|m: BucketLoc| starts_at(b@, pos as int, enc_bucket_loc(m)) implies v == m
                && p2 == pos + enc_bucket_loc(m).len() by {
                lemma_bucket_loc_parts(b@, pos as int, m);
            };
        }
        Ok((v, p2))
    }
}

/// Encoding of an observation record, field by field in declaration order.
pub open spec fn enc_observation(m: ObservationModel) -> Seq<u8> {
    enc_u64(m.reo_id) + enc_list_of::<u64>(m.facet_value_ids) + enc_u64(m.source_id)
        + enc_option_of::<u64>(m.target_id) + enc_u32(m.effect_size) + enc_u64(m.significance)
        + enc_u64(m.neg_log_significance)
}

/// Encodings a real observation record can have.
pub open spec fn observation_fits(m: ObservationModel) -> bool {
    list_fits::<u64>(m.facet_value_ids)
}

/// Positions of the parts of an encoded observation record.
proof fn lemma_observation_parts(b: Seq<u8>, pos: int, m: ObservationModel)
    requires
        starts_at(b, pos, enc_observation(m)),
    ensures
        starts_at(b, pos, enc_u64(m.reo_id)),
        starts_at(b, pos + 8, enc_list_of::<u64>(m.facet_value_ids)),
        starts_at(
            b,
            pos + 8 + enc_list_of::<u64>(m.facet_value_ids).len(),
            enc_u64(m.source_id),
        ),
        starts_at(
            b,
            pos + 16 + enc_list_of::<u64>(m.facet_value_ids).len(),
            enc_option_of::<u64>(m.target_id),
        ),
        starts_at(
            b,
            pos + 16 + enc_list_of::<u64>(m.facet_value_ids).len() + enc_option_of::<u64>(
                m.target_id,
            ).len(),
            enc_u32(m.effect_size),
        ),
        starts_at(
            b,
            pos + 20 + enc_list_of::<u64>(m.facet_value_ids).len() + enc_option_of::<u64>(
                m.target_id,
            ).len(),
            enc_u64(m.significance),
        ),
        starts_at(
            b,
            pos + 28 + enc_list_of::<u64>(m.facet_value_ids).len() + enc_option_of::<u64>(
                m.target_id,
            ).len(),
            enc_u64(m.neg_log_significance),
        ),
{
    broadcast use lemma_enc_u32_len, lemma_enc_u64_len;

    let e1 = enc_u64(m.reo_id);
    let e2 = enc_list_of::<u64>(m.facet_value_ids);
    let e3 = enc_u64(m.source_id);
    let e4 = enc_option_of::<u64>(m.target_id);
    let e5 = enc_u32(m.effect_size);
    let e6 = enc_u64(m.significance);
    let e7 = enc_u64(m.neg_log_significance);
    assert(enc_observation(m) =~= e1 + (e2 + (e3 + (e4 + (e5 + (e6 + e7))))));
    lemma_starts_at_concat(b, pos, e1, e2 + (e3 + (e4 + (e5 + (e6 + e7)))));
    lemma_starts_at_concat(b, pos + 8, e2, e3 + (e4 + (e5 + (e6 + e7))));
    lemma_starts_at_concat(b, pos + 8 + e2.len(), e3, e4 + (e5 + (e6 + e7)));
    lemma_starts_at_concat(b, pos + 16 + e2.len(), e4, e5 + (e6 + e7));
    lemma_starts_at_concat(b, pos + 16 + e2.len() + e4.len(), e5, e6 + e7);
    lemma_starts_at_concat(b, pos + 20 + e2.len() + e4.len(), e6, e7);
}

impl Codec for ObservationData {
    open spec fn enc(m: ObservationModel) -> Seq<u8> {
        enc_observation(m)
    }

    open spec fn fits(m: ObservationModel) -> bool {
        observation_fits(m)
    }

    open spec fn decode_inv(&self) -> bool {
        true
    }

    fn encode(&self, out: &mut Vec<u8>) {
        encode_u64(self.reo_id, out);
        encode_vec_of::<u64>(&self.facet_value_ids, out);
        encode_u64(self.source_id, out);
        encode_option_of::<u64>(&self.target_id, out);
        encode_u32(self.effect_size, out);
        encode_u64(self.significance, out);
        encode_u64(self.neg_log_significance, out);
        proof {
            assert(out@ =~= old(out)@ + enc_observation(self.deep_view()));
        }
    }

    fn decode(b: &[u8], pos: usize) -> (r: Result<(Self, usize), DecodeError>) {
        let (reo_id, p1) = match decode_u64(b, pos) {
            Ok(x) => x,
            Err(e) => {
                proof {
                    assert forall|m: ObservationModel|
                        observation_fits(m) && starts_at(
                            b@,
                            pos as int,
                            enc_observation(m),
                        ) implies false by {
                        lemma_observation_parts(b@, pos as int, m);
                        assert(starts_at(b@, pos as int, enc_u64(m.reo_id)));
                    };
                }
                return Err(e);
            },
        };
        let (facet_value_ids, p2) = match decode_vec_of::<u64>(b, p1) {
            Ok(x) => x,
            Err(e) => {
                proof {
                    assert forall|m: ObservationModel|
                        observation_fits(m) && starts_at(
                            b@,
                            pos as int,
                            enc_observation(m),
                        ) implies false by {
                        lemma_observation_parts(b@, pos as int, m);
                        assert(starts_at(b@, pos as int, enc_u64(m.reo_id)));
                        assert(p1 == pos + 8);
                        assert(starts_at(b@, p1 as int, enc_list_of::<u64>(m.facet_value_ids)));
                    };
                }
                return Err(e);
            },
        };
        let (source_id, p3) = match decode_u64(b, p2) {
            Ok(x) => x,
            Err(e) => {
                proof {
                    assert forall|m: ObservationModel|
                        observation_fits(m) && starts_at(
                            b@,
                            pos as int,
                            enc_observation(m),
                        ) implies false by {
                        lemma_observation_parts(b@, pos as int, m);
                        assert(starts_at(b@, pos as int, enc_u64(m.reo_id)));
                        assert(p1 == pos + 8);
                        assert(starts_at(b@, p1 as int, enc_list_of::<u64>(m.facet_value_ids)));
                        assert(p2 == p1 + enc_list_of::<u64>(m.facet_value_ids).len());
                        assert(starts_at(b@, p2 as int, enc_u64(m.source_id)));
                    };
                }
                return Err(e);
            },
        };
        let (target_id, p4) = match decode_option_of::<u64>(b, p3) {
            Ok(x) => x,
            Err(e) => {
                proof {
                    assert forall|m: ObservationModel|
                        observation_fits(m) && starts_at(
                            b@,
                            pos as int,
                            enc_observation(m),
                        ) implies false by {
                        lemma_observation_parts(b@, pos as int, m);
                        assert(starts_at(b@, pos as int, enc_u64(m.reo_id)));
                        assert(p1 == pos + 8);
                        assert(starts_at(b@, p1 as int, enc_list_of::<u64>(m.facet_value_ids)));
                        assert(p2 == p1 + enc_list_of::<u64>(m.facet_value_ids).len());
                        assert(starts_at(b@, p2 as int, enc_u64(m.source_id)));
                        assert(p3 == p2 + 8);
                        assert(starts_at(b@, p3 as int, enc_option_of::<u64>(m.target_id)));
                    };
                }
                return Err(e);
            },
        };
        let (effect_size, p5) = match decode_u32(b, p4) {
            Ok(x) => x,
            Err(e) => {
                proof {
                    assert forall|m: ObservationModel|
                        observation_fits(m) && starts_at(
                            b@,
                            pos as int,
                            enc_observation(m),
                        ) implies false by {
                        lemma_observation_parts(b@, pos as int, m);
                        assert(starts_at(b@, pos as int, enc_u64(m.reo_id)));
                        assert(p1 == pos + 8);
                        assert(starts_at(b@, p1 as int, enc_list_of::<u64>(m.facet_value_ids)));
                        assert(p2 == p1 + enc_list_of::<u64>(m.facet_value_ids).len());
                        assert(starts_at(b@, p2 as int, enc_u64(m.source_id)));
                        assert(p3 == p2 + 8);
                        assert(starts_at(b@, p3 as int, enc_option_of::<u64>(m.target_id)));
                        assert(p4 == p3 + enc_option_of::<u64>(m.target_id).len());
                        assert(starts_at(b@, p4 as int, enc_u32(m.effect_size)));
                    };
                }
                return Err(e);
            },
        };
        let (significance, p6) = match decode_u64(b, p5) {
            Ok(x) => x,
            Err(e) => {
                proof {
                    assert forall|m: ObservationModel|
                        observation_fits(m) && starts_at(
                            b@,
                            pos as int,
                            enc_observation(m),
                        ) implies false by {
                        lemma_observation_parts(b@, pos as int, m);
                        assert(starts_at(b@, pos as int, enc_u64(m.reo_id)));
                        assert(p1 == pos + 8);
                        assert(starts_at(b@, p1 as int, enc_list_of::<u64>(m.facet_value_ids)));
                        assert(p2 == p1 + enc_list_of::<u64>(m.facet_value_ids).len());
                        assert(starts_at(b@, p2 as int, enc_u64(m.source_id)));
                        assert(p3 == p2 + 8);
                        assert(starts_at(b@, p3 as int, enc_option_of::<u64>(m.target_id)));
                        assert(p4 == p3 + enc_option_of::<u64>(m.target_id).len());
                        assert(starts_at(b@, p4 as int, enc_u32(m.effect_size)));
                        assert(p5 == p4 + 4);
                        assert(starts_at(b@, p5 as int, enc_u64(m.significance)));
                    };
                }
                return Err(e);
            },
        };
        let (neg_log_significance, p7) = match decode_u64(b, p6) {
            Ok(x) => x,
            Err(e) => {
                proof {
                    assert forall|m: ObservationModel|
                        observation_fits(m) && starts_at(
                            b@,
                            pos as int,
                            enc_observation(m),
                        ) implies false by {
                        lemma_observation_parts(b@, pos as int, m);
                        assert(starts_at(b@, pos as int, enc_u64(m.reo_id)));
                        assert(p1 == pos + 8);
                        assert(starts_at(b@, p1 as int, enc_list_of::<u64>(m.facet_value_ids)));
                        assert(p2 == p1 + enc_list_of::<u64>(m.facet_value_ids).len());
                        assert(starts_at(b@, p2 as int, enc_u64(m.source_id)));
                        assert(p3 == p2 + 8);
                        assert(starts_at(b@, p3 as int, enc_option_of::<u64>(m.target_id)));
                        assert(p4 == p3 + enc_option_of::<u64>(m.target_id).len());
                        assert(starts_at(b@, p4 as int, enc_u32(m.effect_size)));
                        assert(p5 == p4 + 4);
                        assert(starts_at(b@, p5 as int, enc_u64(m.significance)));
                        assert(p6 == p5 + 8);
                        assert(starts_at(b@, p6 as int, enc_u64(m.neg_log_significance)));
                    };
                }
                return Err(e);
            },
        };
        let v = ObservationData {
            reo_id,
            facet_value_ids,
            source_id,
            target_id,
            effect_size,
            significance,
            neg_log_significance,
        };
        proof {
            assert forall|m: ObservationModel|
                observation_fits(m) && starts_at(b@, pos as int, enc_observation(m)) implies v@
                == m && p7 == pos + enc_observation(m).len() by {
                lemma_observation_parts(b@, pos as int, m);
                assert(starts_at(b@, pos as int, enc_u64(m.reo_id)));
                assert(p1 == pos + 8);
                assert(starts_at(b@, p1 as int, enc_list_of::<u64>(m.facet_value_ids)));
                assert(p2 == p1 + enc_list_of::<u64>(m.facet_value_ids).len());
                assert(starts_at(b@, p2 as int, enc_u64(m.source_id)));
                assert(p3 == p2 + 8);
                assert(starts_at(b@, p3 as int, enc_option_of::<u64>(m.target_id)));
                assert(p4 == p3 + enc_option_of::<u64>(m.target_id).len());
                assert(starts_at(b@, p4 as int, enc_u32(m.effect_size)));
                assert(p5 == p4 + 4);
                assert(starts_at(b@, p5 as int, enc_u64(m.significance)));
                assert(p6 == p5 + 8);
                assert(starts_at(b@, p6 as int, enc_u64(m.neg_log_significance)));
                assert(p7 == p6 + 8);
                assert(v@ =~= m);
            };
        }
        Ok((v, p7))
    }
}

/// Encoding of a chromosome entry: name, then index.
pub open spec fn enc_chromosome(m: ChromosomeModel) -> Seq<u8> {
    enc_str(m.chrom) + enc_u8(m.index)
}

/// Encodings a real chromosome entry can have.
pub open spec fn chromosome_fits(m: ChromosomeModel) -> bool {
    str_fits(m.chrom)
}

/// Positions of the parts of an encoded chromosome entry.
proof fn lemma_chromosome_parts(b: Seq<u8>, pos: int, m: ChromosomeModel)
    requires
        starts_at(b, pos, enc_chromosome(m)),
    ensures
        starts_at(b, pos, enc_str(m.chrom)),
        starts_at(b, pos + enc_str(m.chrom).len(), enc_u8(m.index)),
{
    lemma_starts_at_concat(b, pos, enc_str(m.chrom), enc_u8(m.index));
}

impl Codec for ChromosomeData {
    open spec fn enc(m: ChromosomeModel) -> Seq<u8> {
        enc_chromosome(m)
    }

    open spec fn fits(m: ChromosomeModel) -> bool {
        chromosome_fits(m)
    }

    open spec fn decode_inv(&self) -> bool {
        true
    }

    fn encode(&self, out: &mut Vec<u8>) {
        self.chrom.encode(out);
        encode_u8(self.index, out);
        proof {
            assert(out@ =~= old(out)@ + enc_chromosome(self@));
        }
    }

    fn decode(b: &[u8], pos: usize) -> (r: Result<(Self, usize), DecodeError>) {
        let (chrom, p1) = match <String as Codec>::decode(b, pos) {
            Ok(x) => x,
            Err(e) => {
                proof {
                    assert forall|m: ChromosomeModel|
                        chromosome_fits(m) && starts_at(
                            b@,
                            pos as int,
                            enc_chromosome(m),
                        ) implies false by {
                        lemma_chromosome_parts(b@, pos as int, m);
                        assert(<String as Codec>::enc(m.chrom) == enc_str(m.chrom));
                        assert(starts_at(b@, pos as int, <String as Codec>::enc(m.chrom)));
                    };
                }
                return Err(e);
            },
        };
        let (index, p2) = match decode_u8(b, p1) {
            Ok(x) => x,
            Err(e) => {
                proof {
                    assert forall|m: ChromosomeModel|
                        chromosome_fits(m) && starts_at(
                            b@,
                            pos as int,
                            enc_chromosome(m),
                        ) implies false by {
                        lemma_chromosome_parts(b@, pos as int, m);
                        assert(<String as Codec>::enc(m.chrom) == enc_str(m.chrom));
                        assert(starts_at(b@, pos as int, <String as Codec>::enc(m.chrom)));
                        assert(p1 == pos + enc_str(m.chrom).len());
                        assert(starts_at(b@, p1 as int, enc_u8(m.index)));
                    };
                }
                return Err(e);
            },
        };
        let v = ChromosomeData { chrom, index };
        proof {
            assert forall|m: ChromosomeModel|
                chromosome_fits(m) && starts_at(b@, pos as int, enc_chromosome(m)) implies v@ == m
                && p2 == pos + enc_chromosome(m).len() by {
                lemma_chromosome_parts(b@, pos as int, m);
                assert(<String as Codec>::enc(m.chrom) == enc_str(m.chrom));
                assert(starts_at(b@, pos as int, <String as Codec>::enc(m.chrom)));
                assert(p1 == pos + enc_str(m.chrom).len());
                assert(starts_at(b@, p1 as int, enc_u8(m.index)));
                assert(v@ =~= m);
            };
        }
        Ok((v, p2))
    }
}

/// Encoding of a coverage side: one tag byte.
pub open spec fn enc_facet_coverage(m: FacetCoverage) -> Seq<u8> {
    match m {
        FacetCoverage::Target => seq![0u8],
        FacetCoverage::Source => seq![1u8],
    }
}

impl Codec for FacetCoverage {
    open spec fn enc(m: FacetCoverage) -> Seq<u8> {
        enc_facet_coverage(m)
    }

    open spec fn fits(m: FacetCoverage) -> bool {
        true
    }

    open spec fn decode_inv(&self) -> bool {
        true
    }

    fn encode(&self, out: &mut Vec<u8>) {
        match self {
            FacetCoverage::Target => encode_u8(0, out),
            FacetCoverage::Source => encode_u8(1, out),
        }
    }

    fn decode(b: &[u8], pos: usize) -> (r: Result<(Self, usize), DecodeError>) {
        let (tag, p1) = match decode_u8(b, pos) {
            Ok(x) => x,
            Err(e) => {
                proof {
                    assert forall|m: FacetCoverage| starts_at(
                        b@,
                        pos as int,
                        enc_facet_coverage(m),
                    ) implies false by {
                        assert(enc_facet_coverage(m) == enc_u8(if m is Target {
                            0u8
                        } else {
                            1u8
                        }));
                    };
                }
                return Err(e);
            },
        };
        proof {
            assert forall|m: FacetCoverage| starts_at(
                b@,
                pos as int,
                enc_facet_coverage(m),
            ) implies tag == (if m is Target {
                0u8
            } else {
                1u8
            }) && p1 == pos + 1 by {
                assert(enc_facet_coverage(m) == enc_u8(if m is Target {
                    0u8
                } else {
                    1u8
                }));
            };
        }
        if tag == 0 {
            Ok((FacetCoverage::Target, p1))
        } else if tag == 1 {
            Ok((FacetCoverage::Source, p1))
        } else {
            Err(DecodeError::Structure { offset: pos })
        }
    }
}

/// Encoding of a 32-bit numeric range: the two bound bit patterns.
pub open spec fn enc_facet_range(m: FacetRange) -> Seq<u8> {
    enc_u32(m.0) + enc_u32(m.1)
}

impl Codec for FacetRange {
    open spec fn enc(m: FacetRange) -> Seq<u8> {
        enc_facet_range(m)
    }

    open spec fn fits(m: FacetRange) -> bool {
        true
    }

    open spec fn decode_inv(&self) -> bool {
        true
    }

    fn encode(&self, out: &mut Vec<u8>) {
        encode_u32(self.0, out);
        encode_u32(self.1, out);
        proof {
            assert(out@ =~= old(out)@ + enc_facet_range(self@));
        }
    }

    fn decode(b: &[u8], pos: usize) -> (r: Result<(Self, usize), DecodeError>) {
        let (lo, p1) = match decode_u32(b, pos) {
            Ok(x) => x,
            Err(e) => {
                proof {
                    assert forall|m: FacetRange| starts_at(
                        b@,
                        pos as int,
                        enc_facet_range(m),
                    ) implies false by {
                        lemma_starts_at_concat(b@, pos as int, enc_u32(m.0), enc_u32(m.1));
                    };
                }
                return Err(e);
            },
        };
        let (hi, p2) = match decode_u32(b, p1) {
            Ok(x) => x,
            Err(e) => {
                proof {
                    assert forall|m: FacetRange| starts_at(
                        b@,
                        pos as int,
                        enc_facet_range(m),
                    ) implies false by {
                        lemma_starts_at_concat(b@, pos as int, enc_u32(m.0), enc_u32(m.1));
                    };
                }
                return Err(e);
            },
        };
        let v = FacetRange(lo, hi);
        proof {
            assert forall|m: FacetRange| starts_at(b@, pos as int, enc_facet_range(m)) implies v
                == m && p2 == pos + enc_facet_range(m).len() by {
                lemma_starts_at_concat(b@, pos as int, enc_u32(m.0), enc_u32(m.1));
            };
        }
        Ok((v, p2))
    }
}

/// Encoding of a 64-bit numeric range: the two bound bit patterns.
pub open spec fn enc_facet_range64(m: FacetRange64) -> Seq<u8> {
    enc_u64(m.0) + enc_u64(m.1)
}

impl Codec for FacetRange64 {
    open spec fn enc(m: FacetRange64) -> Seq<u8> {
        enc_facet_range64(m)
    }

    open spec fn fits(m: FacetRange64) -> bool {
        true
    }

    open spec fn decode_inv(&self) -> bool {
        true
    }

    fn encode(&self, out: &mut Vec<u8>) {
        encode_u64(self.0, out);
        encode_u64(self.1, out);
        proof {
            assert(out@ =~= old(out)@ + enc_facet_range64(self@));
        }
    }

    fn decode(b: &[u8], pos: usize) -> (r: Result<(Self, usize), DecodeError>) {
        let (lo, p1) = match decode_u64(b, pos) {
            Ok(x) => x,
            Err(e) => {
                proof {
                    assert forall|m: FacetRange64| starts_at(
                        b@,
                        pos as int,
                        enc_facet_range64(m),
                    ) implies false by {
                        lemma_starts_at_concat(b@, pos as int, enc_u64(m.0), enc_u64(m.1));
                    };
                }
                return Err(e);
            },
        };
        let (hi, p2) = match decode_u64(b, p1) {
            Ok(x) => x,
            Err(e) => {
                proof {
                    assert forall|m: FacetRange64| starts_at(
                        b@,
                        pos as int,
                        enc_facet_range64(m),
                    ) implies false by {
                        lemma_starts_at_concat(b@, pos as int, enc_u64(m.0), enc_u64(m.1));
                    };
                }
                return Err(e);
            },
        };
        let v = FacetRange64(lo, hi);
        proof {
            assert forall|m: FacetRange64| starts_at(b@, pos as int, enc_facet_range64(m)) implies
                v == m && p2 == pos + enc_facet_range64(m).len() by {
                lemma_starts_at_concat(b@, pos as int, enc_u64(m.0), enc_u64(m.1));
            };
        }
        Ok((v, p2))
    }
}

/// Encoding of one categorical table entry: value id, then label.
pub open spec fn enc_id_label(m: (u64, Seq<char>)) -> Seq<u8> {
    enc_u64(m.0) + enc_str(m.1)
}

impl Codec for (DbID, String) {
    open spec fn enc(m: (u64, Seq<char>)) -> Seq<u8> {
        enc_id_label(m)
    }

    open spec fn fits(m: (u64, Seq<char>)) -> bool {
        str_fits(m.1)
    }

    open spec fn decode_inv(&self) -> bool {
        true
    }

    fn encode(&self, out: &mut Vec<u8>) {
        encode_u64(self.0, out);
        self.1.encode(out);
        proof {
            assert(out@ =~= old(out)@ + enc_id_label(self@));
        }
    }

    fn decode(b: &[u8], pos: usize) -> (r: Result<(Self, usize), DecodeError>) {
        let (id, p1) = match decode_u64(b, pos) {
            Ok(x) => x,
            Err(e) => {
                proof {
                    assert forall|m: (u64, Seq<char>)|
                        str_fits(m.1) && starts_at(b@, pos as int, enc_id_label(m)) implies false by {
                        lemma_starts_at_concat(b@, pos as int, enc_u64(m.0), enc_str(m.1));
                    };
                }
                return Err(e);
            },
        };
        let (label, p2) = match <String as Codec>::decode(b, p1) {
            Ok(x) => x,
            Err(e) => {
                proof {
                    assert forall|m: (u64, Seq<char>)|
                        str_fits(m.1) && starts_at(b@, pos as int, enc_id_label(m)) implies false by {
                        lemma_starts_at_concat(b@, pos as int, enc_u64(m.0), enc_str(m.1));
                        assert(p1 == pos + 8);
                        assert(<String as Codec>::enc(m.1) == enc_str(m.1));
                        assert(starts_at(b@, p1 as int, <String as Codec>::enc(m.1)));
                    };
                }
                return Err(e);
            },
        };
        let v = (id, label);
        proof {
            assert forall|m: (u64, Seq<char>)|
                str_fits(m.1) && starts_at(b@, pos as int, enc_id_label(m)) implies v@ == m && p2
                == pos + enc_id_label(m).len() by {
                lemma_starts_at_concat(b@, pos as int, enc_u64(m.0), enc_str(m.1));
                assert(p1 == pos + 8);
                assert(<String as Codec>::enc(m.1) == enc_str(m.1));
                assert(starts_at(b@, p1 as int, <String as Codec>::enc(m.1)));
                assert(v@ =~= m);
            };
        }
        Ok((v, p2))
    }
}

/// Encoding of one feature-table entry: feature id, then bucket key.
pub open spec fn enc_id_bucket(m: (u64, BucketLoc)) -> Seq<u8> {
    enc_u64(m.0) + enc_bucket_loc(m.1)
}

impl Codec for (DbID, BucketLoc) {
    open spec fn enc(m: (u64, BucketLoc)) -> Seq<u8> {
        enc_id_bucket(m)
    }

    open spec fn fits(m: (u64, BucketLoc)) -> bool {
        true
    }

    open spec fn decode_inv(&self) -> bool {
        true
    }

    fn encode(&self, out: &mut Vec<u8>) {
        encode_u64(self.0, out);
        self.1.encode(out);
        proof {
            assert(out@ =~= old(out)@ + enc_id_bucket(self@));
        }
    }

    fn decode(b: &[u8], pos: usize) -> (r: Result<(Self, usize), DecodeError>) {
        let (id, p1) = match decode_u64(b, pos) {
            Ok(x) => x,
            Err(e) => {
                proof {
                    assert forall|m: (u64, BucketLoc)| starts_at(
                        b@,
                        pos as int,
                        enc_id_bucket(m),
                    ) implies false by {
                        lemma_starts_at_concat(b@, pos as int, enc_u64(m.0), enc_bucket_loc(m.1));
                    };
                }
                return Err(e);
            },
        };
        let (loc, p2) = match <BucketLoc as Codec>::decode(b, p1) {
            Ok(x) => x,
            Err(e) => {
                proof {
                    assert forall|m: (u64, BucketLoc)| starts_at(
                        b@,
                        pos as int,
                        enc_id_bucket(m),
                    ) implies false by {
                        lemma_starts_at_concat(b@, pos as int, enc_u64(m.0), enc_bucket_loc(m.1));
                        assert(p1 == pos + 8);
                        assert(<BucketLoc as Codec>::enc(m.1) == enc_bucket_loc(m.1));
                        assert(starts_at(b@, p1 as int, <BucketLoc as Codec>::enc(m.1)));
                    };
                }
                return Err(e);
            },
        };
        let v = (id, loc);
        proof {
            assert forall|m: (u64, BucketLoc)| starts_at(b@, pos as int, enc_id_bucket(m)) implies
                v@ == m && p2 == pos + enc_id_bucket(m).len() by {
                lemma_starts_at_concat(b@, pos as int, enc_u64(m.0), enc_bucket_loc(m.1));
                assert(p1 == pos + 8);
                assert(<BucketLoc as Codec>::enc(m.1) == enc_bucket_loc(m.1));
                assert(starts_at(b@, p1 as int, <BucketLoc as Codec>::enc(m.1)));
                assert(v@ =~= m);
            };
        }
        Ok((v, p2))
    }
}

/// Encoding of a facet catalog entry, field by field in declaration order.
pub open spec fn enc_facet(m: FacetModel) -> Seq<u8> {
    enc_u64(m.id) + enc_str(m.name) + enc_str(m.facet_type) + enc_str(m.description)
        + enc_option_list_of::<FacetCoverage>(m.coverage) + enc_option_of::<FacetRange>(m.range)
        + enc_option_of::<FacetRange64>(m.range64) + enc_option_list_of::<(DbID, String)>(m.values)
}

/// Encodings a real facet entry can have.
pub open spec fn facet_fits(m: FacetModel) -> bool {
    &&& str_fits(m.name)
    &&& str_fits(m.facet_type)
    &&& str_fits(m.description)
    &&& option_list_fits::<FacetCoverage>(m.coverage)
    &&& option_list_fits::<(DbID, String)>(m.values)
}

/// Positions of the parts of an encoded facet entry.
proof fn lemma_facet_parts(b: Seq<u8>, pos: int, m: FacetModel)
    requires
        starts_at(b, pos, enc_facet(m)),
    ensures
        starts_at(b, pos, enc_u64(m.id)),
        starts_at(b, pos + 8, enc_str(m.name)),
        starts_at(b, pos + 8 + enc_str(m.name).len(), enc_str(m.facet_type)),
        starts_at(
            b,
            pos + 8 + enc_str(m.name).len() + enc_str(m.facet_type).len(),
            enc_str(m.description),
        ),
        starts_at(
            b,
            pos + 8 + enc_str(m.name).len() + enc_str(m.facet_type).len() + enc_str(
                m.description,
            ).len(),
            enc_option_list_of::<FacetCoverage>(m.coverage),
        ),
        starts_at(
            b,
            pos + 8 + enc_str(m.name).len() + enc_str(m.facet_type).len() + enc_str(
                m.description,
            ).len() + enc_option_list_of::<FacetCoverage>(m.coverage).len(),
            enc_option_of::<FacetRange>(m.range),
        ),
        starts_at(
            b,
            pos + 8 + enc_str(m.name).len() + enc_str(m.facet_type).len() + enc_str(
                m.description,
            ).len() + enc_option_list_of::<FacetCoverage>(m.coverage).len()
                + enc_option_of::<FacetRange>(m.range).len(),
            enc_option_of::<FacetRange64>(m.range64),
        ),
        starts_at(
            b,
            pos + 8 + enc_str(m.name).len() + enc_str(m.facet_type).len() + enc_str(
                m.description,
            ).len() + enc_option_list_of::<FacetCoverage>(m.coverage).len()
                + enc_option_of::<FacetRange>(m.range).len() + enc_option_of::<FacetRange64>(
                m.range64,
            ).len(),
            enc_option_list_of::<(DbID, String)>(m.values),
        ),
{
    broadcast use lemma_enc_u32_len, lemma_enc_u64_len;

    let e1 = enc_u64(m.id);
    let e2 = enc_str(m.name);
    let e3 = enc_str(m.facet_type);
    let e4 = enc_str(m.description);
    let e5 = enc_option_list_of::<FacetCoverage>(m.coverage);
    let e6 = enc_option_of::<FacetRange>(m.range);
    let e7 = enc_option_of::<FacetRange64>(m.range64);
    let e8 = enc_option_list_of::<(DbID, String)>(m.values);
    assert(enc_facet(m) =~= e1 + (e2 + (e3 + (e4 + (e5 + (e6 + (e7 + e8)))))));
    lemma_starts_at_concat(b, pos, e1, e2 + (e3 + (e4 + (e5 + (e6 + (e7 + e8))))));
    lemma_starts_at_concat(b, pos + 8, e2, e3 + (e4 + (e5 + (e6 + (e7 + e8)))));
    lemma_starts_at_concat(b, pos + 8 + e2.len(), e3, e4 + (e5 + (e6 + (e7 + e8))));
    lemma_starts_at_concat(b, pos + 8 + e2.len() + e3.len(), e4, e5 + (e6 + (e7 + e8)));
    lemma_starts_at_concat(b, pos + 8 + e2.len() + e3.len() + e4.len(), e5, e6 + (e7 + e8));
    lemma_starts_at_concat(
        b,
        pos + 8 + e2.len() + e3.len() + e4.len() + e5.len(),
        e6,
        e7 + e8,
    );
    lemma_starts_at_concat(
        b,
        pos + 8 + e2.len() + e3.len() + e4.len() + e5.len() + e6.len(),
        e7,
        e8,
    );
}

impl Codec for Facet {
    open spec fn enc(m: FacetModel) -> Seq<u8> {
        enc_facet(m)
    }

    open spec fn fits(m: FacetModel) -> bool {
        facet_fits(m)
    }

    open spec fn decode_inv(&self) -> bool {
        true
    }

    fn encode(&self, out: &mut Vec<u8>) {
        encode_u64(self.id, out);
        self.name.encode(out);
        self.facet_type.encode(out);
        self.description.encode(out);
        encode_option_vec_of::<FacetCoverage>(&self.coverage, out);
        encode_option_of::<FacetRange>(&self.range, out);
        encode_option_of::<FacetRange64>(&self.range64, out);
        encode_option_vec_of::<(DbID, String)>(&self.values, out);
        proof {
            assert(out@ =~= old(out)@ + enc_facet(self.deep_view()));
        }
    }

    fn decode(b: &[u8], pos: usize) -> (r: Result<(Self, usize), DecodeError>) {
        let (id, p1) = match decode_u64(b, pos) {
            Ok(x) => x,
            Err(e) => {
                proof {
                    assert forall|m: FacetModel|
                        facet_fits(m) && starts_at(b@, pos as int, enc_facet(m)) implies false by {
                        lemma_facet_parts(b@, pos as int, m);
                    };
                }
                return Err(e);
            },
        };
        let (name, p2) = match <String as Codec>::decode(b, p1) {
            Ok(x) => x,
            Err(e) => {
                proof {
                    assert forall|m: FacetModel|
                        facet_fits(m) && starts_at(b@, pos as int, enc_facet(m)) implies false by {
                        lemma_facet_parts(b@, pos as int, m);
                        assert(p1 == pos + 8);
                        assert(<String as Codec>::enc(m.name) == enc_str(m.name));
                        assert(starts_at(b@, p1 as int, <String as Codec>::enc(m.name)));
                    };
                }
                return Err(e);
            },
        };
        let (facet_type, p3) = match <String as Codec>::decode(b, p2) {
            Ok(x) => x,
            Err(e) => {
                proof {
                    assert forall|m: FacetModel|
                        facet_fits(m) && starts_at(b@, pos as int, enc_facet(m)) implies false by {
                        lemma_facet_parts(b@, pos as int, m);
                        assert(p1 == pos + 8);
                        assert(<String as Codec>::enc(m.name) == enc_str(m.name));
                        assert(starts_at(b@, p1 as int, <String as Codec>::enc(m.name)));
                        assert(p2 == p1 + enc_str(m.name).len());
                        assert(<String as Codec>::enc(m.facet_type) == enc_str(m.facet_type));
                        assert(starts_at(b@, p2 as int, <String as Codec>::enc(m.facet_type)));
                    };
                }
                return Err(e);
            },
        };
        let (description, p4) = match <String as Codec>::decode(b, p3) {
            Ok(x) => x,
            Err(e) => {
                proof {
                    assert forall|m: FacetModel|
                        facet_fits(m) && starts_at(b@, pos as int, enc_facet(m)) implies false by {
                        lemma_facet_parts(b@, pos as int, m);
                        assert(p1 == pos + 8);
                        assert(<String as Codec>::enc(m.name) == enc_str(m.name));
                        assert(starts_at(b@, p1 as int, <String as Codec>::enc(m.name)));
                        assert(p2 == p1 + enc_str(m.name).len());
                        assert(<String as Codec>::enc(m.facet_type) == enc_str(m.facet_type));
                        assert(starts_at(b@, p2 as int, <String as Codec>::enc(m.facet_type)));
                        assert(p3 == p2 + enc_str(m.facet_type).len());
                        assert(<String as Codec>::enc(m.description) == enc_str(m.description));
                        assert(starts_at(b@, p3 as int, <String as Codec>::enc(m.description)));
                    };
                }
                return Err(e);
            },
        };
        let (coverage, p5) = match decode_option_vec_of::<FacetCoverage>(b, p4) {
            Ok(x) => x,
            Err(e) => {
                proof {
                    assert forall|m: FacetModel|
                        facet_fits(m) && starts_at(b@, pos as int, enc_facet(m)) implies false by {
                        lemma_facet_parts(b@, pos as int, m);
                        assert(p1 == pos + 8);
                        assert(<String as Codec>::enc(m.name) == enc_str(m.name));
                        assert(starts_at(b@, p1 as int, <String as Codec>::enc(m.name)));
                        assert(p2 == p1 + enc_str(m.name).len());
                        assert(<String as Codec>::enc(m.facet_type) == enc_str(m.facet_type));
                        assert(starts_at(b@, p2 as int, <String as Codec>::enc(m.facet_type)));
                        assert(p3 == p2 + enc_str(m.facet_type).len());
                        assert(<String as Codec>::enc(m.description) == enc_str(m.description));
                        assert(starts_at(b@, p3 as int, <String as Codec>::enc(m.description)));
                        assert(p4 == p3 + enc_str(m.description).len());
                        assert(starts_at(
                            b@,
                            p4 as int,
                            enc_option_list_of::<FacetCoverage>(m.coverage),
                        ));
                    };
                }
                return Err(e);
            },
        };
        let (range, p6) = match decode_option_of::<FacetRange>(b, p5) {
            Ok(x) => x,
            Err(e) => {
                proof {
                    assert forall|m: FacetModel|
                        facet_fits(m) && starts_at(b@, pos as int, enc_facet(m)) implies false by {
                        lemma_facet_parts(b@, pos as int, m);
                        assert(p1 == pos + 8);
                        assert(<String as Codec>::enc(m.name) == enc_str(m.name));
                        assert(starts_at(b@, p1 as int, <String as Codec>::enc(m.name)));
                        assert(p2 == p1 + enc_str(m.name).len());
                        assert(<String as Codec>::enc(m.facet_type) == enc_str(m.facet_type));
                        assert(starts_at(b@, p2 as int, <String as Codec>::enc(m.facet_type)));
                        assert(p3 == p2 + enc_str(m.facet_type).len());
                        assert(<String as Codec>::enc(m.description) == enc_str(m.description));
                        assert(starts_at(b@, p3 as int, <String as Codec>::enc(m.description)));
                        assert(p4 == p3 + enc_str(m.description).len());
                        assert(starts_at(
                            b@,
                            p4 as int,
                            enc_option_list_of::<FacetCoverage>(m.coverage),
                        ));
                        assert(p5 == p4 + enc_option_list_of::<FacetCoverage>(m.coverage).len());
                        assert(starts_at(b@, p5 as int, enc_option_of::<FacetRange>(m.range)));
                    };
                }
                return Err(e);
            },
        };
        let (range64, p7) = match decode_option_of::<FacetRange64>(b, p6) {
            Ok(x) => x,
            Err(e) => {
                proof {
                    assert forall|m: FacetModel|
                        facet_fits(m) && starts_at(b@, pos as int, enc_facet(m)) implies false by {
                        lemma_facet_parts(b@, pos as int, m);
                        assert(p1 == pos + 8);
                        assert(<String as Codec>::enc(m.name) == enc_str(m.name));
                        assert(starts_at(b@, p1 as int, <String as Codec>::enc(m.name)));
                        assert(p2 == p1 + enc_str(m.name).len());
                        assert(<String as Codec>::enc(m.facet_type) == enc_str(m.facet_type));
                        assert(starts_at(b@, p2 as int, <String as Codec>::enc(m.facet_type)));
                        assert(p3 == p2 + enc_str(m.facet_type).len());
                        assert(<String as Codec>::enc(m.description) == enc_str(m.description));
                        assert(starts_at(b@, p3 as int, <String as Codec>::enc(m.description)));
                        assert(p4 == p3 + enc_str(m.description).len());
                        assert(starts_at(
                            b@,
                            p4 as int,
                            enc_option_list_of::<FacetCoverage>(m.coverage),
                        ));
                        assert(p5 == p4 + enc_option_list_of::<FacetCoverage>(m.coverage).len());
                        assert(starts_at(b@, p5 as int, enc_option_of::<FacetRange>(m.range)));
                        assert(p6 == p5 + enc_option_of::<FacetRange>(m.range).len());
                        assert(starts_at(b@, p6 as int, enc_option_of::<FacetRange64>(m.range64)));
                    };
                }
                return Err(e);
            },
        };
        let (values, p8) = match decode_option_vec_of::<(DbID, String)>(b, p7) {
            Ok(x) => x,
            Err(e) => {
                proof {
                    assert forall|m: FacetModel|
                        facet_fits(m) && starts_at(b@, pos as int, enc_facet(m)) implies false by {
                        lemma_facet_parts(b@, pos as int, m);
                        assert(p1 == pos + 8);
                        assert(<String as Codec>::enc(m.name) == enc_str(m.name));
                        assert(starts_at(b@, p1 as int, <String as Codec>::enc(m.name)));
                        assert(p2 == p1 + enc_str(m.name).len());
                        assert(<String as Codec>::enc(m.facet_type) == enc_str(m.facet_type));
                        assert(starts_at(b@, p2 as int, <String as Codec>::enc(m.facet_type)));
                        assert(p3 == p2 + enc_str(m.facet_type).len());
                        assert(<String as Codec>::enc(m.description) == enc_str(m.description));
                        assert(starts_at(b@, p3 as int, <String as Codec>::enc(m.description)));
                        assert(p4 == p3 + enc_str(m.description).len());
                        assert(starts_at(
                            b@,
                            p4 as int,
                            enc_option_list_of::<FacetCoverage>(m.coverage),
                        ));
                        assert(p5 == p4 + enc_option_list_of::<FacetCoverage>(m.coverage).len());
                        assert(starts_at(b@, p5 as int, enc_option_of::<FacetRange>(m.range)));
                        assert(p6 == p5 + enc_option_of::<FacetRange>(m.range).len());
                        assert(starts_at(b@, p6 as int, enc_option_of::<FacetRange64>(m.range64)));
                        assert(p7 == p6 + enc_option_of::<FacetRange64>(m.range64).len());
                        assert(starts_at(
                            b@,
                            p7 as int,
                            enc_option_list_of::<(DbID, String)>(m.values),
                        ));
                    };
                }
                return Err(e);
            },
        };
        let v = Facet { id, name, facet_type, description, coverage, range, range64, values };
        proof {
            assert forall|m: FacetModel|
                facet_fits(m) && starts_at(b@, pos as int, enc_facet(m)) implies v@ == m && p8
                == pos + enc_facet(m).len() by {
                lemma_facet_parts(b@, pos as int, m);
                assert(p1 == pos + 8);
                assert(<String as Codec>::enc(m.name) == enc_str(m.name));
                assert(starts_at(b@, p1 as int, <String as Codec>::enc(m.name)));
                assert(p2 == p1 + enc_str(m.name).len());
                assert(<String as Codec>::enc(m.facet_type) == enc_str(m.facet_type));
                assert(starts_at(b@, p2 as int, <String as Codec>::enc(m.facet_type)));
                assert(p3 == p2 + enc_str(m.facet_type).len());
                assert(<String as Codec>::enc(m.description) == enc_str(m.description));
                assert(starts_at(b@, p3 as int, <String as Codec>::enc(m.description)));
                assert(p4 == p3 + enc_str(m.description).len());
                assert(starts_at(
                    b@,
                    p4 as int,
                    enc_option_list_of::<FacetCoverage>(m.coverage),
                ));
                assert(p5 == p4 + enc_option_list_of::<FacetCoverage>(m.coverage).len());
                assert(starts_at(b@, p5 as int, enc_option_of::<FacetRange>(m.range)));
                assert(p6 == p5 + enc_option_of::<FacetRange>(m.range).len());
                assert(starts_at(b@, p6 as int, enc_option_of::<FacetRange64>(m.range64)));
                assert(p7 == p6 + enc_option_of::<FacetRange64>(m.range64).len());
                assert(starts_at(
                    b@,
                    p7 as int,
                    enc_option_list_of::<(DbID, String)>(m.values),
                ));
                assert(p8 == p7 + enc_option_list_of::<(DbID, String)>(m.values).len());
                assert(v@ =~= m);
            };
        }
        Ok((v, p8))
    }
}


/// The identifier byte of each Coverage Index field on the wire.
pub open spec fn cov_field_id(f: FieldName) -> u8 {
    match f {
        FieldName::SignificantObservations => 0,
        FieldName::NonsignificantObservations => 1,
        FieldName::BucketSize => 2,
        FieldName::Chromosomes => 3,
        FieldName::Facets => 4,
        FieldName::ChromLengths => 5,
        FieldName::FeatureBuckets => 6,
        _ => 255,
    }
}

/// Whether `f` is a field of the Coverage Index encoding.
pub open spec fn is_cov_field(f: FieldName) -> bool {
    cov_field_id(f) < 7
}

/// The payload encoding of one Coverage Index field.
pub open spec fn cov_field_payload(m: CoverageModel, f: FieldName) -> Seq<u8> {
    match f {
        FieldName::SignificantObservations => enc_list_of::<ObservationData>(
            m.significant_observations,
        ),
        FieldName::NonsignificantObservations => enc_list_of::<ObservationData>(
            m.nonsignificant_observations,
        ),
        FieldName::BucketSize => enc_u32(m.bucket_size),
        FieldName::Chromosomes => enc_list_of::<ChromosomeData>(m.chromosomes),
        FieldName::Facets => enc_list_of::<Facet>(m.facets),
        FieldName::ChromLengths => enc_list_of::<usize>(m.chrom_lengths),
        FieldName::FeatureBuckets => enc_list_of::<(DbID, BucketLoc)>(m.feature_buckets),
        _ => Seq::empty(),
    }
}

/// One tagged field: its identifier byte, then its payload.
pub open spec fn cov_field_enc(m: CoverageModel, f: FieldName) -> Seq<u8> {
    enc_u8(cov_field_id(f)) + cov_field_payload(m, f)
}

/// A map-shaped Coverage Index encoding that carries exactly the fields in
/// `ids`, in that order: the field count, then each field's identifier byte
/// and payload.
pub open spec fn cov_map_enc(m: CoverageModel, ids: Seq<FieldName>) -> Seq<u8> {
    enc_u8(ids.len() as u8) + cat_bytes(ids.map_values(|f: FieldName| cov_field_enc(m, f)))
}

/// Encodings a real Coverage Index can have.
pub open spec fn cov_fits(m: CoverageModel) -> bool {
    &&& list_fits::<ObservationData>(m.significant_observations)
    &&& list_fits::<ObservationData>(m.nonsignificant_observations)
    &&& list_fits::<ChromosomeData>(m.chromosomes)
    &&& list_fits::<Facet>(m.facets)
    &&& list_fits::<usize>(m.chrom_lengths)
    &&& list_fits::<(DbID, BucketLoc)>(m.feature_buckets)
}

/// The canonical field order of the Coverage Index encoding.
pub open spec fn cov_all_fields() -> Seq<FieldName> {
    seq![
        FieldName::SignificantObservations,
        FieldName::NonsignificantObservations,
        FieldName::BucketSize,
        FieldName::Chromosomes,
        FieldName::Facets,
        FieldName::ChromLengths,
        FieldName::FeatureBuckets,
    ]
}

/// The full encoding of a Coverage Index: every field in declaration order.
pub open spec fn enc_coverage(m: CoverageModel) -> Seq<u8> {
    cov_map_enc(m, cov_all_fields())
}

/// Valid field lists of a map-shaped Coverage Index encoding: only Coverage
/// Index fields, none twice.
pub open spec fn cov_ids_ok(ids: Seq<FieldName>) -> bool {
    &&& ids.len() <= 7
    &&& forall|i: int| 0 <= i < ids.len() ==> is_cov_field(#[trigger] ids[i])
    &&& forall|i: int, j: int| 0 <= i < j < ids.len() ==> ids[i] != ids[j]
}

/// Whether every required field occurs in `ids`.
pub open spec fn cov_all_present(ids: Seq<FieldName>) -> bool {
    &&& ids.contains(FieldName::SignificantObservations)
    &&& ids.contains(FieldName::NonsignificantObservations)
    &&& ids.contains(FieldName::BucketSize)
    &&& ids.contains(FieldName::Chromosomes)
    &&& ids.contains(FieldName::Facets)
    &&& ids.contains(FieldName::ChromLengths)
    &&& ids.contains(FieldName::FeatureBuckets)
}

/// The first required field, in declaration order, that `ids` misses.
pub open spec fn cov_first_missing(ids: Seq<FieldName>) -> FieldName {
    if !ids.contains(FieldName::SignificantObservations) {
        FieldName::SignificantObservations
    } else if !ids.contains(FieldName::NonsignificantObservations) {
        FieldName::NonsignificantObservations
    } else if !ids.contains(FieldName::BucketSize) {
        FieldName::BucketSize
    } else if !ids.contains(FieldName::Chromosomes) {
        FieldName::Chromosomes
    } else if !ids.contains(FieldName::Facets) {
        FieldName::Facets
    } else if !ids.contains(FieldName::ChromLengths) {
        FieldName::ChromLengths
    } else {
        FieldName::FeatureBuckets
    }
}

/// Some field of `ids` stands before position `k`.
pub open spec fn ids_before(ids: Seq<FieldName>, k: int, f: FieldName) -> bool {
    exists|i: int| 0 <= i < k && i < ids.len() && ids[i] == f
}

/// Extending the scanned prefix by one field.
proof fn lemma_ids_before_step(ids: Seq<FieldName>, k: int, f: FieldName)
    requires
        0 <= k < ids.len(),
    ensures
        ids_before(ids, k + 1, f) <==> (ids_before(ids, k, f) || ids[k] == f),
{
    if ids_before(ids, k + 1, f) {
        let i = choose|i: int| 0 <= i < k + 1 && i < ids.len() && ids[i] == f;
        if i < k {
            assert(ids_before(ids, k, f));
        }
    }
    if ids[k] == f {
        assert(0 <= k < k + 1 && k < ids.len() && ids[k] == f);
    }
}

/// The scanned prefix covering all of `ids` is plain membership.
proof fn lemma_ids_before_full(ids: Seq<FieldName>, f: FieldName)
    ensures
        ids_before(ids, ids.len() as int, f) <==> ids.contains(f),
{
}

/// The count byte and per-field layout of a map-shaped encoding.
proof fn lemma_cov_count(b: Seq<u8>, m: CoverageModel, ids: Seq<FieldName>)
    requires
        b == cov_map_enc(m, ids),
    ensures
        starts_at(b, 0, enc_u8(ids.len() as u8)),
        b.len() == 1 + cat_bytes(ids.map_values(|f: FieldName| cov_field_enc(m, f))).len(),
{
    let encs = ids.map_values(|f: FieldName| cov_field_enc(m, f));
    assert(b.subrange(0, b.len() as int) =~= b);
    assert(starts_at(b, 0, enc_u8(ids.len() as u8) + cat_bytes(encs)));
    lemma_starts_at_concat(b, 0, enc_u8(ids.len() as u8), cat_bytes(encs));
}

/// The layout of the field at position `j` of a map-shaped encoding.
proof fn lemma_cov_step(b: Seq<u8>, m: CoverageModel, ids: Seq<FieldName>, j: int, cur: int)
    requires
        b == cov_map_enc(m, ids),
        0 <= j < ids.len(),
        cur == 1 + cat_bytes(
            ids.map_values(|f: FieldName| cov_field_enc(m, f)).take(j),
        ).len(),
    ensures
        starts_at(b, cur, enc_u8(cov_field_id(ids[j]))),
        starts_at(b, cur + 1, cov_field_payload(m, ids[j])),
        cur + 1 + cov_field_payload(m, ids[j]).len() == 1 + cat_bytes(
            ids.map_values(|f: FieldName| cov_field_enc(m, f)).take(j + 1),
        ).len(),
{
    let encs = ids.map_values(|f: FieldName| cov_field_enc(m, f));
    lemma_cov_count(b, m, ids);
    assert(b.subrange(0, b.len() as int) =~= b);
    assert(starts_at(b, 0, enc_u8(ids.len() as u8) + cat_bytes(encs)));
    lemma_starts_at_concat(b, 0, enc_u8(ids.len() as u8), cat_bytes(encs));
    assert(starts_at(b, 1, cat_bytes(encs)));
    lemma_cat_bytes_split(encs, j);
    assert(starts_at(b, 1, cat_bytes(encs.take(j)) + cat_bytes(encs.skip(j))));
    lemma_starts_at_concat(b, 1, cat_bytes(encs.take(j)), cat_bytes(encs.skip(j)));
    lemma_cat_bytes_skip_step(encs, j);
    assert(starts_at(b, cur, encs[j] + cat_bytes(encs.skip(j + 1))));
    lemma_starts_at_concat(b, cur, encs[j], cat_bytes(encs.skip(j + 1)));
    assert(encs[j] == cov_field_enc(m, ids[j]));
    assert(starts_at(b, cur, enc_u8(cov_field_id(ids[j])) + cov_field_payload(m, ids[j])));
    lemma_starts_at_concat(b, cur, enc_u8(cov_field_id(ids[j])), cov_field_payload(m, ids[j]));
    assert(encs.take(j + 1) =~= encs.take(j).push(encs[j]));
    lemma_cat_bytes_push(encs.take(j), encs[j]);
}

/// The full encoding unfolded into its seven tagged fields.
proof fn lemma_enc_coverage_unfold(m: CoverageModel)
    ensures
        enc_coverage(m) == enc_u8(7) + (cov_field_enc(m, FieldName::SignificantObservations) + (cov_field_enc(m, FieldName::NonsignificantObservations) + (cov_field_enc(m, FieldName::BucketSize) + (cov_field_enc(m, FieldName::Chromosomes) + (cov_field_enc(m, FieldName::Facets) + (cov_field_enc(m, FieldName::ChromLengths) + (cov_field_enc(m, FieldName::FeatureBuckets)))))))),
{
    let ids = cov_all_fields();
    let s = ids.map_values(|f: FieldName| cov_field_enc(m, f));
    assert(s.len() == 7);
    assert(s[0] == cov_field_enc(m, FieldName::SignificantObservations));
    assert(s[1] == cov_field_enc(m, FieldName::NonsignificantObservations));
    assert(s[2] == cov_field_enc(m, FieldName::BucketSize));
    assert(s[3] == cov_field_enc(m, FieldName::Chromosomes));
    assert(s[4] == cov_field_enc(m, FieldName::Facets));
    assert(s[5] == cov_field_enc(m, FieldName::ChromLengths));
    assert(s[6] == cov_field_enc(m, FieldName::FeatureBuckets));
    assert(s.skip(0) =~= s);
    lemma_cat_bytes_skip_step(s, 0);
    lemma_cat_bytes_skip_step(s, 1);
    lemma_cat_bytes_skip_step(s, 2);
    lemma_cat_bytes_skip_step(s, 3);
    lemma_cat_bytes_skip_step(s, 4);
    lemma_cat_bytes_skip_step(s, 5);
    lemma_cat_bytes_skip_step(s, 6);
    assert(s.skip(7) =~= Seq::<Seq<u8>>::empty());
    assert(cat_bytes(s.skip(7)) == Seq::<u8>::empty());
    assert(cat_bytes(s) == cat_bytes(s.skip(0)));
    assert(cov_field_enc(m, FieldName::FeatureBuckets) + Seq::<u8>::empty() =~= cov_field_enc(
        m,
        FieldName::FeatureBuckets,
    ));
}

/// The canonical Coverage Index field list is valid and complete.
proof fn lemma_cov_all_fields_ok()
    ensures
        cov_ids_ok(cov_all_fields()),
        cov_all_present(cov_all_fields()),
{
    let ids = cov_all_fields();
    assert(ids.len() == 7);
    assert(ids[0] == FieldName::SignificantObservations);
    assert(ids[1] == FieldName::NonsignificantObservations);
    assert(ids[2] == FieldName::BucketSize);
    assert(ids[3] == FieldName::Chromosomes);
    assert(ids[4] == FieldName::Facets);
    assert(ids[5] == FieldName::ChromLengths);
    assert(ids[6] == FieldName::FeatureBuckets);
    assert forall|i: int| 0 <= i < ids.len() implies is_cov_field(#[trigger] ids[i]) by {
        assert(cov_field_id(ids[i]) == i);
    };
    assert forall|i: int, j: int| 0 <= i < j < ids.len() implies ids[i] != ids[j] by {
        assert(cov_field_id(ids[i]) == i);
        assert(cov_field_id(ids[j]) == j);
    };
}

/// Serializes a Coverage Index: the field count, then every field in
/// declaration order, each as its identifier byte followed by its payload.
#[verifier::rlimit(100)]
pub fn encode_coverage_data(x: &CoverageData) -> (r: Vec<u8>)
    ensures
        r@ == enc_coverage(x@),
        cov_fits(x@),
{
    let mut out: Vec<u8> = Vec::new();
    encode_u8(7, &mut out);
    encode_u8(0, &mut out);
    encode_vec_of::<ObservationData>(&x.significant_observations, &mut out);
    encode_u8(1, &mut out);
    encode_vec_of::<ObservationData>(&x.nonsignificant_observations, &mut out);
    encode_u8(2, &mut out);
    encode_u32(x.bucket_size, &mut out);
    encode_u8(3, &mut out);
    encode_vec_of::<ChromosomeData>(&x.chromosomes, &mut out);
    encode_u8(4, &mut out);
    encode_vec_of::<Facet>(&x.facets, &mut out);
    encode_u8(5, &mut out);
    encode_vec_of::<usize>(&x.chrom_lengths, &mut out);
    encode_u8(6, &mut out);
    encode_vec_of::<(DbID, BucketLoc)>(&x.feature_buckets, &mut out);
    proof {
        lemma_enc_coverage_unfold(x@);
        assert(out@ =~= enc_coverage(x@));
    }
    out
}

/// Deserializes a map-shaped Coverage Index. Whenever the bytes are a
/// map-shaped encoding of an index carrying any set of distinct fields, the
/// decoder returns exactly that index when every required field is present,
/// and otherwise rejects the stream naming the first missing field in
/// declaration order. In particular, decoding the full encoding of any index
/// yields a field-wise equal index.
#[verifier::rlimit(100)]
pub fn decode_coverage_data(b: &Vec<u8>) -> (r: Result<CoverageData, DecodeError>)
    ensures
        forall|m: CoverageModel, ids: Seq<FieldName>|
            cov_fits(m) && cov_ids_ok(ids) && b@ == #[trigger] cov_map_enc(m, ids) ==> (
            if cov_all_present(ids) {
                r matches Ok(c) && c@ == m
            } else {
                r == Err::<CoverageData, DecodeError>(
                    (DecodeError::MissingField { field: cov_first_missing(ids) }),
                )
            }),
        forall|m: CoverageModel|
            cov_fits(m) && b@ == #[trigger] enc_coverage(m) ==> (r matches Ok(c) && c@ == m),
{
    proof {
        lemma_cov_all_fields_ok();
    }
    let bytes: &[u8] = b.as_slice();
    let (count, p0) = match decode_u8(bytes, 0) {
        Ok(x) => x,
        Err(e) => {
            proof {
                assert forall|m: CoverageModel, ids: Seq<FieldName>|
                    cov_fits(m) && cov_ids_ok(ids) && b@ == #[trigger] cov_map_enc(
                        m,
                        ids,
                    ) implies false by {
                    lemma_cov_count(b@, m, ids);
                };
            }
            return Err(e);
        },
    };
    let mut sig: Option<Vec<ObservationData>> = None;
    let mut nonsig: Option<Vec<ObservationData>> = None;
    let mut bsize: Option<u32> = None;
    let mut chroms: Option<Vec<ChromosomeData>> = None;
    let mut facs: Option<Vec<Facet>> = None;
    let mut clens: Option<Vec<usize>> = None;
    let mut fbuckets: Option<Vec<(DbID, BucketLoc)>> = None;
    let mut cur: usize = p0;
    let mut j: u8 = 0;
    proof {
        assert forall|m: CoverageModel, ids: Seq<FieldName>|
            cov_fits(m) && cov_ids_ok(ids) && b@ == #[trigger] cov_map_enc(
                m,
                ids,
            ) implies count == ids.len() as u8 && cur as int == 1 + cat_bytes(
            ids.map_values(|f: FieldName| cov_field_enc(m, f)).take(0),
        ).len() by {
            lemma_cov_count(b@, m, ids);
            assert(ids.map_values(|f: FieldName| cov_field_enc(m, f)).take(0)
                =~= Seq::<Seq<u8>>::empty());
        };
    }
    while j < count
        invariant
            bytes@ == b@,
            j <= count,
            cov_ids_ok(cov_all_fields()),
            cov_all_present(cov_all_fields()),
            forall|m: CoverageModel, ids: Seq<FieldName>|
                cov_fits(m) && cov_ids_ok(ids) && b@ == #[trigger] cov_map_enc(m, ids) ==> ({
                &&& count == ids.len() as u8
                &&& j <= ids.len()
                &&& cur as int == 1 + cat_bytes(
                    ids.map_values(|f: FieldName| cov_field_enc(m, f)).take(j as int),
                ).len()
                &&& (match sig {
                    Some(v) => ids_before(ids, j as int, FieldName::SignificantObservations) && v.deep_view() == m.significant_observations,
                    None => !ids_before(ids, j as int, FieldName::SignificantObservations),
                })
                &&& (match nonsig {
                    Some(v) => ids_before(ids, j as int, FieldName::NonsignificantObservations) && v.deep_view() == m.nonsignificant_observations,
                    None => !ids_before(ids, j as int, FieldName::NonsignificantObservations),
                })
                &&& (match bsize {
                    Some(v) => ids_before(ids, j as int, FieldName::BucketSize) && v == m.bucket_size,
                    None => !ids_before(ids, j as int, FieldName::BucketSize),
                })
                &&& (match chroms {
                    Some(v) => ids_before(ids, j as int, FieldName::Chromosomes) && v.deep_view() == m.chromosomes,
                    None => !ids_before(ids, j as int, FieldName::Chromosomes),
                })
                &&& (match facs {
                    Some(v) => ids_before(ids, j as int, FieldName::Facets) && v.deep_view() == m.facets,
                    None => !ids_before(ids, j as int, FieldName::Facets),
                })
                &&& (match clens {
                    Some(v) => ids_before(ids, j as int, FieldName::ChromLengths) && v.deep_view() == m.chrom_lengths,
                    None => !ids_before(ids, j as int, FieldName::ChromLengths),
                })
                &&& (match fbuckets {
                    Some(v) => ids_before(ids, j as int, FieldName::FeatureBuckets) && v.deep_view() == m.feature_buckets,
                    None => !ids_before(ids, j as int, FieldName::FeatureBuckets),
                })
            }),
        decreases count - j,
    {
        let (id, q) = match decode_u8(bytes, cur) {
            Ok(x) => x,
            Err(e) => {
                proof {
                    assert forall|m: CoverageModel, ids: Seq<FieldName>|
                        cov_fits(m) && cov_ids_ok(ids) && b@ == #[trigger] cov_map_enc(
                            m,
                            ids,
                        ) implies false by {
                        lemma_cov_step(b@, m, ids, j as int, cur as int);
                    };
                }
                return Err(e);
            },
        };
        match id {
            0 => {
                if sig.is_some() {
                    proof {
                        assert forall|m: CoverageModel, ids: Seq<FieldName>|
                            cov_fits(m) && cov_ids_ok(ids) && b@ == #[trigger] cov_map_enc(
                                m,
                                ids,
                            ) implies false by {
                            lemma_cov_step(b@, m, ids, j as int, cur as int);
                            assert(id == cov_field_id(ids[j as int]));
                            assert(is_cov_field(ids[j as int]));
                            assert(ids[j as int] == FieldName::SignificantObservations);
                            assert(q == cur + 1);
                            assert(starts_at(b@, q as int, enc_list_of::<ObservationData>(m.significant_observations)));
                            let i0 = choose|i0: int|
                                0 <= i0 < j && i0 < ids.len() && ids[i0] == FieldName::SignificantObservations;
                            assert(ids[i0] == ids[j as int]);
                        };
                    }
                    return Err(DecodeError::DuplicateField { field: FieldName::SignificantObservations });
                }
                let (v, q2) = match decode_vec_of::<ObservationData>(bytes, q) {
                    Ok(x) => x,
                    Err(e) => {
                        proof {
                            assert forall|m: CoverageModel, ids: Seq<FieldName>|
                                cov_fits(m) && cov_ids_ok(ids) && b@ == #[trigger] cov_map_enc(
                                    m,
                                    ids,
                                ) implies false by {
                            lemma_cov_step(b@, m, ids, j as int, cur as int);
                            assert(id == cov_field_id(ids[j as int]));
                            assert(is_cov_field(ids[j as int]));
                            assert(ids[j as int] == FieldName::SignificantObservations);
                            assert(q == cur + 1);
                            assert(starts_at(b@, q as int, enc_list_of::<ObservationData>(m.significant_observations)));
                            };
                        }
                        return Err(e);
                    },
                };
                sig = Some(v);
                proof {
                    assert forall|m: CoverageModel, ids: Seq<FieldName>|
                        cov_fits(m) && cov_ids_ok(ids) && b@ == #[trigger] cov_map_enc(
                            m,
                            ids,
                        ) implies ({
                        &&& count == ids.len() as u8
                        &&& j + 1 <= ids.len()
                        &&& q2 as int == 1 + cat_bytes(
                            ids.map_values(|f: FieldName| cov_field_enc(m, f)).take(j + 1),
                        ).len()
                        &&& (match sig {
                            Some(v) => ids_before(ids, j + 1, FieldName::SignificantObservations) && v.deep_view() == m.significant_observations,
                            None => !ids_before(ids, j + 1, FieldName::SignificantObservations),
                        })
                        &&& (match nonsig {
                            Some(v) => ids_before(ids, j + 1, FieldName::NonsignificantObservations) && v.deep_view() == m.nonsignificant_observations,
                            None => !ids_before(ids, j + 1, FieldName::NonsignificantObservations),
                        })
                        &&& (match bsize {
                            Some(v) => ids_before(ids, j + 1, FieldName::BucketSize) && v == m.bucket_size,
                            None => !ids_before(ids, j + 1, FieldName::BucketSize),
                        })
                        &&& (match chroms {
                            Some(v) => ids_before(ids, j + 1, FieldName::Chromosomes) && v.deep_view() == m.chromosomes,
                            None => !ids_before(ids, j + 1, FieldName::Chromosomes),
                        })
                        &&& (match facs {
                            Some(v) => ids_before(ids, j + 1, FieldName::Facets) && v.deep_view() == m.facets,
                            None => !ids_before(ids, j + 1, FieldName::Facets),
                        })
                        &&& (match clens {
                            Some(v) => ids_before(ids, j + 1, FieldName::ChromLengths) && v.deep_view() == m.chrom_lengths,
                            None => !ids_before(ids, j + 1, FieldName::ChromLengths),
                        })
                        &&& (match fbuckets {
                            Some(v) => ids_before(ids, j + 1, FieldName::FeatureBuckets) && v.deep_view() == m.feature_buckets,
                            None => !ids_before(ids, j + 1, FieldName::FeatureBuckets),
                        })
                    }) by {
                            lemma_cov_step(b@, m, ids, j as int, cur as int);
                            assert(id == cov_field_id(ids[j as int]));
                            assert(is_cov_field(ids[j as int]));
                            assert(ids[j as int] == FieldName::SignificantObservations);
                            assert(q == cur + 1);
                            assert(starts_at(b@, q as int, enc_list_of::<ObservationData>(m.significant_observations)));
                            lemma_ids_before_step(ids, j as int, FieldName::SignificantObservations);
                            lemma_ids_before_step(ids, j as int, FieldName::NonsignificantObservations);
                            lemma_ids_before_step(ids, j as int, FieldName::BucketSize);
                            lemma_ids_before_step(ids, j as int, FieldName::Chromosomes);
                            lemma_ids_before_step(ids, j as int, FieldName::Facets);
                            lemma_ids_before_step(ids, j as int, FieldName::ChromLengths);
                            lemma_ids_before_step(ids, j as int, FieldName::FeatureBuckets);
                    };
                }
                cur = q2;
            },
            1 => {
                if nonsig.is_some() {
                    proof {
                        assert forall|m: CoverageModel, ids: Seq<FieldName>|
                            cov_fits(m) && cov_ids_ok(ids) && b@ == #[trigger] cov_map_enc(
                                m,
                                ids,
                            ) implies false by {
                            lemma_cov_step(b@, m, ids, j as int, cur as int);
                            assert(id == cov_field_id(ids[j as int]));
                            assert(is_cov_field(ids[j as int]));
                            assert(ids[j as int] == FieldName::NonsignificantObservations);
                            assert(q == cur + 1);
                            assert(starts_at(b@, q as int, enc_list_of::<ObservationData>(m.nonsignificant_observations)));
                            let i0 = choose|i0: int|
                                0 <= i0 < j && i0 < ids.len() && ids[i0] == FieldName::NonsignificantObservations;
                            assert(ids[i0] == ids[j as int]);
                        };
                    }
                    return Err(DecodeError::DuplicateField { field: FieldName::NonsignificantObservations });
                }
                let (v, q2) = match decode_vec_of::<ObservationData>(bytes, q) {
                    Ok(x) => x,
                    Err(e) => {
                        proof {
                            assert forall|m: CoverageModel, ids: Seq<FieldName>|
                                cov_fits(m) && cov_ids_ok(ids) && b@ == #[trigger] cov_map_enc(
                                    m,
                                    ids,
                                ) implies false by {
                            lemma_cov_step(b@, m, ids, j as int, cur as int);
                            assert(id == cov_field_id(ids[j as int]));
                            assert(is_cov_field(ids[j as int]));
                            assert(ids[j as int] == FieldName::NonsignificantObservations);
                            assert(q == cur + 1);
                            assert(starts_at(b@, q as int, enc_list_of::<ObservationData>(m.nonsignificant_observations)));
                            };
                        }
                        return Err(e);
                    },
                };
                nonsig = Some(v);
                proof {
                    assert forall|m: CoverageModel, ids: Seq<FieldName>|
                        cov_fits(m) && cov_ids_ok(ids) && b@ == #[trigger] cov_map_enc(
                            m,
                            ids,
                        ) implies ({
                        &&& count == ids.len() as u8
                        &&& j + 1 <= ids.len()
                        &&& q2 as int == 1 + cat_bytes(
                            ids.map_values(|f: FieldName| cov_field_enc(m, f)).take(j + 1),
                        ).len()
                        &&& (match sig {
                            Some(v) => ids_before(ids, j + 1, FieldName::SignificantObservations) && v.deep_view() == m.significant_observations,
                            None => !ids_before(ids, j + 1, FieldName::SignificantObservations),
                        })
                        &&& (match nonsig {
                            Some(v) => ids_before(ids, j + 1, FieldName::NonsignificantObservations) && v.deep_view() == m.nonsignificant_observations,
                            None => !ids_before(ids, j + 1, FieldName::NonsignificantObservations),
                        })
                        &&& (match bsize {
                            Some(v) => ids_before(ids, j + 1, FieldName::BucketSize) && v == m.bucket_size,
                            None => !ids_before(ids, j + 1, FieldName::BucketSize),
                        })
                        &&& (match chroms {
                            Some(v) => ids_before(ids, j + 1, FieldName::Chromosomes) && v.deep_view() == m.chromosomes,
                            None => !ids_before(ids, j + 1, FieldName::Chromosomes),
                        })
                        &&& (match facs {
                            Some(v) => ids_before(ids, j + 1, FieldName::Facets) && v.deep_view() == m.facets,
                            None => !ids_before(ids, j + 1, FieldName::Facets),
                        })
                        &&& (match clens {
                            Some(v) => ids_before(ids, j + 1, FieldName::ChromLengths) && v.deep_view() == m.chrom_lengths,
                            None => !ids_before(ids, j + 1, FieldName::ChromLengths),
                        })
                        &&& (match fbuckets {
                            Some(v) => ids_before(ids, j + 1, FieldName::FeatureBuckets) && v.deep_view() == m.feature_buckets,
                            None => !ids_before(ids, j + 1, FieldName::FeatureBuckets),
                        })
                    }) by {
                            lemma_cov_step(b@, m, ids, j as int, cur as int);
                            assert(id == cov_field_id(ids[j as int]));
                            assert(is_cov_field(ids[j as int]));
                            assert(ids[j as int] == FieldName::NonsignificantObservations);
                            assert(q == cur + 1);
                            assert(starts_at(b@, q as int, enc_list_of::<ObservationData>(m.nonsignificant_observations)));
                            lemma_ids_before_step(ids, j as int, FieldName::SignificantObservations);
                            lemma_ids_before_step(ids, j as int, FieldName::NonsignificantObservations);
                            lemma_ids_before_step(ids, j as int, FieldName::BucketSize);
                            lemma_ids_before_step(ids, j as int, FieldName::Chromosomes);
                            lemma_ids_before_step(ids, j as int, FieldName::Facets);
                            lemma_ids_before_step(ids, j as int, FieldName::ChromLengths);
                            lemma_ids_before_step(ids, j as int, FieldName::FeatureBuckets);
                    };
                }
                cur = q2;
            },
            2 => {
                if bsize.is_some() {
                    proof {
                        assert forall|m: CoverageModel, ids: Seq<FieldName>|
                            cov_fits(m) && cov_ids_ok(ids) && b@ == #[trigger] cov_map_enc(
                                m,
                                ids,
                            ) implies false by {
                            lemma_cov_step(b@, m, ids, j as int, cur as int);
                            assert(id == cov_field_id(ids[j as int]));
                            assert(is_cov_field(ids[j as int]));
                            assert(ids[j as int] == FieldName::BucketSize);
                            assert(q == cur + 1);
                            assert(starts_at(b@, q as int, enc_u32(m.bucket_size)));
                            let i0 = choose|i0: int|
                                0 <= i0 < j && i0 < ids.len() && ids[i0] == FieldName::BucketSize;
                            assert(ids[i0] == ids[j as int]);
                        };
                    }
                    return Err(DecodeError::DuplicateField { field: FieldName::BucketSize });
                }
                let (v, q2) = match decode_u32(bytes, q) {
                    Ok(x) => x,
                    Err(e) => {
                        proof {
                            assert forall|m: CoverageModel, ids: Seq<FieldName>|
                                cov_fits(m) && cov_ids_ok(ids) && b@ == #[trigger] cov_map_enc(
                                    m,
                                    ids,
                                ) implies false by {
                            lemma_cov_step(b@, m, ids, j as int, cur as int);
                            assert(id == cov_field_id(ids[j as int]));
                            assert(is_cov_field(ids[j as int]));
                            assert(ids[j as int] == FieldName::BucketSize);
                            assert(q == cur + 1);
                            assert(starts_at(b@, q as int, enc_u32(m.bucket_size)));
                            };
                        }
                        return Err(e);
                    },
                };
                bsize = Some(v);
                proof {
                    assert forall|m: CoverageModel, ids: Seq<FieldName>|
                        cov_fits(m) && cov_ids_ok(ids) && b@ == #[trigger] cov_map_enc(
                            m,
                            ids,
                        ) implies ({
                        &&& count == ids.len() as u8
                        &&& j + 1 <= ids.len()
                        &&& q2 as int == 1 + cat_bytes(
                            ids.map_values(|f: FieldName| cov_field_enc(m, f)).take(j + 1),
                        ).len()
                        &&& (match sig {
                            Some(v) => ids_before(ids, j + 1, FieldName::SignificantObservations) && v.deep_view() == m.significant_observations,
                            None => !ids_before(ids, j + 1, FieldName::SignificantObservations),
                        })
                        &&& (match nonsig {
                            Some(v) => ids_before(ids, j + 1, FieldName::NonsignificantObservations) && v.deep_view() == m.nonsignificant_observations,
                            None => !ids_before(ids, j + 1, FieldName::NonsignificantObservations),
                        })
                        &&& (match bsize {
                            Some(v) => ids_before(ids, j + 1, FieldName::BucketSize) && v == m.bucket_size,
                            None => !ids_before(ids, j + 1, FieldName::BucketSize),
                        })
                        &&& (match chroms {
                            Some(v) => ids_before(ids, j + 1, FieldName::Chromosomes) && v.deep_view() == m.chromosomes,
                            None => !ids_before(ids, j + 1, FieldName::Chromosomes),
                        })
                        &&& (match facs {
                            Some(v) => ids_before(ids, j + 1, FieldName::Facets) && v.deep_view() == m.facets,
                            None => !ids_before(ids, j + 1, FieldName::Facets),
                        })
                        &&& (match clens {
                            Some(v) => ids_before(ids, j + 1, FieldName::ChromLengths) && v.deep_view() == m.chrom_lengths,
                            None => !ids_before(ids, j + 1, FieldName::ChromLengths),
                        })
                        &&& (match fbuckets {
                            Some(v) => ids_before(ids, j + 1, FieldName::FeatureBuckets) && v.deep_view() == m.feature_buckets,
                            None => !ids_before(ids, j + 1, FieldName::FeatureBuckets),
                        })
                    }) by {
                            lemma_cov_step(b@, m, ids, j as int, cur as int);
                            assert(id == cov_field_id(ids[j as int]));
                            assert(is_cov_field(ids[j as int]));
                            assert(ids[j as int] == FieldName::BucketSize);
                            assert(q == cur + 1);
                            assert(starts_at(b@, q as int, enc_u32(m.bucket_size)));
                            lemma_ids_before_step(ids, j as int, FieldName::SignificantObservations);
                            lemma_ids_before_step(ids, j as int, FieldName::NonsignificantObservations);
                            lemma_ids_before_step(ids, j as int, FieldName::BucketSize);
                            lemma_ids_before_step(ids, j as int, FieldName::Chromosomes);
                            lemma_ids_before_step(ids, j as int, FieldName::Facets);
                            lemma_ids_before_step(ids, j as int, FieldName::ChromLengths);
                            lemma_ids_before_step(ids, j as int, FieldName::FeatureBuckets);
                    };
                }
                cur = q2;
            },
            3 => {
                if chroms.is_some() {
                    proof {
                        assert forall|m: CoverageModel, ids: Seq<FieldName>|
                            cov_fits(m) && cov_ids_ok(ids) && b@ == #[trigger] cov_map_enc(
                                m,
                                ids,
                            ) implies false by {
                            lemma_cov_step(b@, m, ids, j as int, cur as int);
                            assert(id == cov_field_id(ids[j as int]));
                            assert(is_cov_field(ids[j as int]));
                            assert(ids[j as int] == FieldName::Chromosomes);
                            assert(q == cur + 1);
                            assert(starts_at(b@, q as int, enc_list_of::<ChromosomeData>(m.chromosomes)));
                            let i0 = choose|i0: int|
                                0 <= i0 < j && i0 < ids.len() && ids[i0] == FieldName::Chromosomes;
                            assert(ids[i0] == ids[j as int]);
                        };
                    }
                    return Err(DecodeError::DuplicateField { field: FieldName::Chromosomes });
                }
                let (v, q2) = match decode_vec_of::<ChromosomeData>(bytes, q) {
                    Ok(x) => x,
                    Err(e) => {
                        proof {
                            assert forall|m: CoverageModel, ids: Seq<FieldName>|
                                cov_fits(m) && cov_ids_ok(ids) && b@ == #[trigger] cov_map_enc(
                                    m,
                                    ids,
                                ) implies false by {
                            lemma_cov_step(b@, m, ids, j as int, cur as int);
                            assert(id == cov_field_id(ids[j as int]));
                            assert(is_cov_field(ids[j as int]));
                            assert(ids[j as int] == FieldName::Chromosomes);
                            assert(q == cur + 1);
                            assert(starts_at(b@, q as int, enc_list_of::<ChromosomeData>(m.chromosomes)));
                            };
                        }
                        return Err(e);
                    },
                };
                chroms = Some(v);
                proof {
                    assert forall|m: CoverageModel, ids: Seq<FieldName>|
                        cov_fits(m) && cov_ids_ok(ids) && b@ == #[trigger] cov_map_enc(
                            m,
                            ids,
                        ) implies ({
                        &&& count == ids.len() as u8
                        &&& j + 1 <= ids.len()
                        &&& q2 as int == 1 + cat_bytes(
                            ids.map_values(|f: FieldName| cov_field_enc(m, f)).take(j + 1),
                        ).len()
                        &&& (match sig {
                            Some(v) => ids_before(ids, j + 1, FieldName::SignificantObservations) && v.deep_view() == m.significant_observations,
                            None => !ids_before(ids, j + 1, FieldName::SignificantObservations),
                        })
                        &&& (match nonsig {
                            Some(v) => ids_before(ids, j + 1, FieldName::NonsignificantObservations) && v.deep_view() == m.nonsignificant_observations,
                            None => !ids_before(ids, j + 1, FieldName::NonsignificantObservations),
                        })
                        &&& (match bsize {
                            Some(v) => ids_before(ids, j + 1, FieldName::BucketSize) && v == m.bucket_size,
                            None => !ids_before(ids, j + 1, FieldName::BucketSize),
                        })
                        &&& (match chroms {
                            Some(v) => ids_before(ids, j + 1, FieldName::Chromosomes) && v.deep_view() == m.chromosomes,
                            None => !ids_before(ids, j + 1, FieldName::Chromosomes),
                        })
                        &&& (match facs {
                            Some(v) => ids_before(ids, j + 1, FieldName::Facets) && v.deep_view() == m.facets,
                            None => !ids_before(ids, j + 1, FieldName::Facets),
                        })
                        &&& (match clens {
                            Some(v) => ids_before(ids, j + 1, FieldName::ChromLengths) && v.deep_view() == m.chrom_lengths,
                            None => !ids_before(ids, j + 1, FieldName::ChromLengths),
                        })
                        &&& (match fbuckets {
                            Some(v) => ids_before(ids, j + 1, FieldName::FeatureBuckets) && v.deep_view() == m.feature_buckets,
                            None => !ids_before(ids, j + 1, FieldName::FeatureBuckets),
                        })
                    }) by {
                            lemma_cov_step(b@, m, ids, j as int, cur as int);
                            assert(id == cov_field_id(ids[j as int]));
                            assert(is_cov_field(ids[j as int]));
                            assert(ids[j as int] == FieldName::Chromosomes);
                            assert(q == cur + 1);
                            assert(starts_at(b@, q as int, enc_list_of::<ChromosomeData>(m.chromosomes)));
                            lemma_ids_before_step(ids, j as int, FieldName::SignificantObservations);
                            lemma_ids_before_step(ids, j as int, FieldName::NonsignificantObservations);
                            lemma_ids_before_step(ids, j as int, FieldName::BucketSize);
                            lemma_ids_before_step(ids, j as int, FieldName::Chromosomes);
                            lemma_ids_before_step(ids, j as int, FieldName::Facets);
                            lemma_ids_before_step(ids, j as int, FieldName::ChromLengths);
                            lemma_ids_before_step(ids, j as int, FieldName::FeatureBuckets);
                    };
                }
                cur = q2;
            },
            4 => {
                if facs.is_some() {
                    proof {
                        assert forall|m: CoverageModel, ids: Seq<FieldName>|
                            cov_fits(m) && cov_ids_ok(ids) && b@ == #[trigger] cov_map_enc(
                                m,
                                ids,
                            ) implies false by {
                            lemma_cov_step(b@, m, ids, j as int, cur as int);
                            assert(id == cov_field_id(ids[j as int]));
                            assert(is_cov_field(ids[j as int]));
                            assert(ids[j as int] == FieldName::Facets);
                            assert(q == cur + 1);
                            assert(starts_at(b@, q as int, enc_list_of::<Facet>(m.facets)));
                            let i0 = choose|i0: int|
                                0 <= i0 < j && i0 < ids.len() && ids[i0] == FieldName::Facets;
                            assert(ids[i0] == ids[j as int]);
                        };
                    }
                    return Err(DecodeError::DuplicateField { field: FieldName::Facets });
                }
                let (v, q2) = match decode_vec_of::<Facet>(bytes, q) {
                    Ok(x) => x,
                    Err(e) => {
                        proof {
                            assert forall|m: CoverageModel, ids: Seq<FieldName>|
                                cov_fits(m) && cov_ids_ok(ids) && b@ == #[trigger] cov_map_enc(
                                    m,
                                    ids,
                                ) implies false by {
                            lemma_cov_step(b@, m, ids, j as int, cur as int);
                            assert(id == cov_field_id(ids[j as int]));
                            assert(is_cov_field(ids[j as int]));
                            assert(ids[j as int] == FieldName::Facets);
                            assert(q == cur + 1);
                            assert(starts_at(b@, q as int, enc_list_of::<Facet>(m.facets)));
                            };
                        }
                        return Err(e);
                    },
                };
                facs = Some(v);
                proof {
                    assert forall|m: CoverageModel, ids: Seq<FieldName>|
                        cov_fits(m) && cov_ids_ok(ids) && b@ == #[trigger] cov_map_enc(
                            m,
                            ids,
                        ) implies ({
                        &&& count == ids.len() as u8
                        &&& j + 1 <= ids.len()
                        &&& q2 as int == 1 + cat_bytes(
                            ids.map_values(|f: FieldName| cov_field_enc(m, f)).take(j + 1),
                        ).len()
                        &&& (match sig {
                            Some(v) => ids_before(ids, j + 1, FieldName::SignificantObservations) && v.deep_view() == m.significant_observations,
                            None => !ids_before(ids, j + 1, FieldName::SignificantObservations),
                        })
                        &&& (match nonsig {
                            Some(v) => ids_before(ids, j + 1, FieldName::NonsignificantObservations) && v.deep_view() == m.nonsignificant_observations,
                            None => !ids_before(ids, j + 1, FieldName::NonsignificantObservations),
                        })
                        &&& (match bsize {
                            Some(v) => ids_before(ids, j + 1, FieldName::BucketSize) && v == m.bucket_size,
                            None => !ids_before(ids, j + 1, FieldName::BucketSize),
                        })
                        &&& (match chroms {
                            Some(v) => ids_before(ids, j + 1, FieldName::Chromosomes) && v.deep_view() == m.chromosomes,
                            None => !ids_before(ids, j + 1, FieldName::Chromosomes),
                        })
                        &&& (match facs {
                            Some(v) => ids_before(ids, j + 1, FieldName::Facets) && v.deep_view() == m.facets,
                            None => !ids_before(ids, j + 1, FieldName::Facets),
                        })
                        &&& (match clens {
                            Some(v) => ids_before(ids, j + 1, FieldName::ChromLengths) && v.deep_view() == m.chrom_lengths,
                            None => !ids_before(ids, j + 1, FieldName::ChromLengths),
                        })
                        &&& (match fbuckets {
                            Some(v) => ids_before(ids, j + 1, FieldName::FeatureBuckets) && v.deep_view() == m.feature_buckets,
                            None => !ids_before(ids, j + 1, FieldName::FeatureBuckets),
                        })
                    }) by {
                            lemma_cov_step(b@, m, ids, j as int, cur as int);
                            assert(id == cov_field_id(ids[j as int]));
                            assert(is_cov_field(ids[j as int]));
                            assert(ids[j as int] == FieldName::Facets);
                            assert(q == cur + 1);
                            assert(starts_at(b@, q as int, enc_list_of::<Facet>(m.facets)));
                            lemma_ids_before_step(ids, j as int, FieldName::SignificantObservations);
                            lemma_ids_before_step(ids, j as int, FieldName::NonsignificantObservations);
                            lemma_ids_before_step(ids, j as int, FieldName::BucketSize);
                            lemma_ids_before_step(ids, j as int, FieldName::Chromosomes);
                            lemma_ids_before_step(ids, j as int, FieldName::Facets);
                            lemma_ids_before_step(ids, j as int, FieldName::ChromLengths);
                            lemma_ids_before_step(ids, j as int, FieldName::FeatureBuckets);
                    };
                }
                cur = q2;
            },
            5 => {
                if clens.is_some() {
                    proof {
                        assert forall|m: CoverageModel, ids: Seq<FieldName>|
                            cov_fits(m) && cov_ids_ok(ids) && b@ == #[trigger] cov_map_enc(
                                m,
                                ids,
                            ) implies false by {
                            lemma_cov_step(b@, m, ids, j as int, cur as int);
                            assert(id == cov_field_id(ids[j as int]));
                            assert(is_cov_field(ids[j as int]));
                            assert(ids[j as int] == FieldName::ChromLengths);
                            assert(q == cur + 1);
                            assert(starts_at(b@, q as int, enc_list_of::<usize>(m.chrom_lengths)));
                            let i0 = choose|i0: int|
                                0 <= i0 < j && i0 < ids.len() && ids[i0] == FieldName::ChromLengths;
                            assert(ids[i0] == ids[j as int]);
                        };
                    }
                    return Err(DecodeError::DuplicateField { field: FieldName::ChromLengths });
                }
                let (v, q2) = match decode_vec_of::<usize>(bytes, q) {
                    Ok(x) => x,
                    Err(e) => {
                        proof {
                            assert forall|m: CoverageModel, ids: Seq<FieldName>|
                                cov_fits(m) && cov_ids_ok(ids) && b@ == #[trigger] cov_map_enc(
                                    m,
                                    ids,
                                ) implies false by {
                            lemma_cov_step(b@, m, ids, j as int, cur as int);
                            assert(id == cov_field_id(ids[j as int]));
                            assert(is_cov_field(ids[j as int]));
                            assert(ids[j as int] == FieldName::ChromLengths);
                            assert(q == cur + 1);
                            assert(starts_at(b@, q as int, enc_list_of::<usize>(m.chrom_lengths)));
                            };
                        }
                        return Err(e);
                    },
                };
                clens = Some(v);
                proof {
                    assert forall|m: CoverageModel, ids: Seq<FieldName>|
                        cov_fits(m) && cov_ids_ok(ids) && b@ == #[trigger] cov_map_enc(
                            m,
                            ids,
                        ) implies ({
                        &&& count == ids.len() as u8
                        &&& j + 1 <= ids.len()
                        &&& q2 as int == 1 + cat_bytes(
                            ids.map_values(|f: FieldName| cov_field_enc(m, f)).take(j + 1),
                        ).len()
                        &&& (match sig {
                            Some(v) => ids_before(ids, j + 1, FieldName::SignificantObservations) && v.deep_view() == m.significant_observations,
                            None => !ids_before(ids, j + 1, FieldName::SignificantObservations),
                        })
                        &&& (match nonsig {
                            Some(v) => ids_before(ids, j + 1, FieldName::NonsignificantObservations) && v.deep_view() == m.nonsignificant_observations,
                            None => !ids_before(ids, j + 1, FieldName::NonsignificantObservations),
                        })
                        &&& (match bsize {
                            Some(v) => ids_before(ids, j + 1, FieldName::BucketSize) && v == m.bucket_size,
                            None => !ids_before(ids, j + 1, FieldName::BucketSize),
                        })
                        &&& (match chroms {
                            Some(v) => ids_before(ids, j + 1, FieldName::Chromosomes) && v.deep_view() == m.chromosomes,
                            None => !ids_before(ids, j + 1, FieldName::Chromosomes),
                        })
                        &&& (match facs {
                            Some(v) => ids_before(ids, j + 1, FieldName::Facets) && v.deep_view() == m.facets,
                            None => !ids_before(ids, j + 1, FieldName::Facets),
                        })
                        &&& (match clens {
                            Some(v) => ids_before(ids, j + 1, FieldName::ChromLengths) && v.deep_view() == m.chrom_lengths,
                            None => !ids_before(ids, j + 1, FieldName::ChromLengths),
                        })
                        &&& (match fbuckets {
                            Some(v) => ids_before(ids, j + 1, FieldName::FeatureBuckets) && v.deep_view() == m.feature_buckets,
                            None => !ids_before(ids, j + 1, FieldName::FeatureBuckets),
                        })
                    }) by {
                            lemma_cov_step(b@, m, ids, j as int, cur as int);
                            assert(id == cov_field_id(ids[j as int]));
                            assert(is_cov_field(ids[j as int]));
                            assert(ids[j as int] == FieldName::ChromLengths);
                            assert(q == cur + 1);
                            assert(starts_at(b@, q as int, enc_list_of::<usize>(m.chrom_lengths)));
                            lemma_ids_before_step(ids, j as int, FieldName::SignificantObservations);
                            lemma_ids_before_step(ids, j as int, FieldName::NonsignificantObservations);
                            lemma_ids_before_step(ids, j as int, FieldName::BucketSize);
                            lemma_ids_before_step(ids, j as int, FieldName::Chromosomes);
                            lemma_ids_before_step(ids, j as int, FieldName::Facets);
                            lemma_ids_before_step(ids, j as int, FieldName::ChromLengths);
                            lemma_ids_before_step(ids, j as int, FieldName::FeatureBuckets);
                    };
                }
                cur = q2;
            },
            6 => {
                if fbuckets.is_some() {
                    proof {
                        assert forall|m: CoverageModel, ids: Seq<FieldName>|
                            cov_fits(m) && cov_ids_ok(ids) && b@ == #[trigger] cov_map_enc(
                                m,
                                ids,
                            ) implies false by {
                            lemma_cov_step(b@, m, ids, j as int, cur as int);
                            assert(id == cov_field_id(ids[j as int]));
                            assert(is_cov_field(ids[j as int]));
                            assert(ids[j as int] == FieldName::FeatureBuckets);
                            assert(q == cur + 1);
                            assert(starts_at(b@, q as int, enc_list_of::<(DbID, BucketLoc)>(m.feature_buckets)));
                            let i0 = choose|i0: int|
                                0 <= i0 < j && i0 < ids.len() && ids[i0] == FieldName::FeatureBuckets;
                            assert(ids[i0] == ids[j as int]);
                        };
                    }
                    return Err(DecodeError::DuplicateField { field: FieldName::FeatureBuckets });
                }
                let (v, q2) = match decode_vec_of::<(DbID, BucketLoc)>(bytes, q) {
                    Ok(x) => x,
                    Err(e) => {
                        proof {
                            assert forall|m: CoverageModel, ids: Seq<FieldName>|
                                cov_fits(m) && cov_ids_ok(ids) && b@ == #[trigger] cov_map_enc(
                                    m,
                                    ids,
                                ) implies false by {
                            lemma_cov_step(b@, m, ids, j as int, cur as int);
                            assert(id == cov_field_id(ids[j as int]));
                            assert(is_cov_field(ids[j as int]));
                            assert(ids[j as int] == FieldName::FeatureBuckets);
                            assert(q == cur + 1);
                            assert(starts_at(b@, q as int, enc_list_of::<(DbID, BucketLoc)>(m.feature_buckets)));
                            };
                        }
                        return Err(e);
                    },
                };
                fbuckets = Some(v);
                proof {
                    assert forall|m: CoverageModel, ids: Seq<FieldName>|
                        cov_fits(m) && cov_ids_ok(ids) && b@ == #[trigger] cov_map_enc(
                            m,
                            ids,
                        ) implies ({
                        &&& count == ids.len() as u8
                        &&& j + 1 <= ids.len()
                        &&& q2 as int == 1 + cat_bytes(
                            ids.map_values(|f: FieldName| cov_field_enc(m, f)).take(j + 1),
                        ).len()
                        &&& (match sig {
                            Some(v) => ids_before(ids, j + 1, FieldName::SignificantObservations) && v.deep_view() == m.significant_observations,
                            None => !ids_before(ids, j + 1, FieldName::SignificantObservations),
                        })
                        &&& (match nonsig {
                            Some(v) => ids_before(ids, j + 1, FieldName::NonsignificantObservations) && v.deep_view() == m.nonsignificant_observations,
                            None => !ids_before(ids, j + 1, FieldName::NonsignificantObservations),
                        })
                        &&& (match bsize {
                            Some(v) => ids_before(ids, j + 1, FieldName::BucketSize) && v == m.bucket_size,
                            None => !ids_before(ids, j + 1, FieldName::BucketSize),
                        })
                        &&& (match chroms {
                            Some(v) => ids_before(ids, j + 1, FieldName::Chromosomes) && v.deep_view() == m.chromosomes,
                            None => !ids_before(ids, j + 1, FieldName::Chromosomes),
                        })
                        &&& (match facs {
                            Some(v) => ids_before(ids, j + 1, FieldName::Facets) && v.deep_view() == m.facets,
                            None => !ids_before(ids, j + 1, FieldName::Facets),
                        })
                        &&& (match clens {
                            Some(v) => ids_before(ids, j + 1, FieldName::ChromLengths) && v.deep_view() == m.chrom_lengths,
                            None => !ids_before(ids, j + 1, FieldName::ChromLengths),
                        })
                        &&& (match fbuckets {
                            Some(v) => ids_before(ids, j + 1, FieldName::FeatureBuckets) && v.deep_view() == m.feature_buckets,
                            None => !ids_before(ids, j + 1, FieldName::FeatureBuckets),
                        })
                    }) by {
                            lemma_cov_step(b@, m, ids, j as int, cur as int);
                            assert(id == cov_field_id(ids[j as int]));
                            assert(is_cov_field(ids[j as int]));
                            assert(ids[j as int] == FieldName::FeatureBuckets);
                            assert(q == cur + 1);
                            assert(starts_at(b@, q as int, enc_list_of::<(DbID, BucketLoc)>(m.feature_buckets)));
                            lemma_ids_before_step(ids, j as int, FieldName::SignificantObservations);
                            lemma_ids_before_step(ids, j as int, FieldName::NonsignificantObservations);
                            lemma_ids_before_step(ids, j as int, FieldName::BucketSize);
                            lemma_ids_before_step(ids, j as int, FieldName::Chromosomes);
                            lemma_ids_before_step(ids, j as int, FieldName::Facets);
                            lemma_ids_before_step(ids, j as int, FieldName::ChromLengths);
                            lemma_ids_before_step(ids, j as int, FieldName::FeatureBuckets);
                    };
                }
                cur = q2;
            },
            _ => {
                proof {
                    assert forall|m: CoverageModel, ids: Seq<FieldName>|
                        cov_fits(m) && cov_ids_ok(ids) && b@ == #[trigger] cov_map_enc(
                            m,
                            ids,
                        ) implies false by {
                        lemma_cov_step(b@, m, ids, j as int, cur as int);
                        assert(id == cov_field_id(ids[j as int]));
                        assert(is_cov_field(ids[j as int]));
                    };
                }
                return Err(DecodeError::Structure { offset: cur });
            },
        }
        j = j + 1;
    }
    if cur != b.len() {
        proof {
            assert forall|m: CoverageModel, ids: Seq<FieldName>|
                cov_fits(m) && cov_ids_ok(ids) && b@ == #[trigger] cov_map_enc(
                    m,
                    ids,
                ) implies false by {
                lemma_cov_count(b@, m, ids);
                assert(ids.map_values(|f: FieldName| cov_field_enc(m, f)).take(
                    ids.len() as int,
                ) =~= ids.map_values(|f: FieldName| cov_field_enc(m, f)));
            };
        }
        return Err(DecodeError::Structure { offset: cur });
    }
    let significant_observations = match sig {
        Some(v) => v,
        None => {
            proof {
                assert forall|m: CoverageModel, ids: Seq<FieldName>|
                    cov_fits(m) && cov_ids_ok(ids) && b@ == #[trigger] cov_map_enc(
                        m,
                        ids,
                    ) implies !cov_all_present(ids) && cov_first_missing(ids)
                    == FieldName::SignificantObservations by {
                        lemma_ids_before_full(ids, FieldName::SignificantObservations);
                };
            }
            return Err(DecodeError::MissingField { field: FieldName::SignificantObservations });
        },
    };
    let nonsignificant_observations = match nonsig {
        Some(v) => v,
        None => {
            proof {
                assert forall|m: CoverageModel, ids: Seq<FieldName>|
                    cov_fits(m) && cov_ids_ok(ids) && b@ == #[trigger] cov_map_enc(
                        m,
                        ids,
                    ) implies !cov_all_present(ids) && cov_first_missing(ids)
                    == FieldName::NonsignificantObservations by {
                        lemma_ids_before_full(ids, FieldName::SignificantObservations);
                        lemma_ids_before_full(ids, FieldName::NonsignificantObservations);
                };
            }
            return Err(DecodeError::MissingField { field: FieldName::NonsignificantObservations });
        },
    };
    let bucket_size = match bsize {
        Some(v) => v,
        None => {
            proof {
                assert forall|m: CoverageModel, ids: Seq<FieldName>|
                    cov_fits(m) && cov_ids_ok(ids) && b@ == #[trigger] cov_map_enc(
                        m,
                        ids,
                    ) implies !cov_all_present(ids) && cov_first_missing(ids)
                    == FieldName::BucketSize by {
                        lemma_ids_before_full(ids, FieldName::SignificantObservations);
                        lemma_ids_before_full(ids, FieldName::NonsignificantObservations);
                        lemma_ids_before_full(ids, FieldName::BucketSize);
                };
            }
            return Err(DecodeError::MissingField { field: FieldName::BucketSize });
        },
    };
    let chromosomes = match chroms {
        Some(v) => v,
        None => {
            proof {
                assert forall|m: CoverageModel, ids: Seq<FieldName>|
                    cov_fits(m) && cov_ids_ok(ids) && b@ == #[trigger] cov_map_enc(
                        m,
                        ids,
                    ) implies !cov_all_present(ids) && cov_first_missing(ids)
                    == FieldName::Chromosomes by {
                        lemma_ids_before_full(ids, FieldName::SignificantObservations);
                        lemma_ids_before_full(ids, FieldName::NonsignificantObservations);
                        lemma_ids_before_full(ids, FieldName::BucketSize);
                        lemma_ids_before_full(ids, FieldName::Chromosomes);
                };
            }
            return Err(DecodeError::MissingField { field: FieldName::Chromosomes });
        },
    };
    let facets = match facs {
        Some(v) => v,
        None => {
            proof {
                assert forall|m: CoverageModel, ids: Seq<FieldName>|
                    cov_fits(m) && cov_ids_ok(ids) && b@ == #[trigger] cov_map_enc(
                        m,
                        ids,
                    ) implies !cov_all_present(ids) && cov_first_missing(ids)
                    == FieldName::Facets by {
                        lemma_ids_before_full(ids, FieldName::SignificantObservations);
                        lemma_ids_before_full(ids, FieldName::NonsignificantObservations);
                        lemma_ids_before_full(ids, FieldName::BucketSize);
                        lemma_ids_before_full(ids, FieldName::Chromosomes);
                        lemma_ids_before_full(ids, FieldName::Facets);
                };
            }
            return Err(DecodeError::MissingField { field: FieldName::Facets });
        },
    };
    let chrom_lengths = match clens {
        Some(v) => v,
        None => {
            proof {
                assert forall|m: CoverageModel, ids: Seq<FieldName>|
                    cov_fits(m) && cov_ids_ok(ids) && b@ == #[trigger] cov_map_enc(
                        m,
                        ids,
                    ) implies !cov_all_present(ids) && cov_first_missing(ids)
                    == FieldName::ChromLengths by {
                        lemma_ids_before_full(ids, FieldName::SignificantObservations);
                        lemma_ids_before_full(ids, FieldName::NonsignificantObservations);
                        lemma_ids_before_full(ids, FieldName::BucketSize);
                        lemma_ids_before_full(ids, FieldName::Chromosomes);
                        lemma_ids_before_full(ids, FieldName::Facets);
                        lemma_ids_before_full(ids, FieldName::ChromLengths);
                };
            }
            return Err(DecodeError::MissingField { field: FieldName::ChromLengths });
        },
    };
    let feature_buckets = match fbuckets {
        Some(v) => v,
        None => {
            proof {
                assert forall|m: CoverageModel, ids: Seq<FieldName>|
                    cov_fits(m) && cov_ids_ok(ids) && b@ == #[trigger] cov_map_enc(
                        m,
                        ids,
                    ) implies !cov_all_present(ids) && cov_first_missing(ids)
                    == FieldName::FeatureBuckets by {
                        lemma_ids_before_full(ids, FieldName::SignificantObservations);
                        lemma_ids_before_full(ids, FieldName::NonsignificantObservations);
                        lemma_ids_before_full(ids, FieldName::BucketSize);
                        lemma_ids_before_full(ids, FieldName::Chromosomes);
                        lemma_ids_before_full(ids, FieldName::Facets);
                        lemma_ids_before_full(ids, FieldName::ChromLengths);
                        lemma_ids_before_full(ids, FieldName::FeatureBuckets);
                };
            }
            return Err(DecodeError::MissingField { field: FieldName::FeatureBuckets });
        },
    };
    let c = CoverageData {
        significant_observations,
        nonsignificant_observations,
        bucket_size,
        chromosomes,
        facets,
        chrom_lengths,
        feature_buckets,
    };
    proof {
        assert forall|m: CoverageModel, ids: Seq<FieldName>|
            cov_fits(m) && cov_ids_ok(ids) && b@ == #[trigger] cov_map_enc(
                m,
                ids,
            ) implies cov_all_present(ids) && c@ == m by {
            lemma_ids_before_full(ids, FieldName::SignificantObservations);
            lemma_ids_before_full(ids, FieldName::NonsignificantObservations);
            lemma_ids_before_full(ids, FieldName::BucketSize);
            lemma_ids_before_full(ids, FieldName::Chromosomes);
            lemma_ids_before_full(ids, FieldName::Facets);
            lemma_ids_before_full(ids, FieldName::ChromLengths);
            lemma_ids_before_full(ids, FieldName::FeatureBuckets);
            assert(c@ =~= m);
        };
    }
    Ok(c)
}


/// The identifier byte of each membership-sets field on the wire.
pub open spec fn efd_field_id(f: FieldName) -> u8 {
    match f {
        FieldName::Sources => 0,
        FieldName::Targets => 1,
        _ => 255,
    }
}

/// Whether `f` is a field of the membership-sets encoding.
pub open spec fn is_efd_field(f: FieldName) -> bool {
    efd_field_id(f) < 2
}

/// One tagged membership-sets field: its identifier byte, then the
/// length-prefixed blob it selects.
pub open spec fn efd_field_enc(f: FieldName, sb: Seq<u8>, tb: Seq<u8>) -> Seq<u8> {
    enc_u8(efd_field_id(f)) + enc_bytes(
        if f == FieldName::Sources {
            sb
        } else {
            tb
        },
    )
}

/// A map-shaped membership-sets encoding carrying the fields in `ids`, in
/// that order, with `sb` and `tb` as the serialized source and target
/// bitmap blobs.
pub open spec fn efd_map_enc(ids: Seq<FieldName>, sb: Seq<u8>, tb: Seq<u8>) -> Seq<u8> {
    enc_u8(ids.len() as u8) + cat_bytes(
        ids.map_values(
            |f: FieldName| efd_field_enc(f, sb, tb),
        ),
    )
}

/// The blobs are valid serialized bitmaps holding exactly the model's sets.
pub open spec fn efd_blobs_ok(m: FeatureDataModel, sb: Seq<u8>, tb: Seq<u8>) -> bool {
    &&& treemap_of_bytes(sb) == Some(m.sources)
    &&& treemap_of_bytes(tb) == Some(m.targets)
    &&& bytes_fits(sb)
    &&& bytes_fits(tb)
}

/// Valid field lists of a map-shaped membership-sets encoding.
pub open spec fn efd_ids_ok(ids: Seq<FieldName>) -> bool {
    &&& ids.len() <= 2
    &&& forall|i: int| 0 <= i < ids.len() ==> is_efd_field(#[trigger] ids[i])
    &&& forall|i: int, j: int| 0 <= i < j < ids.len() ==> ids[i] != ids[j]
}

/// The canonical field order of the membership-sets encoding.
pub open spec fn efd_all_fields() -> Seq<FieldName> {
    seq![FieldName::Sources, FieldName::Targets]
}

/// Whether both required fields occur in `ids`.
pub open spec fn efd_all_present(ids: Seq<FieldName>) -> bool {
    ids.contains(FieldName::Sources) && ids.contains(FieldName::Targets)
}

/// The first required field, in declaration order, that `ids` misses.
pub open spec fn efd_first_missing(ids: Seq<FieldName>) -> FieldName {
    if !ids.contains(FieldName::Sources) {
        FieldName::Sources
    } else {
        FieldName::Targets
    }
}

/// The count byte and total length of a map-shaped membership-sets encoding.
proof fn lemma_efd_count(b: Seq<u8>, ids: Seq<FieldName>, sb: Seq<u8>, tb: Seq<u8>)
    requires
        b == efd_map_enc(ids, sb, tb),
    ensures
        starts_at(b, 0, enc_u8(ids.len() as u8)),
        b.len() == 1 + cat_bytes(
            ids.map_values(
                |f: FieldName| efd_field_enc(f, sb, tb),
            ),
        ).len(),
{
    let encs = ids.map_values(
        |f: FieldName| efd_field_enc(f, sb, tb),
    );
    assert(b.subrange(0, b.len() as int) =~= b);
    assert(starts_at(b, 0, enc_u8(ids.len() as u8) + cat_bytes(encs)));
    lemma_starts_at_concat(b, 0, enc_u8(ids.len() as u8), cat_bytes(encs));
}

/// The layout of the field at position `j` of a map-shaped membership-sets
/// encoding.
proof fn lemma_efd_step(
    b: Seq<u8>,
    ids: Seq<FieldName>,
    sb: Seq<u8>,
    tb: Seq<u8>,
    j: int,
    cur: int,
)
    requires
        b == efd_map_enc(ids, sb, tb),
        0 <= j < ids.len(),
        cur == 1 + cat_bytes(
            ids.map_values(
                |f: FieldName| efd_field_enc(f, sb, tb),
            ).take(j),
        ).len(),
    ensures
        starts_at(b, cur, enc_u8(efd_field_id(ids[j]))),
        starts_at(
            b,
            cur + 1,
            enc_bytes(
                if ids[j] == FieldName::Sources {
                    sb
                } else {
                    tb
                },
            ),
        ),
        cur + 1 + enc_bytes(
            if ids[j] == FieldName::Sources {
                sb
            } else {
                tb
            },
        ).len() == 1 + cat_bytes(
            ids.map_values(
                |f: FieldName| efd_field_enc(f, sb, tb),
            ).take(j + 1),
        ).len(),
{
    let encs = ids.map_values(
        |f: FieldName| efd_field_enc(f, sb, tb),
    );
    let payload = enc_bytes(
        if ids[j] == FieldName::Sources {
            sb
        } else {
            tb
        },
    );
    lemma_efd_count(b, ids, sb, tb);
    assert(b.subrange(0, b.len() as int) =~= b);
    assert(starts_at(b, 0, enc_u8(ids.len() as u8) + cat_bytes(encs)));
    lemma_starts_at_concat(b, 0, enc_u8(ids.len() as u8), cat_bytes(encs));
    assert(starts_at(b, 1, cat_bytes(encs)));
    lemma_cat_bytes_split(encs, j);
    assert(starts_at(b, 1, cat_bytes(encs.take(j)) + cat_bytes(encs.skip(j))));
    lemma_starts_at_concat(b, 1, cat_bytes(encs.take(j)), cat_bytes(encs.skip(j)));
    lemma_cat_bytes_skip_step(encs, j);
    assert(starts_at(b, cur, encs[j] + cat_bytes(encs.skip(j + 1))));
    lemma_starts_at_concat(b, cur, encs[j], cat_bytes(encs.skip(j + 1)));
    assert(encs[j] == efd_field_enc(ids[j], sb, tb));
    assert(efd_field_enc(ids[j], sb, tb) == enc_u8(efd_field_id(ids[j])) + payload);
    lemma_starts_at_concat(b, cur, enc_u8(efd_field_id(ids[j])), payload);
    assert(encs.take(j + 1) =~= encs.take(j).push(encs[j]));
    lemma_cat_bytes_push(encs.take(j), encs[j]);
}

/// The canonical membership-sets field list is valid and complete.
proof fn lemma_efd_all_fields_ok()
    ensures
        efd_ids_ok(efd_all_fields()),
        efd_all_present(efd_all_fields()),
{
    let ids = efd_all_fields();
    assert(ids.len() == 2);
    assert(ids[0] == FieldName::Sources);
    assert(ids[1] == FieldName::Targets);
    assert forall|i: int| 0 <= i < ids.len() implies is_efd_field(#[trigger] ids[i]) by {
        assert(efd_field_id(ids[i]) == i);
    };
    assert forall|i: int, j: int| 0 <= i < j < ids.len() implies ids[i] != ids[j] by {
        assert(efd_field_id(ids[i]) == i);
        assert(efd_field_id(ids[j]) == j);
    };
}

/// The full membership-sets encoding unfolded into its two tagged fields.
proof fn lemma_efd_map_enc_full(sb: Seq<u8>, tb: Seq<u8>)
    ensures
        efd_map_enc(efd_all_fields(), sb, tb) == enc_u8(2) + ((enc_u8(0) + enc_bytes(sb)) + (
        enc_u8(1) + enc_bytes(tb))),
{
    let ids = efd_all_fields();
    let s = ids.map_values(
        |f: FieldName| efd_field_enc(f, sb, tb),
    );
    assert(s.len() == 2);
    assert(s[0] == efd_field_enc(FieldName::Sources, sb, tb));
    assert(s[1] == efd_field_enc(FieldName::Targets, sb, tb));
    assert(efd_field_enc(FieldName::Sources, sb, tb) == enc_u8(0) + enc_bytes(sb));
    assert(efd_field_enc(FieldName::Targets, sb, tb) == enc_u8(1) + enc_bytes(tb));
    assert(s.skip(0) =~= s);
    lemma_cat_bytes_skip_step(s, 0);
    lemma_cat_bytes_skip_step(s, 1);
    assert(s.skip(2) =~= Seq::<Seq<u8>>::empty());
    assert(cat_bytes(s.skip(2)) == Seq::<u8>::empty());
    assert(cat_bytes(s) == cat_bytes(s.skip(0)));
    assert((enc_u8(1) + enc_bytes(tb)) + Seq::<u8>::empty() =~= enc_u8(1) + enc_bytes(tb));
}

/// Serializes the membership sets: each bitmap is serialized by the bitmap
/// library into an opaque blob, and the two blobs are framed as tagged,
/// length-prefixed fields.
pub fn encode_experiment_feature_data(x: &ExperimentFeatureData) -> (r: Vec<u8>)
    ensures
        exists|sb: Seq<u8>, tb: Seq<u8>|
            efd_blobs_ok(x@, sb, tb) && r@ == efd_map_enc(efd_all_fields(), sb, tb),
{
    let sblob = treemap_serialize(&x.sources);
    let tblob = treemap_serialize(&x.targets);
    let mut out: Vec<u8> = Vec::new();
    encode_u8(2, &mut out);
    encode_u8(0, &mut out);
    encode_bytes(&sblob, &mut out);
    encode_u8(1, &mut out);
    encode_bytes(&tblob, &mut out);
    proof {
        lemma_efd_map_enc_full(sblob@, tblob@);
        assert(out@ =~= efd_map_enc(efd_all_fields(), sblob@, tblob@));
        assert(efd_blobs_ok(x@, sblob@, tblob@) && out@ == efd_map_enc(
            efd_all_fields(),
            sblob@,
            tblob@,
        ));
    }
    out
}

/// Deserializes map-shaped membership sets. Whenever the bytes are a
/// map-shaped encoding built from valid bitmap blobs, the decoder returns
/// membership sets with exactly the serialized member sets when both fields
/// are present, and otherwise rejects the stream naming the first missing
/// field. In particular, decoding the encoding of any membership sets yields
/// equal member sets.
#[verifier::rlimit(50)]
pub fn decode_experiment_feature_data(b: &Vec<u8>) -> (r: Result<
    ExperimentFeatureData,
    DecodeError,
>)
    ensures
        forall|m: FeatureDataModel, ids: Seq<FieldName>, sb: Seq<u8>, tb: Seq<u8>|
            #![trigger efd_blobs_ok(m, sb, tb), efd_map_enc(ids, sb, tb)]
            efd_ids_ok(ids) && efd_blobs_ok(m, sb, tb) && b@ == efd_map_enc(ids, sb, tb) ==> (if efd_all_present(ids) {
                r matches Ok(d) && d@ == m
            } else {
                r == Err::<ExperimentFeatureData, DecodeError>(
                    (DecodeError::MissingField { field: efd_first_missing(ids) }),
                )
            }),
{
    proof {
        lemma_efd_all_fields_ok();
    }
    let bytes: &[u8] = b.as_slice();
    let (count, p0) = match decode_u8(bytes, 0) {
        Ok(x) => x,
        Err(e) => {
            proof {
                assert forall|m: FeatureDataModel, ids: Seq<FieldName>, sb: Seq<u8>, tb: Seq<u8>|
                    efd_ids_ok(ids) && efd_blobs_ok(m, sb, tb) && b@ == efd_map_enc(ids, sb, tb) implies false by {
                    lemma_efd_count(b@, ids, sb, tb);
                };
            }
            return Err(e);
        },
    };
    let mut ssrc: Option<RoaringTreemap> = None;
    let mut stgt: Option<RoaringTreemap> = None;
    let mut cur: usize = p0;
    let mut j: u8 = 0;
    proof {
        assert forall|m: FeatureDataModel, ids: Seq<FieldName>, sb: Seq<u8>, tb: Seq<u8>|
            efd_ids_ok(ids) && efd_blobs_ok(m, sb, tb) && b@ == efd_map_enc(ids, sb, tb) implies count == ids.len() as u8 && cur as int == 1 + cat_bytes(
            ids.map_values(
                |f: FieldName| efd_field_enc(f, sb, tb),
            ).take(0),
        ).len() by {
            lemma_efd_count(b@, ids, sb, tb);
            assert(ids.map_values(
                |f: FieldName| efd_field_enc(f, sb, tb),
            ).take(0) =~= Seq::<Seq<u8>>::empty());
        };
    }
    while j < count
        invariant
            bytes@ == b@,
            j <= count,
            efd_ids_ok(efd_all_fields()),
            efd_all_present(efd_all_fields()),
            forall|m: FeatureDataModel, ids: Seq<FieldName>, sb: Seq<u8>, tb: Seq<u8>|
                #![trigger efd_blobs_ok(m, sb, tb), efd_map_enc(ids, sb, tb)]
                efd_ids_ok(ids) && efd_blobs_ok(m, sb, tb) && b@ == efd_map_enc(ids, sb, tb) ==> ({
                &&& count == ids.len() as u8
                &&& j <= ids.len()
                &&& cur as int == 1 + cat_bytes(
                    ids.map_values(
                        |f: FieldName| efd_field_enc(f, sb, tb),
                    ).take(j as int),
                ).len()
                &&& (match ssrc {
                    Some(t) => ids_before(ids, j as int, FieldName::Sources)
                        && treemap_contents(t) == m.sources,
                    None => !ids_before(ids, j as int, FieldName::Sources),
                })
                &&& (match stgt {
                    Some(t) => ids_before(ids, j as int, FieldName::Targets)
                        && treemap_contents(t) == m.targets,
                    None => !ids_before(ids, j as int, FieldName::Targets),
                })
            }),
        decreases count - j,
    {
        let (id, q) = match decode_u8(bytes, cur) {
            Ok(x) => x,
            Err(e) => {
                proof {
                    assert forall|
                        m: FeatureDataModel,
                        ids: Seq<FieldName>,
                        sb: Seq<u8>,
                        tb: Seq<u8>,
                    |
                        efd_ids_ok(ids) && efd_blobs_ok(m, sb, tb) && b@ == efd_map_enc(ids, sb, tb) implies false by {
                        lemma_efd_step(b@, ids, sb, tb, j as int, cur as int);
                    };
                }
                return Err(e);
            },
        };
        if id >= 2 {
            proof {
                assert forall|m: FeatureDataModel, ids: Seq<FieldName>, sb: Seq<u8>, tb: Seq<u8>|
                    efd_ids_ok(ids) && efd_blobs_ok(m, sb, tb) && b@ == efd_map_enc(ids, sb, tb) implies false by {
                    lemma_efd_step(b@, ids, sb, tb, j as int, cur as int);
                    assert(id == efd_field_id(ids[j as int]));
                    assert(is_efd_field(ids[j as int]));
                };
            }
            return Err(DecodeError::Structure { offset: cur });
        }
        if id == 0 && ssrc.is_some() {
            proof {
                assert forall|m: FeatureDataModel, ids: Seq<FieldName>, sb: Seq<u8>, tb: Seq<u8>|
                    efd_ids_ok(ids) && efd_blobs_ok(m, sb, tb) && b@ == efd_map_enc(ids, sb, tb) implies false by {
                    lemma_efd_step(b@, ids, sb, tb, j as int, cur as int);
                    assert(id == efd_field_id(ids[j as int]));
                    assert(is_efd_field(ids[j as int]));
                    assert(ids[j as int] == FieldName::Sources);
                    let i0 = choose|i0: int|
                        0 <= i0 < j && i0 < ids.len() && ids[i0] == FieldName::Sources;
                    assert(ids[i0] == ids[j as int]);
                };
            }
            return Err(DecodeError::DuplicateField { field: FieldName::Sources });
        }
        if id == 1 && stgt.is_some() {
            proof {
                assert forall|m: FeatureDataModel, ids: Seq<FieldName>, sb: Seq<u8>, tb: Seq<u8>|
                    efd_ids_ok(ids) && efd_blobs_ok(m, sb, tb) && b@ == efd_map_enc(ids, sb, tb) implies false by {
                    lemma_efd_step(b@, ids, sb, tb, j as int, cur as int);
                    assert(id == efd_field_id(ids[j as int]));
                    assert(is_efd_field(ids[j as int]));
                    assert(ids[j as int] == FieldName::Targets);
                    let i0 = choose|i0: int|
                        0 <= i0 < j && i0 < ids.len() && ids[i0] == FieldName::Targets;
                    assert(ids[i0] == ids[j as int]);
                };
            }
            return Err(DecodeError::DuplicateField { field: FieldName::Targets });
        }
        let (blob, q2) = match decode_bytes(bytes, q) {
            Ok(x) => x,
            Err(e) => {
                proof {
                    assert forall|
                        m: FeatureDataModel,
                        ids: Seq<FieldName>,
                        sb: Seq<u8>,
                        tb: Seq<u8>,
                    |
                        efd_ids_ok(ids) && efd_blobs_ok(m, sb, tb) && b@ == efd_map_enc(ids, sb, tb) implies false by {
                        lemma_efd_step(b@, ids, sb, tb, j as int, cur as int);
                        assert(id == efd_field_id(ids[j as int]));
                        assert(q == cur + 1);
                    };
                }
                return Err(e);
            },
        };
        let tm = match treemap_deserialize(&blob) {
            Some(t) => t,
            None => {
                proof {
                    assert forall|
                        m: FeatureDataModel,
                        ids: Seq<FieldName>,
                        sb: Seq<u8>,
                        tb: Seq<u8>,
                    |
                        efd_ids_ok(ids) && efd_blobs_ok(m, sb, tb) && b@ == efd_map_enc(ids, sb, tb) implies false by {
                        lemma_efd_step(b@, ids, sb, tb, j as int, cur as int);
                        assert(id == efd_field_id(ids[j as int]));
                        assert(is_efd_field(ids[j as int]));
                        assert(q == cur + 1);
                        if ids[j as int] == FieldName::Sources {
                            assert(starts_at(b@, q as int, enc_bytes(sb)));
                            assert(blob@ == sb);
                        } else {
                            assert(ids[j as int] == FieldName::Targets);
                            assert(starts_at(b@, q as int, enc_bytes(tb)));
                            assert(blob@ == tb);
                        }
                    };
                }
                return Err(DecodeError::BitmapDecodeFailure { offset: q });
            },
        };
        if id == 0 {
            ssrc = Some(tm);
        } else {
            stgt = Some(tm);
        }
        proof {
            assert forall|m: FeatureDataModel, ids: Seq<FieldName>, sb: Seq<u8>, tb: Seq<u8>|
                efd_ids_ok(ids) && efd_blobs_ok(m, sb, tb) && b@ == efd_map_enc(ids, sb, tb) implies ({
                &&& count == ids.len() as u8
                &&& j + 1 <= ids.len()
                &&& q2 as int == 1 + cat_bytes(
                    ids.map_values(
                        |f: FieldName| efd_field_enc(f, sb, tb),
                    ).take(j + 1),
                ).len()
                &&& (match ssrc {
                    Some(t) => ids_before(ids, j + 1, FieldName::Sources) && treemap_contents(t)
                        == m.sources,
                    None => !ids_before(ids, j + 1, FieldName::Sources),
                })
                &&& (match stgt {
                    Some(t) => ids_before(ids, j + 1, FieldName::Targets) && treemap_contents(t)
                        == m.targets,
                    None => !ids_before(ids, j + 1, FieldName::Targets),
                })
            }) by {
                lemma_efd_step(b@, ids, sb, tb, j as int, cur as int);
                assert(id == efd_field_id(ids[j as int]));
                assert(is_efd_field(ids[j as int]));
                assert(q == cur + 1);
                if ids[j as int] == FieldName::Sources {
                    assert(starts_at(b@, q as int, enc_bytes(sb)));
                    assert(blob@ == sb);
                } else {
                    assert(ids[j as int] == FieldName::Targets);
                    assert(starts_at(b@, q as int, enc_bytes(tb)));
                    assert(blob@ == tb);
                }
                lemma_ids_before_step(ids, j as int, FieldName::Sources);
                lemma_ids_before_step(ids, j as int, FieldName::Targets);
            };
        }
        cur = q2;
        j = j + 1;
    }
    if cur != b.len() {
        proof {
            assert forall|m: FeatureDataModel, ids: Seq<FieldName>, sb: Seq<u8>, tb: Seq<u8>|
                efd_ids_ok(ids) && efd_blobs_ok(m, sb, tb) && b@ == efd_map_enc(ids, sb, tb) implies false by {
                lemma_efd_count(b@, ids, sb, tb);
                assert(ids.map_values(
                    |f: FieldName| efd_field_enc(f, sb, tb),
                ).take(ids.len() as int) =~= ids.map_values(
                    |f: FieldName| efd_field_enc(f, sb, tb),
                ));
            };
        }
        return Err(DecodeError::Structure { offset: cur });
    }
    let sources = match ssrc {
        Some(t) => t,
        None => {
            proof {
                assert forall|m: FeatureDataModel, ids: Seq<FieldName>, sb: Seq<u8>, tb: Seq<u8>|
                    efd_ids_ok(ids) && efd_blobs_ok(m, sb, tb) && b@ == efd_map_enc(ids, sb, tb) implies !efd_all_present(ids) && efd_first_missing(ids)
                    == FieldName::Sources by {
                    lemma_ids_before_full(ids, FieldName::Sources);
                };
            }
            return Err(DecodeError::MissingField { field: FieldName::Sources });
        },
    };
    let targets = match stgt {
        Some(t) => t,
        None => {
            proof {
                assert forall|m: FeatureDataModel, ids: Seq<FieldName>, sb: Seq<u8>, tb: Seq<u8>|
                    efd_ids_ok(ids) && efd_blobs_ok(m, sb, tb) && b@ == efd_map_enc(ids, sb, tb) implies !efd_all_present(ids) && efd_first_missing(ids)
                    == FieldName::Targets by {
                    lemma_ids_before_full(ids, FieldName::Sources);
                    lemma_ids_before_full(ids, FieldName::Targets);
                };
            }
            return Err(DecodeError::MissingField { field: FieldName::Targets });
        },
    };
    let d = ExperimentFeatureData { sources, targets };
    proof {
        assert forall|m: FeatureDataModel, ids: Seq<FieldName>, sb: Seq<u8>, tb: Seq<u8>|
            efd_ids_ok(ids) && efd_blobs_ok(m, sb, tb) && b@ == efd_map_enc(ids, sb, tb) implies efd_all_present(ids) && d@ == m by {
            lemma_ids_before_full(ids, FieldName::Sources);
            lemma_ids_before_full(ids, FieldName::Targets);
            assert(d@ =~= m);
        };
    }
    Ok(d)
}


/// The identifier byte of each interval field on the wire.
pub open spec fn itv_field_id(f: FieldName) -> u8 {
    match f {
        FieldName::Start => 0,
        FieldName::Values => 1,
        _ => 255,
    }
}

/// Whether `f` is a field of the interval encoding.
pub open spec fn is_itv_field(f: FieldName) -> bool {
    itv_field_id(f) < 2
}

/// The payload encoding of one interval field.
pub open spec fn itv_field_payload(m: IntervalModel, f: FieldName) -> Seq<u8> {
    match f {
        FieldName::Start => enc_u32(m.start),
        FieldName::Values => enc_list_of::<RegEffectData>(m.values),
        _ => Seq::empty(),
    }
}

/// One tagged interval field: its identifier byte, then its payload.
pub open spec fn itv_field_enc(m: IntervalModel, f: FieldName) -> Seq<u8> {
    enc_u8(itv_field_id(f)) + itv_field_payload(m, f)
}

/// A map-shaped interval encoding carrying the fields in `ids`, in order.
pub open spec fn itv_map_enc(m: IntervalModel, ids: Seq<FieldName>) -> Seq<u8> {
    enc_u8(ids.len() as u8) + cat_bytes(ids.map_values(|f: FieldName| itv_field_enc(m, f)))
}

/// Encodings a real interval can have.
pub open spec fn itv_fits(m: IntervalModel) -> bool {
    list_fits::<RegEffectData>(m.values)
}

/// The canonical field order of the interval encoding.
pub open spec fn itv_all_fields() -> Seq<FieldName> {
    seq![FieldName::Start, FieldName::Values]
}

/// The full encoding of an interval: both fields in declaration order.
pub open spec fn enc_interval(m: IntervalModel) -> Seq<u8> {
    itv_map_enc(m, itv_all_fields())
}

/// Valid field lists of a map-shaped interval encoding.
pub open spec fn itv_ids_ok(ids: Seq<FieldName>) -> bool {
    &&& ids.len() <= 2
    &&& forall|i: int| 0 <= i < ids.len() ==> is_itv_field(#[trigger] ids[i])
    &&& forall|i: int, j: int| 0 <= i < j < ids.len() ==> ids[i] != ids[j]
}

/// Whether both required fields occur in `ids`.
pub open spec fn itv_all_present(ids: Seq<FieldName>) -> bool {
    ids.contains(FieldName::Start) && ids.contains(FieldName::Values)
}

/// The first required field, in declaration order, that `ids` misses.
pub open spec fn itv_first_missing(ids: Seq<FieldName>) -> FieldName {
    if !ids.contains(FieldName::Start) {
        FieldName::Start
    } else {
        FieldName::Values
    }
}

/// The count byte and total length of a map-shaped interval encoding.
proof fn lemma_itv_count(b: Seq<u8>, m: IntervalModel, ids: Seq<FieldName>)
    requires
        b == itv_map_enc(m, ids),
    ensures
        starts_at(b, 0, enc_u8(ids.len() as u8)),
        b.len() == 1 + cat_bytes(ids.map_values(|f: FieldName| itv_field_enc(m, f))).len(),
{
    let encs = ids.map_values(|f: FieldName| itv_field_enc(m, f));
    assert(b.subrange(0, b.len() as int) =~= b);
    assert(starts_at(b, 0, enc_u8(ids.len() as u8) + cat_bytes(encs)));
    lemma_starts_at_concat(b, 0, enc_u8(ids.len() as u8), cat_bytes(encs));
}

/// The layout of the field at position `j` of a map-shaped interval
/// encoding.
proof fn lemma_itv_step(b: Seq<u8>, m: IntervalModel, ids: Seq<FieldName>, j: int, cur: int)
    requires
        b == itv_map_enc(m, ids),
        0 <= j < ids.len(),
        cur == 1 + cat_bytes(
            ids.map_values(|f: FieldName| itv_field_enc(m, f)).take(j),
        ).len(),
    ensures
        starts_at(b, cur, enc_u8(itv_field_id(ids[j]))),
        starts_at(b, cur + 1, itv_field_payload(m, ids[j])),
        cur + 1 + itv_field_payload(m, ids[j]).len() == 1 + cat_bytes(
            ids.map_values(|f: FieldName| itv_field_enc(m, f)).take(j + 1),
        ).len(),
{
    let encs = ids.map_values(|f: FieldName| itv_field_enc(m, f));
    lemma_itv_count(b, m, ids);
    assert(b.subrange(0, b.len() as int) =~= b);
    assert(starts_at(b, 0, enc_u8(ids.len() as u8) + cat_bytes(encs)));
    lemma_starts_at_concat(b, 0, enc_u8(ids.len() as u8), cat_bytes(encs));
    assert(starts_at(b, 1, cat_bytes(encs)));
    lemma_cat_bytes_split(encs, j);
    assert(starts_at(b, 1, cat_bytes(encs.take(j)) + cat_bytes(encs.skip(j))));
    lemma_starts_at_concat(b, 1, cat_bytes(encs.take(j)), cat_bytes(encs.skip(j)));
    lemma_cat_bytes_skip_step(encs, j);
    assert(starts_at(b, cur, encs[j] + cat_bytes(encs.skip(j + 1))));
    lemma_starts_at_concat(b, cur, encs[j], cat_bytes(encs.skip(j + 1)));
    assert(encs[j] == itv_field_enc(m, ids[j]));
    assert(starts_at(b, cur, enc_u8(itv_field_id(ids[j])) + itv_field_payload(m, ids[j])));
    lemma_starts_at_concat(b, cur, enc_u8(itv_field_id(ids[j])), itv_field_payload(m, ids[j]));
    assert(encs.take(j + 1) =~= encs.take(j).push(encs[j]));
    lemma_cat_bytes_push(encs.take(j), encs[j]);
}

/// The canonical interval field list is valid and complete.
proof fn lemma_itv_all_fields_ok()
    ensures
        itv_ids_ok(itv_all_fields()),
        itv_all_present(itv_all_fields()),
{
    let ids = itv_all_fields();
    assert(ids.len() == 2);
    assert(ids[0] == FieldName::Start);
    assert(ids[1] == FieldName::Values);
    assert forall|i: int| 0 <= i < ids.len() implies is_itv_field(#[trigger] ids[i]) by {
        assert(itv_field_id(ids[i]) == i);
    };
    assert forall|i: int, j: int| 0 <= i < j < ids.len() implies ids[i] != ids[j] by {
        assert(itv_field_id(ids[i]) == i);
        assert(itv_field_id(ids[j]) == j);
    };
}

/// The full interval encoding unfolded into its two tagged fields.
proof fn lemma_enc_interval_unfold(m: IntervalModel)
    ensures
        enc_interval(m) == enc_u8(2) + (itv_field_enc(m, FieldName::Start) + itv_field_enc(
            m,
            FieldName::Values,
        )),
{
    let ids = itv_all_fields();
    let s = ids.map_values(|f: FieldName| itv_field_enc(m, f));
    assert(s.len() == 2);
    assert(s[0] == itv_field_enc(m, FieldName::Start));
    assert(s[1] == itv_field_enc(m, FieldName::Values));
    assert(s.skip(0) =~= s);
    lemma_cat_bytes_skip_step(s, 0);
    lemma_cat_bytes_skip_step(s, 1);
    assert(s.skip(2) =~= Seq::<Seq<u8>>::empty());
    assert(cat_bytes(s.skip(2)) == Seq::<u8>::empty());
    assert(cat_bytes(s) == cat_bytes(s.skip(0)));
    assert(itv_field_enc(m, FieldName::Values) + Seq::<u8>::empty() =~= itv_field_enc(
        m,
        FieldName::Values,
    ));
}

/// Serializes an interval entry: the field count, then the start position
/// and the entity list, each as its identifier byte and payload.
pub fn encode_interval(x: &Interval) -> (r: Vec<u8>)
    ensures
        r@ == enc_interval(x@),
        itv_fits(x@),
{
    let mut out: Vec<u8> = Vec::new();
    encode_u8(2, &mut out);
    encode_u8(0, &mut out);
    encode_u32(x.start, &mut out);
    encode_u8(1, &mut out);
    encode_vec_of::<RegEffectData>(&x.values, &mut out);
    proof {
        lemma_enc_interval_unfold(x@);
        assert(out@ =~= enc_interval(x@));
    }
    out
}

/// Deserializes a map-shaped interval entry. Any encoded interval is
/// recovered exactly; a stream missing a required field is rejected naming
/// the first missing field. Every decoded entity has its deduplication
/// index rebuilt from its bucket list.
#[verifier::rlimit(50)]
pub fn decode_interval(b: &Vec<u8>) -> (r: Result<Interval, DecodeError>)
    ensures
        forall|m: IntervalModel, ids: Seq<FieldName>|
            itv_fits(m) && itv_ids_ok(ids) && b@ == #[trigger] itv_map_enc(m, ids) ==> (
            if itv_all_present(ids) {
                r matches Ok(iv) && iv@ == m
            } else {
                r == Err::<Interval, DecodeError>(
                    (DecodeError::MissingField { field: itv_first_missing(ids) }),
                )
            }),
        forall|m: IntervalModel|
            itv_fits(m) && b@ == #[trigger] enc_interval(m) ==> (r matches Ok(iv) && iv@ == m),
        (r matches Ok(iv) ==> forall|k: int|
            0 <= k < iv.values@.len() ==> (#[trigger] iv.values@[k]).set_mirrors_list()),
{
    proof {
        lemma_itv_all_fields_ok();
    }
    let bytes: &[u8] = b.as_slice();
    let (count, p0) = match decode_u8(bytes, 0) {
        Ok(x) => x,
        Err(e) => {
            proof {
                assert forall|m: IntervalModel, ids: Seq<FieldName>|
                    itv_fits(m) && itv_ids_ok(ids) && b@ == #[trigger] itv_map_enc(
                        m,
                        ids,
                    ) implies false by {
                    lemma_itv_count(b@, m, ids);
                };
            }
            return Err(e);
        },
    };
    let mut sstart: Option<u32> = None;
    let mut svalues: Option<Vec<RegEffectData>> = None;
    let mut cur: usize = p0;
    let mut j: u8 = 0;
    proof {
        assert forall|m: IntervalModel, ids: Seq<FieldName>|
            itv_fits(m) && itv_ids_ok(ids) && b@ == #[trigger] itv_map_enc(
                m,
                ids,
            ) implies count == ids.len() as u8 && cur as int == 1 + cat_bytes(
            ids.map_values(|f: FieldName| itv_field_enc(m, f)).take(0),
        ).len() by {
            lemma_itv_count(b@, m, ids);
            assert(ids.map_values(|f: FieldName| itv_field_enc(m, f)).take(0)
                =~= Seq::<Seq<u8>>::empty());
        };
    }
    while j < count
        invariant
            bytes@ == b@,
            j <= count,
            itv_ids_ok(itv_all_fields()),
            itv_all_present(itv_all_fields()),
            (match svalues {
                Some(vs) => forall|k: int|
                    0 <= k < vs@.len() ==> (#[trigger] vs@[k]).set_mirrors_list(),
                None => true,
            }),
            forall|m: IntervalModel, ids: Seq<FieldName>|
                itv_fits(m) && itv_ids_ok(ids) && b@ == #[trigger] itv_map_enc(m, ids) ==> ({
                &&& count == ids.len() as u8
                &&& j <= ids.len()
                &&& cur as int == 1 + cat_bytes(
                    ids.map_values(|f: FieldName| itv_field_enc(m, f)).take(j as int),
                ).len()
                &&& (match sstart {
                    Some(v) => ids_before(ids, j as int, FieldName::Start) && v == m.start,
                    None => !ids_before(ids, j as int, FieldName::Start),
                })
                &&& (match svalues {
                    Some(v) => ids_before(ids, j as int, FieldName::Values) && v.deep_view()
                        == m.values,
                    None => !ids_before(ids, j as int, FieldName::Values),
                })
            }),
        decreases count - j,
    {
        let (id, q) = match decode_u8(bytes, cur) {
            Ok(x) => x,
            Err(e) => {
                proof {
                    assert forall|m: IntervalModel, ids: Seq<FieldName>|
                        itv_fits(m) && itv_ids_ok(ids) && b@ == #[trigger] itv_map_enc(
                            m,
                            ids,
                        ) implies false by {
                        lemma_itv_step(b@, m, ids, j as int, cur as int);
                    };
                }
                return Err(e);
            },
        };
        if id == 0 {
            if sstart.is_some() {
                proof {
                    assert forall|m: IntervalModel, ids: Seq<FieldName>|
                        itv_fits(m) && itv_ids_ok(ids) && b@ == #[trigger] itv_map_enc(
                            m,
                            ids,
                        ) implies false by {
                        lemma_itv_step(b@, m, ids, j as int, cur as int);
                        assert(id == itv_field_id(ids[j as int]));
                        assert(is_itv_field(ids[j as int]));
                        assert(ids[j as int] == FieldName::Start);
                        let i0 = choose|i0: int|
                            0 <= i0 < j && i0 < ids.len() && ids[i0] == FieldName::Start;
                        assert(ids[i0] == ids[j as int]);
                    };
                }
                return Err(DecodeError::DuplicateField { field: FieldName::Start });
            }
            let (v, q2) = match decode_u32(bytes, q) {
                Ok(x) => x,
                Err(e) => {
                    proof {
                        assert forall|m: IntervalModel, ids: Seq<FieldName>|
                            itv_fits(m) && itv_ids_ok(ids) && b@ == #[trigger] itv_map_enc(
                                m,
                                ids,
                            ) implies false by {
                            lemma_itv_step(b@, m, ids, j as int, cur as int);
                            assert(id == itv_field_id(ids[j as int]));
                            assert(is_itv_field(ids[j as int]));
                            assert(ids[j as int] == FieldName::Start);
                            assert(q == cur + 1);
                            assert(starts_at(b@, q as int, enc_u32(m.start)));
                        };
                    }
                    return Err(e);
                },
            };
            sstart = Some(v);
            proof {
                assert forall|m: IntervalModel, ids: Seq<FieldName>|
                    itv_fits(m) && itv_ids_ok(ids) && b@ == #[trigger] itv_map_enc(
                        m,
                        ids,
                    ) implies ({
                    &&& count == ids.len() as u8
                    &&& j + 1 <= ids.len()
                    &&& q2 as int == 1 + cat_bytes(
                        ids.map_values(|f: FieldName| itv_field_enc(m, f)).take(j + 1),
                    ).len()
                    &&& (match sstart {
                        Some(v2) => ids_before(ids, j + 1, FieldName::Start) && v2 == m.start,
                        None => !ids_before(ids, j + 1, FieldName::Start),
                    })
                    &&& (match svalues {
                        Some(v2) => ids_before(ids, j + 1, FieldName::Values) && v2.deep_view()
                            == m.values,
                        None => !ids_before(ids, j + 1, FieldName::Values),
                    })
                }) by {
                    lemma_itv_step(b@, m, ids, j as int, cur as int);
                    assert(id == itv_field_id(ids[j as int]));
                    assert(is_itv_field(ids[j as int]));
                    assert(ids[j as int] == FieldName::Start);
                    assert(q == cur + 1);
                    assert(starts_at(b@, q as int, enc_u32(m.start)));
                    lemma_ids_before_step(ids, j as int, FieldName::Start);
                    lemma_ids_before_step(ids, j as int, FieldName::Values);
                };
            }
            cur = q2;
        } else if id == 1 {
            if svalues.is_some() {
                proof {
                    assert forall|m: IntervalModel, ids: Seq<FieldName>|
                        itv_fits(m) && itv_ids_ok(ids) && b@ == #[trigger] itv_map_enc(
                            m,
                            ids,
                        ) implies false by {
                        lemma_itv_step(b@, m, ids, j as int, cur as int);
                        assert(id == itv_field_id(ids[j as int]));
                        assert(is_itv_field(ids[j as int]));
                        assert(ids[j as int] == FieldName::Values);
                        let i0 = choose|i0: int|
                            0 <= i0 < j && i0 < ids.len() && ids[i0] == FieldName::Values;
                        assert(ids[i0] == ids[j as int]);
                    };
                }
                return Err(DecodeError::DuplicateField { field: FieldName::Values });
            }
            let (v, q2) = match decode_vec_of::<RegEffectData>(bytes, q) {
                Ok(x) => x,
                Err(e) => {
                    proof {
                        assert forall|m: IntervalModel, ids: Seq<FieldName>|
                            itv_fits(m) && itv_ids_ok(ids) && b@ == #[trigger] itv_map_enc(
                                m,
                                ids,
                            ) implies false by {
                            lemma_itv_step(b@, m, ids, j as int, cur as int);
                            assert(id == itv_field_id(ids[j as int]));
                            assert(is_itv_field(ids[j as int]));
                            assert(ids[j as int] == FieldName::Values);
                            assert(q == cur + 1);
                            assert(starts_at(
                                b@,
                                q as int,
                                enc_list_of::<RegEffectData>(m.values),
                            ));
                        };
                    }
                    return Err(e);
                },
            };
            svalues = Some(v);
            proof {
                assert forall|m: IntervalModel, ids: Seq<FieldName>|
                    itv_fits(m) && itv_ids_ok(ids) && b@ == #[trigger] itv_map_enc(
                        m,
                        ids,
                    ) implies ({
                    &&& count == ids.len() as u8
                    &&& j + 1 <= ids.len()
                    &&& q2 as int == 1 + cat_bytes(
                        ids.map_values(|f: FieldName| itv_field_enc(m, f)).take(j + 1),
                    ).len()
                    &&& (match sstart {
                        Some(v2) => ids_before(ids, j + 1, FieldName::Start) && v2 == m.start,
                        None => !ids_before(ids, j + 1, FieldName::Start),
                    })
                    &&& (match svalues {
                        Some(v2) => ids_before(ids, j + 1, FieldName::Values) && v2.deep_view()
                            == m.values,
                        None => !ids_before(ids, j + 1, FieldName::Values),
                    })
                }) by {
                    lemma_itv_step(b@, m, ids, j as int, cur as int);
                    assert(id == itv_field_id(ids[j as int]));
                    assert(is_itv_field(ids[j as int]));
                    assert(ids[j as int] == FieldName::Values);
                    assert(q == cur + 1);
                    assert(starts_at(b@, q as int, enc_list_of::<RegEffectData>(m.values)));
                    lemma_ids_before_step(ids, j as int, FieldName::Start);
                    lemma_ids_before_step(ids, j as int, FieldName::Values);
                };
            }
            cur = q2;
        } else {
            proof {
                assert forall|m: IntervalModel, ids: Seq<FieldName>|
                    itv_fits(m) && itv_ids_ok(ids) && b@ == #[trigger] itv_map_enc(
                        m,
                        ids,
                    ) implies false by {
                    lemma_itv_step(b@, m, ids, j as int, cur as int);
                    assert(id == itv_field_id(ids[j as int]));
                    assert(is_itv_field(ids[j as int]));
                };
            }
            return Err(DecodeError::Structure { offset: cur });
        }
        j = j + 1;
    }
    if cur != b.len() {
        proof {
            assert forall|m: IntervalModel, ids: Seq<FieldName>|
                itv_fits(m) && itv_ids_ok(ids) && b@ == #[trigger] itv_map_enc(
                    m,
                    ids,
                ) implies false by {
                lemma_itv_count(b@, m, ids);
                assert(ids.map_values(|f: FieldName| itv_field_enc(m, f)).take(ids.len() as int)
                    =~= ids.map_values(|f: FieldName| itv_field_enc(m, f)));
            };
        }
        return Err(DecodeError::Structure { offset: cur });
    }
    let start = match sstart {
        Some(v) => v,
        None => {
            proof {
                assert forall|m: IntervalModel, ids: Seq<FieldName>|
                    itv_fits(m) && itv_ids_ok(ids) && b@ == #[trigger] itv_map_enc(
                        m,
                        ids,
                    ) implies !itv_all_present(ids) && itv_first_missing(ids)
                    == FieldName::Start by {
                    lemma_ids_before_full(ids, FieldName::Start);
                };
            }
            return Err(DecodeError::MissingField { field: FieldName::Start });
        },
    };
    let values = match svalues {
        Some(v) => v,
        None => {
            proof {
                assert forall|m: IntervalModel, ids: Seq<FieldName>|
                    itv_fits(m) && itv_ids_ok(ids) && b@ == #[trigger] itv_map_enc(
                        m,
                        ids,
                    ) implies !itv_all_present(ids) && itv_first_missing(ids)
                    == FieldName::Values by {
                    lemma_ids_before_full(ids, FieldName::Start);
                    lemma_ids_before_full(ids, FieldName::Values);
                };
            }
            return Err(DecodeError::MissingField { field: FieldName::Values });
        },
    };
    let iv = Interval { start, values };
    proof {
        assert forall|m: IntervalModel, ids: Seq<FieldName>|
            itv_fits(m) && itv_ids_ok(ids) && b@ == #[trigger] itv_map_enc(
                m,
                ids,
            ) implies itv_all_present(ids) && iv@ == m by {
            lemma_ids_before_full(ids, FieldName::Start);
            lemma_ids_before_full(ids, FieldName::Values);
            assert(iv@ =~= m);
        };
    }
    Ok(iv)
}

} // verus!
