//! Bucket keys, observation records, and the bucket-associated entity that
//! accumulates observation facet tuples and a deduplicated, insertion-ordered
//! list of bucket keys.

use vstd::prelude::*;

use crate::DbID;
use crate::codec::{
    Codec, DecodeError, decode_vec_of, enc_list_of, encode_vec_of, lemma_starts_at_concat,
    list_fits, starts_at,
};

verus! {

broadcast use vstd::std_specs::hash::group_hash_axioms;

/// Identifies one fixed-size genomic window: a chromosome index (e.g. chr1 is
/// 0) and the intra-chromosome bucket index.
#[derive(Copy, Clone, Debug, Eq, PartialEq, Hash, PartialOrd, Ord, Structural)]
pub struct BucketLoc {
    /// Chromosome index, e.g. chr1 has index 0, chrX is index 22
    pub chrom: u8,
    /// Intra-chromosome bucket index
    pub idx: u32,
}

impl View for BucketLoc {
    type V = BucketLoc;

    open spec fn view(&self) -> BucketLoc {
        *self
    }
}

impl DeepView for BucketLoc {
    type V = BucketLoc;

    open spec fn deep_view(&self) -> BucketLoc {
        *self
    }
}

/// Packs a bucket key into a single integer; lexicographic bucket order
/// agrees with integer order on the packed value.
pub open spec fn bucket_key(b: BucketLoc) -> u64 {
    ((b.chrom as u64) * 0x1_0000_0000 + (b.idx as u64)) as u64
}

/// Law: packed-key order is exactly the lexicographic order on
/// (chromosome index, intra-chromosome index).
pub proof fn lemma_bucket_key_lexicographic(a: BucketLoc, b: BucketLoc)
    ensures
        bucket_key(a) < bucket_key(b) <==> (a.chrom < b.chrom || (a.chrom == b.chrom && a.idx
            < b.idx)),
{
}

/// Packing is injective: distinct bucket keys pack to distinct integers.
pub broadcast proof fn lemma_bucket_key_injective(a: BucketLoc, b: BucketLoc)
    ensures
        #[trigger] bucket_key(a) == #[trigger] bucket_key(b) ==> a == b,
{
    assert(bucket_key(a) == bucket_key(b) ==> a.chrom == b.chrom && a.idx == b.idx);
}

impl BucketLoc {
    /// Packed form of this bucket key, usable as an integer set element.
    pub fn key(&self) -> (r: u64)
        ensures
            r == bucket_key(*self),
    {
        (self.chrom as u64) * 0x1_0000_0000 + (self.idx as u64)
    }
}

/// One regulatory-effect observation. The float-valued annotations are held
/// as their IEEE-754 bit patterns, so that the record and its codec are pure
/// integer data.
#[derive(Clone, Debug, PartialEq)]
pub struct ObservationData {
    pub reo_id: DbID,
    /// IDs of both the observation's and the associated feature's categorical
    /// facet values.
    pub facet_value_ids: Vec<DbID>,
    pub source_id: DbID,
    pub target_id: Option<DbID>,
    /// Bit pattern of a 32-bit float effect size.
    pub effect_size: u32,
    /// Bit pattern of a 64-bit float significance.
    pub significance: u64,
    /// Bit pattern of a 64-bit float, derived from `significance`.
    pub neg_log_significance: u64,
}

/// Mathematical model of an observation record.
#[verifier::ext_equal]
pub struct ObservationModel {
    pub reo_id: u64,
    pub facet_value_ids: Seq<u64>,
    pub source_id: u64,
    pub target_id: Option<u64>,
    pub effect_size: u32,
    pub significance: u64,
    pub neg_log_significance: u64,
}

impl View for ObservationData {
    type V = ObservationModel;

    open spec fn view(&self) -> ObservationModel {
        ObservationModel {
            reo_id: self.reo_id,
            facet_value_ids: self.facet_value_ids.deep_view(),
            source_id: self.source_id,
            target_id: self.target_id.deep_view(),
            effect_size: self.effect_size,
            significance: self.significance,
            neg_log_significance: self.neg_log_significance,
        }
    }
}

impl DeepView for ObservationData {
    type V = ObservationModel;

    open spec fn deep_view(&self) -> ObservationModel {
        self.view()
    }
}

/// True when `s` holds `b` somewhere.
pub open spec fn contains_bucket(s: Seq<BucketLoc>, b: BucketLoc) -> bool {
    exists|i: int| 0 <= i < s.len() && s[i] == b
}

/// True when no bucket key occurs twice in `s`.
pub open spec fn no_dup_buckets(s: Seq<BucketLoc>) -> bool {
    forall|i: int, j: int| 0 <= i < j < s.len() ==> s[i] != s[j]
}

/// The result of merging `nb` into `cur` in order, appending only the keys
/// not already present.
pub open spec fn spec_update_buckets(cur: Seq<BucketLoc>, nb: Seq<BucketLoc>) -> Seq<BucketLoc>
    decreases nb.len(),
{
    if nb.len() == 0 {
        cur
    } else {
        let cur2 = if contains_bucket(cur, nb[0]) {
            cur
        } else {
            cur.push(nb[0])
        };
        spec_update_buckets(cur2, nb.drop_first())
    }
}

/// Mathematical model of a bucket-associated entity: the facet tuples and the
/// insertion-ordered bucket list. The deduplication index mirrors the list
/// and carries no information of its own.
#[verifier::ext_equal]
pub struct RegEffectModel {
    pub facets: Seq<ObservationModel>,
    pub buckets: Seq<BucketLoc>,
}

/// A bucket-associated entity: owns a growing list of observation facet
/// tuples and a deduplicated list of bucket keys in first-seen order. The
/// private integer set mirrors the list to make membership tests O(1).
#[derive(Debug)]
pub struct RegEffectData {
    facets: Vec<ObservationData>,
    associated_buckets: Vec<BucketLoc>,
    associated_buckets_set: std::collections::HashSet<u64>,
}

impl View for RegEffectData {
    type V = RegEffectModel;

    closed spec fn view(&self) -> RegEffectModel {
        RegEffectModel {
            facets: self.facets.deep_view(),
            buckets: self.associated_buckets@,
        }
    }
}

impl DeepView for RegEffectData {
    type V = RegEffectModel;

    open spec fn deep_view(&self) -> RegEffectModel {
        self.view()
    }
}

impl RegEffectData {
    /// The deduplication index holds exactly the packed keys of the bucket
    /// list.
    pub closed spec fn set_mirrors_list(&self) -> bool {
        forall|b: BucketLoc|
            self.associated_buckets_set@.contains(#[trigger] bucket_key(b)) <==> contains_bucket(
                self.associated_buckets@,
                b,
            )
    }

    /// The bucket list never repeats a key, and the deduplication index holds
    /// exactly the packed keys of the list.
    pub closed spec fn wf(&self) -> bool {
        &&& no_dup_buckets(self.associated_buckets@)
        &&& self.set_mirrors_list()
    }

    /// An entity with no facet tuples and no associated buckets.
    pub fn new() -> (r: Self)
        ensures
            r.wf(),
            r@.facets == Seq::<ObservationModel>::empty(),
            r@.buckets == Seq::<BucketLoc>::empty(),
    {
        RegEffectData {
            facets: Vec::new(),
            associated_buckets: Vec::new(),
            associated_buckets_set: std::collections::HashSet::new(),
        }
    }

    /// Appends one facet tuple. Repeated identical tuples are preserved: they
    /// represent distinct observations sharing this entity.
    pub fn add_facets(&mut self, entry: ObservationData)
        requires
            old(self).wf(),
        ensures
            final(self).wf(),
            final(self)@.facets == old(self)@.facets.push(entry@),
            final(self)@.buckets == old(self)@.buckets,
    {
        self.facets.push(entry);
        proof {
            assert(self@.facets =~= old(self)@.facets.push(entry@));
        }
    }

    /// Merges `new_buckets` into the entity: appends, in input order, each
    /// key not already associated, and never duplicates one that is. The
    /// merge is idempotent and only ever grows the association.
    pub fn update_buckets(&mut self, new_buckets: &Vec<BucketLoc>)
        requires
            old(self).wf(),
        ensures
            final(self).wf(),
            final(self)@.facets == old(self)@.facets,
            final(self)@.buckets == spec_update_buckets(old(self)@.buckets, new_buckets@),
    {
        let n = new_buckets.len();
        let mut i: usize = 0;
        while i < n
            invariant
                i <= n,
                n == new_buckets@.len(),
                self.wf(),
                self.facets@ == old(self).facets@,
                self.associated_buckets@ == spec_update_buckets(
                    old(self).associated_buckets@,
                    new_buckets@.take(i as int),
                ),
            decreases n - i,
        {
            let b = new_buckets[i];
            let key = b.key();
            let ghost pre_list = self.associated_buckets@;
            let ghost pre_set = self.associated_buckets_set@;
            if !self.associated_buckets_set.contains(&key) {
                proof {
                    assert(!contains_bucket(pre_list, b));
                }
                self.associated_buckets.push(b);
                self.associated_buckets_set.insert(key);
                proof {
                    let cur = self.associated_buckets@;
                    assert forall|b2: BucketLoc|
                        self.associated_buckets_set@.contains(
                            #[trigger] bucket_key(b2),
                        ) implies contains_bucket(cur, b2) by {
                        if bucket_key(b2) == key {
                            lemma_bucket_key_injective(b2, b);
                            assert(cur[pre_list.len() as int] == b2);
                        } else {
                            assert(pre_set.contains(bucket_key(b2)));
                            let j = choose|j: int|
                                0 <= j < pre_list.len() && pre_list[j] == b2;
                            assert(cur[j] == b2);
                        }
                    };
                    assert forall|b2: BucketLoc|
                        contains_bucket(cur, b2) implies self.associated_buckets_set@.contains(
                        #[trigger] bucket_key(b2),
                    ) by {
                        let j = choose|j: int| 0 <= j < cur.len() && cur[j] == b2;
                        if j < pre_list.len() {
                            assert(pre_list[j] == b2);
                            assert(contains_bucket(pre_list, b2));
                        } else {
                            assert(b2 == b);
                        }
                    };
                    assert forall|p: int, q: int| 0 <= p < q < cur.len() implies cur[p]
                        != cur[q] by {
                        if q < pre_list.len() {
                            assert(pre_list[p] == cur[p] && pre_list[q] == cur[q]);
                        } else {
                            assert(cur[q] == b);
                            if cur[p] == b {
                                assert(pre_list[p] == b);
                                assert(contains_bucket(pre_list, b));
                            }
                        }
                    };
                }
            } else {
                proof {
                    assert(contains_bucket(pre_list, b));
                }
            }
            proof {
                lemma_update_buckets_snoc(
                    old(self).associated_buckets@,
                    new_buckets@.take(i as int),
                    new_buckets@[i as int],
                );
                assert(new_buckets@.take(i + 1) =~= new_buckets@.take(i as int).push(
                    new_buckets@[i as int],
                ));
            }
            i = i + 1;
        }
        proof {
            assert(new_buckets@.take(n as int) =~= new_buckets@);
            assert(self@.facets =~= old(self)@.facets);
        }
    }

    /// The facet tuples added so far, in insertion order.
    pub fn facets(&self) -> (r: &Vec<ObservationData>)
        ensures
            r@.map_values(|o: ObservationData| o@) == self@.facets,
    {
        &self.facets
    }

    /// The associated bucket keys, in first-seen order, without duplicates.
    pub fn associated_buckets(&self) -> (r: &Vec<BucketLoc>)
        ensures
            r@ == self@.buckets,
    {
        &self.associated_buckets
    }
}

/// Merging one more key after `nb` either appends it or leaves the result
/// unchanged, depending on membership in the merge of `nb` alone.
pub proof fn lemma_update_buckets_snoc(cur: Seq<BucketLoc>, nb: Seq<BucketLoc>, b: BucketLoc)
    ensures
        spec_update_buckets(cur, nb.push(b)) == (if contains_bucket(
            spec_update_buckets(cur, nb),
            b,
        ) {
            spec_update_buckets(cur, nb)
        } else {
            spec_update_buckets(cur, nb).push(b)
        }),
    decreases nb.len(),
{
    if nb.len() == 0 {
        assert(nb.push(b)[0] == b);
        assert(nb.push(b).drop_first() =~= Seq::<BucketLoc>::empty());
        let cur2 = if contains_bucket(cur, b) {
            cur
        } else {
            cur.push(b)
        };
        assert(spec_update_buckets(cur, nb.push(b)) == spec_update_buckets(
            cur2,
            Seq::<BucketLoc>::empty(),
        ));
        assert(spec_update_buckets(cur2, Seq::<BucketLoc>::empty()) == cur2);
        assert(spec_update_buckets(cur, nb) == cur);
    } else {
        let cur2 = if contains_bucket(cur, nb[0]) {
            cur
        } else {
            cur.push(nb[0])
        };
        assert(nb.push(b)[0] == nb[0]);
        assert(nb.push(b).drop_first() =~= nb.drop_first().push(b));
        assert(spec_update_buckets(cur, nb.push(b)) == spec_update_buckets(
            cur2,
            nb.drop_first().push(b),
        ));
        assert(spec_update_buckets(cur, nb) == spec_update_buckets(cur2, nb.drop_first()));
        lemma_update_buckets_snoc(cur2, nb.drop_first(), b);
    }
}

/// Membership in a list with one key appended.
proof fn lemma_contains_bucket_push(s: Seq<BucketLoc>, x: BucketLoc, b: BucketLoc)
    ensures
        contains_bucket(s.push(x), b) <==> (contains_bucket(s, b) || b == x),
{
    if contains_bucket(s.push(x), b) {
        let i = choose|i: int| 0 <= i < s.push(x).len() && s.push(x)[i] == b;
        if i < s.len() {
            assert(s[i] == b);
        } else {
            assert(b == x);
        }
    }
    if contains_bucket(s, b) {
        let i = choose|i: int| 0 <= i < s.len() && s[i] == b;
        assert(s.push(x)[i] == b);
    }
    if b == x {
        assert(s.push(x)[s.len() as int] == b);
    }
}

/// Membership in a list split into its head and its tail.
proof fn lemma_contains_bucket_drop_first(s: Seq<BucketLoc>, b: BucketLoc)
    requires
        s.len() > 0,
    ensures
        contains_bucket(s, b) <==> (b == s[0] || contains_bucket(s.drop_first(), b)),
{
    if contains_bucket(s, b) {
        let i = choose|i: int| 0 <= i < s.len() && s[i] == b;
        if i > 0 {
            assert(s.drop_first()[i - 1] == b);
        }
    }
    if contains_bucket(s.drop_first(), b) {
        let i = choose|i: int| 0 <= i < s.drop_first().len() && s.drop_first()[i] == b;
        assert(s[i + 1] == b);
    }
}

/// Law: merging adds exactly the given keys — the merged list holds a key iff
/// it was already present or occurs in the merged-in input.
pub proof fn lemma_update_buckets_contains(cur: Seq<BucketLoc>, nb: Seq<BucketLoc>, b: BucketLoc)
    ensures
        contains_bucket(spec_update_buckets(cur, nb), b) <==> (contains_bucket(cur, b)
            || contains_bucket(nb, b)),
    decreases nb.len(),
{
    if nb.len() == 0 {
    } else {
        let cur2 = if contains_bucket(cur, nb[0]) {
            cur
        } else {
            cur.push(nb[0])
        };
        lemma_contains_bucket_push(cur, nb[0], b);
        lemma_contains_bucket_drop_first(nb, b);
        lemma_update_buckets_contains(cur2, nb.drop_first(), b);
    }
}

/// Law: a merge never introduces a duplicate — if the current list repeats no
/// bucket key, neither does the merged list, whatever input is merged in.
pub proof fn lemma_update_buckets_no_dups(cur: Seq<BucketLoc>, nb: Seq<BucketLoc>)
    requires
        no_dup_buckets(cur),
    ensures
        no_dup_buckets(spec_update_buckets(cur, nb)),
    decreases nb.len(),
{
    if nb.len() == 0 {
    } else {
        let cur2 = if contains_bucket(cur, nb[0]) {
            cur
        } else {
            cur.push(nb[0])
        };
        if !contains_bucket(cur, nb[0]) {
            assert forall|p: int, q: int| 0 <= p < q < cur2.len() implies cur2[p] != cur2[q] by {
                if q < cur.len() {
                    assert(cur2[p] == cur[p] && cur2[q] == cur[q]);
                } else {
                    assert(cur2[q] == nb[0]);
                    if cur[p] == nb[0] {
                        assert(contains_bucket(cur, nb[0]));
                    }
                }
            };
        }
        lemma_update_buckets_no_dups(cur2, nb.drop_first());
    }
}

/// Merging keys that are all already present changes nothing.
proof fn lemma_update_buckets_all_present(cur: Seq<BucketLoc>, nb: Seq<BucketLoc>)
    requires
        forall|j: int| 0 <= j < nb.len() ==> contains_bucket(cur, #[trigger] nb[j]),
    ensures
        spec_update_buckets(cur, nb) == cur,
    decreases nb.len(),
{
    if nb.len() == 0 {
    } else {
        assert(contains_bucket(cur, nb[0]));
        assert forall|j: int| 0 <= j < nb.drop_first().len() implies contains_bucket(
            cur,
            #[trigger] nb.drop_first()[j],
        ) by {
            assert(nb.drop_first()[j] == nb[j + 1]);
        };
        lemma_update_buckets_all_present(cur, nb.drop_first());
    }
}

/// Law: merging the same input twice yields the same bucket list as merging
/// it once — `update_buckets` is idempotent.
pub proof fn lemma_update_buckets_idempotent(cur: Seq<BucketLoc>, nb: Seq<BucketLoc>)
    ensures
        spec_update_buckets(spec_update_buckets(cur, nb), nb) == spec_update_buckets(cur, nb),
{
    let merged = spec_update_buckets(cur, nb);
    assert forall|j: int| 0 <= j < nb.len() implies contains_bucket(
        merged,
        #[trigger] nb[j],
    ) by {
        lemma_update_buckets_contains(cur, nb, nb[j]);
    };
    lemma_update_buckets_all_present(merged, nb);
}

/// Law: the merged list holds exactly the union of the keys already present
/// and the keys passed in, so repeated merging accumulates the union of every
/// input ever merged, regardless of overlap.
pub proof fn lemma_update_buckets_union(cur: Seq<BucketLoc>, nb: Seq<BucketLoc>)
    ensures
        spec_update_buckets(cur, nb).to_set() == cur.to_set().union(nb.to_set()),
{
    broadcast use vstd::set::group_set_axioms;

    assert forall|b: BucketLoc| #[trigger]
        spec_update_buckets(cur, nb).to_set().contains(b) <==> cur.to_set().union(
            nb.to_set(),
        ).contains(b) by {
        lemma_update_buckets_contains(cur, nb, b);
    };
    assert(spec_update_buckets(cur, nb).to_set() =~= cur.to_set().union(nb.to_set()));
}

/// An entity whose rebuilt deduplication index mirrors a repeat-free bucket
/// list is well formed.
pub proof fn lemma_wf_from_mirror(r: &RegEffectData)
    requires
        r.set_mirrors_list(),
        no_dup_buckets(r@.buckets),
    ensures
        r.wf(),
{
}

/// Encoding of a bucket-associated entity: its facet tuples, then its
/// bucket list. The deduplication index is not persisted — it carries
/// nothing not recoverable from the list — and decoding rebuilds it.
pub open spec fn enc_reg_effect(m: RegEffectModel) -> Seq<u8> {
    enc_list_of::<ObservationData>(m.facets) + enc_list_of::<BucketLoc>(m.buckets)
}

/// Encodings a real entity can have.
pub open spec fn reg_effect_fits(m: RegEffectModel) -> bool {
    &&& list_fits::<ObservationData>(m.facets)
    &&& list_fits::<BucketLoc>(m.buckets)
}

/// Positions of the parts of an encoded entity.
proof fn lemma_reg_effect_parts(b: Seq<u8>, pos: int, m: RegEffectModel)
    requires
        starts_at(b, pos, enc_reg_effect(m)),
    ensures
        starts_at(b, pos, enc_list_of::<ObservationData>(m.facets)),
        starts_at(
            b,
            pos + enc_list_of::<ObservationData>(m.facets).len(),
            enc_list_of::<BucketLoc>(m.buckets),
        ),
{
    lemma_starts_at_concat(
        b,
        pos,
        enc_list_of::<ObservationData>(m.facets),
        enc_list_of::<BucketLoc>(m.buckets),
    );
}

impl Codec for RegEffectData {
    open spec fn enc(m: RegEffectModel) -> Seq<u8> {
        enc_reg_effect(m)
    }

    open spec fn fits(m: RegEffectModel) -> bool {
        reg_effect_fits(m)
    }

    open spec fn decode_inv(&self) -> bool {
        self.set_mirrors_list()
    }

    fn encode(&self, out: &mut Vec<u8>) {
        encode_vec_of::<ObservationData>(&self.facets, out);
        encode_vec_of::<BucketLoc>(&self.associated_buckets, out);
        proof {
            assert(self.associated_buckets.deep_view() =~= self.associated_buckets@);
            assert(out@ =~= old(out)@ + enc_reg_effect(self.deep_view()));
        }
    }

    fn decode(b: &[u8], pos: usize) -> (r: Result<(Self, usize), DecodeError>) {
        let (facets, p1) = match decode_vec_of::<ObservationData>(b, pos) {
            Ok(x) => x,
            Err(e) => {
                proof {
                    assert forall|m: RegEffectModel|
                        reg_effect_fits(m) && starts_at(
                            b@,
                            pos as int,
                            enc_reg_effect(m),
                        ) implies false by {
                        lemma_reg_effect_parts(b@, pos as int, m);
                    };
                }
                return Err(e);
            },
        };
        let (buckets, p2) = match decode_vec_of::<BucketLoc>(b, p1) {
            Ok(x) => x,
            Err(e) => {
                proof {
                    assert forall|m: RegEffectModel|
                        reg_effect_fits(m) && starts_at(
                            b@,
                            pos as int,
                            enc_reg_effect(m),
                        ) implies false by {
                        lemma_reg_effect_parts(b@, pos as int, m);
                        assert(p1 == pos + enc_list_of::<ObservationData>(m.facets).len());
                        assert(starts_at(b@, p1 as int, enc_list_of::<BucketLoc>(m.buckets)));
                    };
                }
                return Err(e);
            },
        };
        let mut keys: std::collections::HashSet<u64> = std::collections::HashSet::new();
        let n = buckets.len();
        let mut i: usize = 0;
        while i < n
            invariant
                i <= n,
                n == buckets@.len(),
                forall|b2: BucketLoc|
                    keys@.contains(#[trigger] bucket_key(b2)) <==> contains_bucket(
                        buckets@.take(i as int),
                        b2,
                    ),
            decreases n - i,
        {
            let loc = buckets[i];
            let key = loc.key();
            let ghost pre = keys@;
            keys.insert(key);
            proof {
                assert forall|b2: BucketLoc|
                    keys@.contains(#[trigger] bucket_key(b2)) <==> contains_bucket(
                        buckets@.take(i + 1),
                        b2,
                    ) by {
                    lemma_bucket_key_injective(b2, loc);
                    if keys@.contains(bucket_key(b2)) {
                        if bucket_key(b2) == key {
                            assert(buckets@.take(i + 1)[i as int] == b2);
                        } else {
                            assert(pre.contains(bucket_key(b2)));
                            let k0 = choose|k0: int|
                                0 <= k0 < i && #[trigger] buckets@.take(i as int)[k0] == b2;
                            assert(buckets@.take(i + 1)[k0] == b2);
                        }
                    }
                    if contains_bucket(buckets@.take(i + 1), b2) {
                        let k0 = choose|k0: int|
                            0 <= k0 < i + 1 && #[trigger] buckets@.take(i + 1)[k0] == b2;
                        if k0 < i {
                            assert(buckets@.take(i as int)[k0] == b2);
                            assert(contains_bucket(buckets@.take(i as int), b2));
                        } else {
                            assert(b2 == loc);
                        }
                    }
                };
            }
            i = i + 1;
        }
        let v = RegEffectData {
            facets,
            associated_buckets: buckets,
            associated_buckets_set: keys,
        };
        proof {
            assert(v.associated_buckets@.take(n as int) =~= v.associated_buckets@);
            assert(v.set_mirrors_list());
            assert forall|m: RegEffectModel|
                reg_effect_fits(m) && starts_at(b@, pos as int, enc_reg_effect(m)) implies
                v.deep_view() == m && p2 == pos + enc_reg_effect(m).len() by {
                lemma_reg_effect_parts(b@, pos as int, m);
                assert(p1 == pos + enc_list_of::<ObservationData>(m.facets).len());
                assert(starts_at(b@, p1 as int, enc_list_of::<BucketLoc>(m.buckets)));
                assert(v.associated_buckets.deep_view() =~= v.associated_buckets@);
                assert(v.deep_view() =~= m);
            };
        }
        Ok((v, p2))
    }
}

} // verus!
