//! Byte-stream primitives of the binary codec: little-endian fixed-width
//! integers, length-prefixed UTF-8 strings, counted lists and tagged
//! options, together with the decode-of-encode guarantees that every
//! composite codec builds on.
//!
//! Every decoder carries the same shape of contract: whenever the bytes at
//! the given position begin with the encoding of some model value, the
//! decoder succeeds and returns exactly that value and the position just
//! past it. Composite round-trip proofs follow by instantiating these
//! quantified clauses field by field.

use vstd::prelude::*;

use vstd::bytes::{
    lemma_auto_spec_u32_to_from_le_bytes, lemma_auto_spec_u64_to_from_le_bytes,
    spec_u32_to_le_bytes, spec_u64_to_le_bytes, u32_from_le_bytes, u32_to_le_bytes,
    u64_from_le_bytes, u64_to_le_bytes,
};
use vstd::slice::{slice_subrange, slice_to_vec};
use vstd::utf8::{decode_utf8, encode_utf8, valid_utf8};

verus! {

broadcast use vstd::utf8::encode_utf8_valid_utf8, vstd::utf8::encode_utf8_decode_utf8;

/// Names the fields of the self-describing (map-shaped) encodings, for
/// decode errors that must say which field is missing or repeated.
#[derive(Copy, Clone, Debug, PartialEq, Eq, Structural)]
pub enum FieldName {
    SignificantObservations,
    NonsignificantObservations,
    BucketSize,
    Chromosomes,
    Facets,
    ChromLengths,
    FeatureBuckets,
    Sources,
    Targets,
    Start,
    Values,
}

impl FieldName {
    /// The field's name on the wire, for error reports.
    pub fn label(&self) -> String {
        match self {
            FieldName::SignificantObservations => "significant_observations".to_owned(),
            FieldName::NonsignificantObservations => "nonsignificant_observations".to_owned(),
            FieldName::BucketSize => "bucket_size".to_owned(),
            FieldName::Chromosomes => "chromosomes".to_owned(),
            FieldName::Facets => "facets".to_owned(),
            FieldName::ChromLengths => "chrom_lengths".to_owned(),
            FieldName::FeatureBuckets => "feature_buckets".to_owned(),
            FieldName::Sources => "sources".to_owned(),
            FieldName::Targets => "targets".to_owned(),
            FieldName::Start => "start".to_owned(),
            FieldName::Values => "values".to_owned(),
        }
    }
}

/// Why a byte stream failed to decode. Every failure is terminal; nothing is
/// recovered locally.
#[derive(Copy, Clone, Debug, PartialEq, Eq, Structural)]
pub enum DecodeError {
    /// The stream's shape does not match the expected structure; holds the
    /// byte offset of the first structurally invalid datum.
    Structure { offset: usize },
    /// A required named field is absent from a map-shaped encoding.
    MissingField { field: FieldName },
    /// The same named field appears twice in a map-shaped encoding.
    DuplicateField { field: FieldName },
    /// An embedded compressed bitmap did not decode; holds the byte offset
    /// of the bitmap blob.
    BitmapDecodeFailure { offset: usize },
}

/// The bytes of `b` from `pos` on begin with `pre`.
pub open spec fn starts_at(b: Seq<u8>, pos: int, pre: Seq<u8>) -> bool {
    &&& 0 <= pos
    &&& pos + pre.len() <= b.len()
    &&& b.subrange(pos, pos + pre.len() as int) == pre
}

/// Splitting a prefix: when `b` holds `x + y` at `pos`, it holds `x` at
/// `pos` and `y` right after.
pub proof fn lemma_starts_at_concat(b: Seq<u8>, pos: int, x: Seq<u8>, y: Seq<u8>)
    requires
        starts_at(b, pos, x + y),
    ensures
        starts_at(b, pos, x),
        starts_at(b, pos + x.len(), y),
{
    let whole = b.subrange(pos, pos + (x + y).len() as int);
    assert forall|i: int| 0 <= i < x.len() implies b.subrange(pos, pos + x.len() as int)[i]
        == x[i] by {
        assert(whole[i] == (x + y)[i]);
    };
    assert(b.subrange(pos, pos + x.len() as int) =~= x);
    assert forall|i: int|
        0 <= i < y.len() implies b.subrange(
        pos + x.len(),
        pos + x.len() + y.len() as int,
    )[i] == y[i] by {
        assert(whole[x.len() + i] == (x + y)[x.len() + i]);
    };
    assert(b.subrange(pos + x.len(), pos + x.len() + y.len() as int) =~= y);
}

/// Encoding of one byte.
pub open spec fn enc_u8(v: u8) -> Seq<u8> {
    seq![v]
}

/// Little-endian encoding of a 32-bit integer.
pub open spec fn enc_u32(v: u32) -> Seq<u8> {
    spec_u32_to_le_bytes(v)
}

/// Little-endian encoding of a 64-bit integer.
pub open spec fn enc_u64(v: u64) -> Seq<u8> {
    spec_u64_to_le_bytes(v)
}

/// The 32-bit encoding is four bytes long.
pub broadcast proof fn lemma_enc_u32_len(v: u32)
    ensures
        (#[trigger] enc_u32(v)).len() == 4,
{
    lemma_auto_spec_u32_to_from_le_bytes();
}

/// The 64-bit encoding is eight bytes long.
pub broadcast proof fn lemma_enc_u64_len(v: u64)
    ensures
        (#[trigger] enc_u64(v)).len() == 8,
{
    lemma_auto_spec_u64_to_from_le_bytes();
}

/// Appends one byte.
pub fn encode_u8(v: u8, out: &mut Vec<u8>)
    ensures
        final(out)@ == old(out)@ + enc_u8(v),
{
    out.push(v);
    proof {
        assert(out@ =~= old(out)@ + enc_u8(v));
    }
}

/// Appends a 32-bit integer, little endian.
pub fn encode_u32(v: u32, out: &mut Vec<u8>)
    ensures
        final(out)@ == old(out)@ + enc_u32(v),
{
    let mut bs = u32_to_le_bytes(v);
    out.append(&mut bs);
}

/// Appends a 64-bit integer, little endian.
pub fn encode_u64(v: u64, out: &mut Vec<u8>)
    ensures
        final(out)@ == old(out)@ + enc_u64(v),
{
    let mut bs = u64_to_le_bytes(v);
    out.append(&mut bs);
}

/// Reads one byte.
pub fn decode_u8(b: &[u8], pos: usize) -> (r: Result<(u8, usize), DecodeError>)
    ensures
        (match r {
            Ok((v, end)) => end == pos + 1 && starts_at(b@, pos as int, enc_u8(v)),
            Err(_) => true,
        }),
        forall|v: u8| #[trigger]
            starts_at(b@, pos as int, enc_u8(v)) ==> (r matches Ok(p) && p.0 == v && p.1 == pos
                + 1),
{
    if pos < b.len() {
        let v = *vstd::slice::slice_index_get(b, pos);
        proof {
            assert(b@.subrange(pos as int, pos as int + 1) =~= enc_u8(v));
            assert forall|v0: u8| starts_at(b@, pos as int, enc_u8(v0)) implies v0 == v by {
                assert(enc_u8(v0)[0] == v0);
                assert(enc_u8(v)[0] == v);
                assert(b@.subrange(pos as int, pos as int + 1)[0] == v);
            };
        }
        Ok((v, pos + 1))
    } else {
        proof {
            assert forall|v: u8| !starts_at(b@, pos as int, enc_u8(v)) by {
                assert(enc_u8(v).len() == 1);
            };
        }
        Err(DecodeError::Structure { offset: pos })
    }
}

/// Reads a 32-bit integer, little endian.
pub fn decode_u32(b: &[u8], pos: usize) -> (r: Result<(u32, usize), DecodeError>)
    ensures
        (match r {
            Ok((v, end)) => end == pos + 4 && starts_at(b@, pos as int, enc_u32(v)),
            Err(_) => true,
        }),
        forall|v: u32| #[trigger]
            starts_at(b@, pos as int, enc_u32(v)) ==> (r matches Ok(p) && p.0 == v && p.1 == pos
                + 4),
{
    proof {
        lemma_auto_spec_u32_to_from_le_bytes();
    }
    if b.len() >= 4 && pos <= b.len() - 4 {
        let s = slice_subrange(b, pos, pos + 4);
        let v = u32_from_le_bytes(s);
        proof {
            assert(spec_u32_to_le_bytes(v) =~= s@);
        }
        Ok((v, pos + 4))
    } else {
        Err(DecodeError::Structure { offset: pos })
    }
}

/// Reads a 64-bit integer, little endian.
pub fn decode_u64(b: &[u8], pos: usize) -> (r: Result<(u64, usize), DecodeError>)
    ensures
        (match r {
            Ok((v, end)) => end == pos + 8 && starts_at(b@, pos as int, enc_u64(v)),
            Err(_) => true,
        }),
        forall|v: u64| #[trigger]
            starts_at(b@, pos as int, enc_u64(v)) ==> (r matches Ok(p) && p.0 == v && p.1 == pos
                + 8),
{
    proof {
        lemma_auto_spec_u64_to_from_le_bytes();
    }
    if b.len() >= 8 && pos <= b.len() - 8 {
        let s = slice_subrange(b, pos, pos + 8);
        let v = u64_from_le_bytes(s);
        proof {
            assert(spec_u64_to_le_bytes(v) =~= s@);
        }
        Ok((v, pos + 8))
    } else {
        Err(DecodeError::Structure { offset: pos })
    }
}

/// Relies on `String::from_utf8` of std: it succeeds exactly on valid UTF-8
/// and decodes those bytes to their character sequence.
#[verifier::external_body]
fn string_from_utf8(bytes: Vec<u8>) -> (r: Option<String>)
    ensures
        (match r {
            Some(s) => valid_utf8(bytes@) && s@ == decode_utf8(bytes@),
            None => !valid_utf8(bytes@),
        }),
{
    match String::from_utf8(bytes) {
        Ok(s) => Some(s),
        Err(_) => None,
    }
}

/// A type with a deterministic byte encoding of its model, and a decoder
/// that recovers any encoded model exactly.
pub trait Codec: DeepView + Sized {
    /// The byte encoding of a model value.
    spec fn enc(m: Self::V) -> Seq<u8>;

    /// Which models real values can encode to (all length prefixes fit in
    /// 64 bits).
    spec fn fits(m: Self::V) -> bool;

    /// What the decoder guarantees of every value it returns, beyond model
    /// equality (internal indexes rebuilt, for types that have one).
    spec fn decode_inv(&self) -> bool;

    /// Appends the encoding of `self`.
    fn encode(&self, out: &mut Vec<u8>)
        ensures
            final(out)@ == old(out)@ + Self::enc(self.deep_view()),
            Self::fits(self.deep_view()),
    ;

    /// Reads back one value: whenever the bytes at `pos` begin with the
    /// encoding of a model that a real value can have, the decoder succeeds
    /// with exactly that model.
    fn decode(b: &[u8], pos: usize) -> (r: Result<(Self, usize), DecodeError>)
        ensures
            (match r {
                Ok((v, end)) => pos <= end <= b@.len() && v.decode_inv(),
                Err(_) => true,
            }),
            forall|m: Self::V|
                Self::fits(m) && #[trigger] starts_at(b@, pos as int, Self::enc(m)) ==> (
                r matches Ok(p) && p.0.deep_view() == m && p.1 == pos + Self::enc(m).len()),
    ;
}

impl Codec for u64 {
    open spec fn enc(m: u64) -> Seq<u8> {
        enc_u64(m)
    }

    open spec fn fits(m: u64) -> bool {
        true
    }

    open spec fn decode_inv(&self) -> bool {
        true
    }

    fn encode(&self, out: &mut Vec<u8>) {
        encode_u64(*self, out);
    }

    fn decode(b: &[u8], pos: usize) -> (r: Result<(Self, usize), DecodeError>) {
        broadcast use lemma_enc_u64_len;

        match decode_u64(b, pos) {
            Ok((v, end)) => Ok((v, end)),
            Err(e) => Err(e),
        }
    }
}

impl Codec for usize {
    open spec fn enc(m: usize) -> Seq<u8> {
        enc_u64(m as u64)
    }

    open spec fn fits(m: usize) -> bool {
        true
    }

    open spec fn decode_inv(&self) -> bool {
        true
    }

    fn encode(&self, out: &mut Vec<u8>) {
        encode_u64(*self as u64, out);
    }

    fn decode(b: &[u8], pos: usize) -> (r: Result<(Self, usize), DecodeError>) {
        broadcast use lemma_enc_u64_len;

        match decode_u64(b, pos) {
            Ok((v, end)) => {
                if v <= usize::MAX as u64 {
                    Ok((v as usize, end))
                } else {
                    proof {
                        assert forall|m: usize| starts_at(
                            b@,
                            pos as int,
                            <usize as Codec>::enc(m),
                        ) implies false by {
                            assert(v == m as u64);
                        };
                    }
                    Err(DecodeError::Structure { offset: pos })
                }
            },
            Err(e) => Err(e),
        }
    }
}

/// Encodings a string can have: its UTF-8 byte length fits the prefix.
pub open spec fn str_fits(m: Seq<char>) -> bool {
    encode_utf8(m).len() < 0x1_0000_0000_0000_0000
}

/// Length-prefixed UTF-8 encoding of a string.
pub open spec fn enc_str(m: Seq<char>) -> Seq<u8> {
    enc_u64(encode_utf8(m).len() as u64) + encode_utf8(m)
}

impl Codec for String {
    open spec fn enc(m: Seq<char>) -> Seq<u8> {
        enc_str(m)
    }

    open spec fn fits(m: Seq<char>) -> bool {
        str_fits(m)
    }

    open spec fn decode_inv(&self) -> bool {
        true
    }

    fn encode(&self, out: &mut Vec<u8>) {
        let mut bytes = self.as_str().as_bytes_vec();
        encode_u64(bytes.len() as u64, out);
        out.append(&mut bytes);
        proof {
            assert(out@ =~= old(out)@ + enc_str(self@));
        }
    }

    fn decode(b: &[u8], pos: usize) -> (r: Result<(Self, usize), DecodeError>) {
        broadcast use lemma_enc_u64_len;

        let (n, p1) = match decode_u64(b, pos) {
            Ok(x) => x,
            Err(e) => {
                proof {
                    assert forall|m: Seq<char>|
                        str_fits(m) && starts_at(b@, pos as int, enc_str(m)) implies false by {
                        lemma_starts_at_concat(
                            b@,
                            pos as int,
                            enc_u64(encode_utf8(m).len() as u64),
                            encode_utf8(m),
                        );
                    };
                }
                return Err(e);
            },
        };
        if n > (b.len() - p1) as u64 {
            proof {
                assert forall|m: Seq<char>|
                    str_fits(m) && starts_at(b@, pos as int, enc_str(m)) implies false by {
                    lemma_starts_at_concat(
                        b@,
                        pos as int,
                        enc_u64(encode_utf8(m).len() as u64),
                        encode_utf8(m),
                    );
                };
            }
            return Err(DecodeError::Structure { offset: p1 });
        }
        let end = p1 + (n as usize);
        let bytes = slice_to_vec(slice_subrange(b, p1, end));
        match string_from_utf8(bytes) {
            Some(s) => {
                proof {
                    assert forall|m: Seq<char>|
                        str_fits(m) && starts_at(b@, pos as int, enc_str(m)) implies s@ == m && end
                        == pos + enc_str(m).len() by {
                        lemma_starts_at_concat(
                            b@,
                            pos as int,
                            enc_u64(encode_utf8(m).len() as u64),
                            encode_utf8(m),
                        );
                        assert(n == encode_utf8(m).len() as u64);
                        assert(b@.subrange(p1 as int, end as int) =~= encode_utf8(m));
                    };
                }
                Ok((s, end))
            },
            None => {
                proof {
                    assert forall|m: Seq<char>|
                        str_fits(m) && starts_at(b@, pos as int, enc_str(m)) implies false by {
                        lemma_starts_at_concat(
                            b@,
                            pos as int,
                            enc_u64(encode_utf8(m).len() as u64),
                            encode_utf8(m),
                        );
                        assert(n == encode_utf8(m).len() as u64);
                        assert(b@.subrange(p1 as int, end as int) =~= encode_utf8(m));
                    };
                }
                Err(DecodeError::Structure { offset: p1 })
            },
        }
    }
}

/// Concatenation of a sequence of byte strings.
pub open spec fn cat_bytes(s: Seq<Seq<u8>>) -> Seq<u8>
    decreases s.len(),
{
    if s.len() == 0 {
        Seq::empty()
    } else {
        s[0] + cat_bytes(s.drop_first())
    }
}

/// Concatenating one more byte string appends it.
pub proof fn lemma_cat_bytes_push(s: Seq<Seq<u8>>, x: Seq<u8>)
    ensures
        cat_bytes(s.push(x)) == cat_bytes(s) + x,
    decreases s.len(),
{
    if s.len() == 0 {
        assert(s.push(x)[0] == x);
        assert(s.push(x).drop_first() =~= Seq::<Seq<u8>>::empty());
        assert(x + cat_bytes(Seq::<Seq<u8>>::empty()) =~= x);
        assert(cat_bytes(s) + x =~= x);
    } else {
        assert(s.push(x)[0] == s[0]);
        assert(s.push(x).drop_first() =~= s.drop_first().push(x));
        lemma_cat_bytes_push(s.drop_first(), x);
        assert(s[0] + (cat_bytes(s.drop_first()) + x) =~= (s[0] + cat_bytes(s.drop_first())) + x);
    }
}

/// One step of concatenation from position `i`.
pub proof fn lemma_cat_bytes_skip_step(s: Seq<Seq<u8>>, i: int)
    requires
        0 <= i < s.len(),
    ensures
        cat_bytes(s.skip(i)) == s[i] + cat_bytes(s.skip(i + 1)),
{
    assert(s.skip(i)[0] == s[i]);
    assert(s.skip(i).drop_first() =~= s.skip(i + 1));
}

/// Concatenation splits at any index.
pub proof fn lemma_cat_bytes_split(s: Seq<Seq<u8>>, i: int)
    requires
        0 <= i <= s.len(),
    ensures
        cat_bytes(s) == cat_bytes(s.take(i)) + cat_bytes(s.skip(i)),
    decreases i,
{
    if i == 0 {
        assert(s.take(0) =~= Seq::<Seq<u8>>::empty());
        assert(s.skip(0) =~= s);
        assert(cat_bytes(s.take(0)) + cat_bytes(s) =~= cat_bytes(s));
    } else {
        lemma_cat_bytes_split(s, i - 1);
        lemma_cat_bytes_skip_step(s, i - 1);
        assert(s.take(i) =~= s.take(i - 1).push(s[i - 1]));
        lemma_cat_bytes_push(s.take(i - 1), s[i - 1]);
        assert(cat_bytes(s.take(i - 1)) + (s[i - 1] + cat_bytes(s.skip(i))) =~= (cat_bytes(
            s.take(i - 1),
        ) + s[i - 1]) + cat_bytes(s.skip(i)));
    }
}

/// Count-prefixed encoding of a list of models.
pub open spec fn enc_list_of<T: Codec>(ms: Seq<T::V>) -> Seq<u8> {
    enc_u64(ms.len() as u64) + cat_bytes(ms.map_values(|m: T::V| T::enc(m)))
}

/// Encodings a real list can have: the count fits, and so does every
/// element.
pub open spec fn list_fits<T: Codec>(ms: Seq<T::V>) -> bool {
    &&& ms.len() < 0x1_0000_0000_0000_0000
    &&& forall|i: int| 0 <= i < ms.len() ==> T::fits(#[trigger] ms[i])
}

/// Appends the count-prefixed encoding of every element of `v` in order.
pub fn encode_vec_of<T: Codec>(v: &Vec<T>, out: &mut Vec<u8>)
    ensures
        final(out)@ == old(out)@ + enc_list_of::<T>(v.deep_view()),
        list_fits::<T>(v.deep_view()),
{
    let ghost ms = v.deep_view();
    let ghost encs = ms.map_values(|m: T::V| T::enc(m));
    encode_u64(v.len() as u64, out);
    let ghost base = out@;
    let n = v.len();
    let mut i: usize = 0;
    while i < n
        invariant
            i <= n,
            n == v@.len(),
            ms == v.deep_view(),
            encs == ms.map_values(|m: T::V| T::enc(m)),
            base == old(out)@ + enc_u64(n as u64),
            out@ == base + cat_bytes(encs.take(i as int)),
            forall|j: int| 0 <= j < i ==> T::fits(#[trigger] ms[j]),
        decreases n - i,
    {
        let item = &v[i];
        item.encode(out);
        proof {
            assert(ms[i as int] == v@[i as int].deep_view());
            assert(encs[i as int] == T::enc(ms[i as int]));
            assert(encs.take(i + 1) =~= encs.take(i as int).push(encs[i as int]));
            lemma_cat_bytes_push(encs.take(i as int), encs[i as int]);
        }
        i = i + 1;
    }
    proof {
        assert(encs.take(n as int) =~= encs);
        assert(out@ =~= old(out)@ + enc_list_of::<T>(ms));
    }
}

/// Reads back a count-prefixed list: any encoded list of models is
/// recovered exactly, element by element, in order.
pub fn decode_vec_of<T: Codec>(b: &[u8], pos: usize) -> (r: Result<(Vec<T>, usize), DecodeError>)
    ensures
        (match r {
            Ok((v, end)) => pos <= end <= b@.len() && (forall|k: int|
                0 <= k < v@.len() ==> (#[trigger] v@[k]).decode_inv()),
            Err(_) => true,
        }),
        forall|ms: Seq<T::V>|
            list_fits::<T>(ms) && #[trigger] starts_at(b@, pos as int, enc_list_of::<T>(ms))
                ==> (r matches Ok(p) && p.0.deep_view() == ms && p.1 == pos
                + enc_list_of::<T>(ms).len()),
{
    broadcast use lemma_enc_u64_len;

    let (n, p1) = match decode_u64(b, pos) {
        Ok(x) => x,
        Err(e) => {
            proof {
                assert forall|ms: Seq<T::V>|
                    list_fits::<T>(ms) && starts_at(
                        b@,
                        pos as int,
                        enc_list_of::<T>(ms),
                    ) implies false by {
                    lemma_starts_at_concat(
                        b@,
                        pos as int,
                        enc_u64(ms.len() as u64),
                        cat_bytes(ms.map_values(|m: T::V| T::enc(m))),
                    );
                };
            }
            return Err(e);
        },
    };
    proof {
        assert forall|ms: Seq<T::V>|
            list_fits::<T>(ms) && starts_at(b@, pos as int, enc_list_of::<T>(ms)) implies {
            &&& n == ms.len() as u64
            &&& p1 == pos + 8 + cat_bytes(ms.map_values(|m: T::V| T::enc(m)).take(0)).len()
        } by {
            let encs = ms.map_values(|m: T::V| T::enc(m));
            lemma_starts_at_concat(b@, pos as int, enc_u64(ms.len() as u64), cat_bytes(encs));
            assert(encs.take(0) =~= Seq::<Seq<u8>>::empty());
        };
    }
    let mut items: Vec<T> = Vec::new();
    let mut cur: usize = p1;
    let mut i: u64 = 0;
    while i < n
        invariant
            i <= n,
            pos <= cur <= b@.len(),
            items@.len() == i,
            forall|k: int| 0 <= k < items@.len() ==> (#[trigger] items@[k]).decode_inv(),
            forall|ms: Seq<T::V>|
                list_fits::<T>(ms) && #[trigger] starts_at(b@, pos as int, enc_list_of::<T>(ms))
                    ==> {
                    &&& n == ms.len() as u64
                    &&& i <= ms.len()
                    &&& items.deep_view() == ms.take(i as int)
                    &&& cur == pos + 8 + cat_bytes(
                        ms.map_values(|m: T::V| T::enc(m)).take(i as int),
                    ).len()
                },
        decreases n - i,
    {
        let (item, c2) = match T::decode(b, cur) {
            Ok(x) => x,
            Err(e) => {
                proof {
                    assert forall|ms: Seq<T::V>|
                        list_fits::<T>(ms) && starts_at(
                            b@,
                            pos as int,
                            enc_list_of::<T>(ms),
                        ) implies false by {
                        let encs = ms.map_values(|m: T::V| T::enc(m));
                        lemma_enc_u64_len(ms.len() as u64);
                        assert(i < ms.len());
                        lemma_starts_at_concat(
                            b@,
                            pos as int,
                            enc_u64(ms.len() as u64),
                            cat_bytes(encs),
                        );
                        assert(starts_at(b@, pos as int + 8, cat_bytes(encs)));
                        lemma_cat_bytes_split(encs, i as int);
                        assert(starts_at(
                            b@,
                            pos as int + 8,
                            cat_bytes(encs.take(i as int)) + cat_bytes(encs.skip(i as int)),
                        ));
                        lemma_starts_at_concat(
                            b@,
                            pos as int + 8,
                            cat_bytes(encs.take(i as int)),
                            cat_bytes(encs.skip(i as int)),
                        );
                        lemma_cat_bytes_skip_step(encs, i as int);
                        lemma_starts_at_concat(
                            b@,
                            cur as int,
                            encs[i as int],
                            cat_bytes(encs.skip(i as int + 1)),
                        );
                        assert(encs[i as int] == T::enc(ms[i as int]));
                        assert(T::fits(ms[i as int]));
                        assert(starts_at(b@, cur as int, T::enc(ms[i as int])));
                    };
                }
                return Err(e);
            },
        };
        items.push(item);
        proof {
            assert forall|ms: Seq<T::V>|
                list_fits::<T>(ms) && starts_at(b@, pos as int, enc_list_of::<T>(ms)) implies {
                &&& i + 1 <= ms.len()
                &&& items.deep_view() == ms.take(i + 1)
                &&& c2 == pos + 8 + cat_bytes(
                    ms.map_values(|m: T::V| T::enc(m)).take(i + 1),
                ).len()
            } by {
                let encs = ms.map_values(|m: T::V| T::enc(m));
                lemma_enc_u64_len(ms.len() as u64);
                assert(i < ms.len());
                lemma_starts_at_concat(b@, pos as int, enc_u64(ms.len() as u64), cat_bytes(encs));
                assert(starts_at(b@, pos as int + 8, cat_bytes(encs)));
                lemma_cat_bytes_split(encs, i as int);
                assert(starts_at(
                    b@,
                    pos as int + 8,
                    cat_bytes(encs.take(i as int)) + cat_bytes(encs.skip(i as int)),
                ));
                lemma_starts_at_concat(
                    b@,
                    pos as int + 8,
                    cat_bytes(encs.take(i as int)),
                    cat_bytes(encs.skip(i as int)),
                );
                lemma_cat_bytes_skip_step(encs, i as int);
                lemma_starts_at_concat(
                    b@,
                    cur as int,
                    encs[i as int],
                    cat_bytes(encs.skip(i as int + 1)),
                );
                assert(encs[i as int] == T::enc(ms[i as int]));
                assert(T::fits(ms[i as int]));
                assert(starts_at(b@, cur as int, T::enc(ms[i as int])));
                assert(item.deep_view() == ms[i as int] && c2 == cur + T::enc(
                    ms[i as int],
                ).len());
                assert(items.deep_view() =~= ms.take(i + 1));
                assert(encs.take(i + 1) =~= encs.take(i as int).push(encs[i as int]));
                lemma_cat_bytes_push(encs.take(i as int), encs[i as int]);
            };
        }
        cur = c2;
        i = i + 1;
    }
    proof {
        assert forall|ms: Seq<T::V>|
            list_fits::<T>(ms) && starts_at(b@, pos as int, enc_list_of::<T>(ms)) implies {
            &&& items.deep_view() == ms
            &&& cur == pos + enc_list_of::<T>(ms).len()
        } by {
            assert(i == n && n == ms.len() as u64);
            assert(ms.take(i as int) =~= ms);
            assert(ms.map_values(|m: T::V| T::enc(m)).take(i as int) =~= ms.map_values(
                |m: T::V| T::enc(m),
            ));
        };
    }
    Ok((items, cur))
}

/// Tagged encoding of an optional value: 0 for absent, 1 and the value for
/// present.
pub open spec fn enc_option_of<T: Codec>(m: Option<T::V>) -> Seq<u8> {
    match m {
        None => seq![0u8],
        Some(x) => seq![1u8] + T::enc(x),
    }
}

/// Encodings a real optional value can have.
pub open spec fn option_fits<T: Codec>(m: Option<T::V>) -> bool {
    match m {
        None => true,
        Some(x) => T::fits(x),
    }
}

/// Appends the tagged encoding of an optional value.
pub fn encode_option_of<T: Codec>(o: &Option<T>, out: &mut Vec<u8>)
    ensures
        final(out)@ == old(out)@ + enc_option_of::<T>(o.deep_view()),
        option_fits::<T>(o.deep_view()),
{
    match o {
        None => {
            encode_u8(0, out);
        },
        Some(t) => {
            encode_u8(1, out);
            t.encode(out);
            proof {
                assert(out@ =~= old(out)@ + enc_option_of::<T>(o.deep_view()));
            }
        },
    }
}

/// Reads back a tagged optional value.
pub fn decode_option_of<T: Codec>(b: &[u8], pos: usize) -> (r: Result<
    (Option<T>, usize),
    DecodeError,
>)
    ensures
        (match r {
            Ok((v, end)) => pos <= end <= b@.len() && (v matches Some(t) ==> t.decode_inv()),
            Err(_) => true,
        }),
        forall|m: Option<T::V>|
            option_fits::<T>(m) && #[trigger] starts_at(b@, pos as int, enc_option_of::<T>(m))
                ==> (r matches Ok(p) && p.0.deep_view() == m && p.1 == pos + enc_option_of::<T>(
                m,
            ).len()),
{
    let (tag, p1) = match decode_u8(b, pos) {
        Ok(x) => x,
        Err(e) => {
            proof {
                assert forall|m: Option<T::V>|
                    option_fits::<T>(m) && starts_at(
                        b@,
                        pos as int,
                        enc_option_of::<T>(m),
                    ) implies false by {
                    match m {
                        None => {
                            assert(starts_at(b@, pos as int, enc_u8(0)));
                        },
                        Some(x) => {
                            lemma_starts_at_concat(b@, pos as int, seq![1u8], T::enc(x));
                            assert(starts_at(b@, pos as int, enc_u8(1)));
                        },
                    }
                };
            }
            return Err(e);
        },
    };
    proof {
        assert forall|m: Option<T::V>|
            option_fits::<T>(m) && starts_at(b@, pos as int, enc_option_of::<T>(m)) implies (
        match m {
            None => tag == 0,
            Some(x) => tag == 1 && starts_at(b@, p1 as int, T::enc(x)),
        }) by {
            match m {
                None => {
                    assert(starts_at(b@, pos as int, enc_u8(0)));
                },
                Some(x) => {
                    lemma_starts_at_concat(b@, pos as int, seq![1u8], T::enc(x));
                    assert(starts_at(b@, pos as int, enc_u8(1)));
                },
            }
        };
    }
    if tag == 0 {
        Ok((None, p1))
    } else if tag == 1 {
        match T::decode(b, p1) {
            Ok((t, end)) => Ok((Some(t), end)),
            Err(e) => Err(e),
        }
    } else {
        Err(DecodeError::Structure { offset: pos })
    }
}

/// Tagged encoding of an optional list: 0 for absent, 1 and the
/// count-prefixed list for present.
pub open spec fn enc_option_list_of<T: Codec>(m: Option<Seq<T::V>>) -> Seq<u8> {
    match m {
        None => seq![0u8],
        Some(s) => seq![1u8] + enc_list_of::<T>(s),
    }
}

/// Encodings a real optional list can have.
pub open spec fn option_list_fits<T: Codec>(m: Option<Seq<T::V>>) -> bool {
    match m {
        None => true,
        Some(s) => list_fits::<T>(s),
    }
}

/// Appends the tagged encoding of an optional list.
pub fn encode_option_vec_of<T: Codec>(o: &Option<Vec<T>>, out: &mut Vec<u8>)
    ensures
        final(out)@ == old(out)@ + enc_option_list_of::<T>(o.deep_view()),
        option_list_fits::<T>(o.deep_view()),
{
    match o {
        None => {
            encode_u8(0, out);
        },
        Some(v) => {
            encode_u8(1, out);
            encode_vec_of::<T>(v, out);
            proof {
                assert(out@ =~= old(out)@ + enc_option_list_of::<T>(o.deep_view()));
            }
        },
    }
}

/// Reads back a tagged optional list.
pub fn decode_option_vec_of<T: Codec>(b: &[u8], pos: usize) -> (r: Result<
    (Option<Vec<T>>, usize),
    DecodeError,
>)
    ensures
        (match r {
            Ok((v, end)) => pos <= end <= b@.len() && (match v {
                Some(items) => forall|k: int|
                    0 <= k < items@.len() ==> (#[trigger] items@[k]).decode_inv(),
                None => true,
            }),
            Err(_) => true,
        }),
        forall|m: Option<Seq<T::V>>|
            option_list_fits::<T>(m) && #[trigger] starts_at(
                b@,
                pos as int,
                enc_option_list_of::<T>(m),
            ) ==> (r matches Ok(p) && p.0.deep_view() == m && p.1 == pos
                + enc_option_list_of::<T>(m).len()),
{
    let (tag, p1) = match decode_u8(b, pos) {
        Ok(x) => x,
        Err(e) => {
            proof {
                assert forall|m: Option<Seq<T::V>>|
                    option_list_fits::<T>(m) && starts_at(
                        b@,
                        pos as int,
                        enc_option_list_of::<T>(m),
                    ) implies false by {
                    match m {
                        None => {
                            assert(starts_at(b@, pos as int, enc_u8(0)));
                        },
                        Some(s) => {
                            lemma_starts_at_concat(b@, pos as int, seq![1u8], enc_list_of::<T>(s));
                            assert(starts_at(b@, pos as int, enc_u8(1)));
                        },
                    }
                };
            }
            return Err(e);
        },
    };
    proof {
        assert forall|m: Option<Seq<T::V>>|
            option_list_fits::<T>(m) && starts_at(
                b@,
                pos as int,
                enc_option_list_of::<T>(m),
            ) implies (match m {
            None => tag == 0,
            Some(s) => tag == 1 && starts_at(b@, p1 as int, enc_list_of::<T>(s)),
        }) by {
            match m {
                None => {
                    assert(starts_at(b@, pos as int, enc_u8(0)));
                },
                Some(s) => {
                    lemma_starts_at_concat(b@, pos as int, seq![1u8], enc_list_of::<T>(s));
                    assert(starts_at(b@, pos as int, enc_u8(1)));
                },
            }
        };
    }
    if tag == 0 {
        Ok((None, p1))
    } else if tag == 1 {
        match decode_vec_of::<T>(b, p1) {
            Ok((items, end)) => Ok((Some(items), end)),
            Err(e) => Err(e),
        }
    } else {
        Err(DecodeError::Structure { offset: pos })
    }
}

/// Length-prefixed encoding of an opaque byte blob.
pub open spec fn enc_bytes(bs: Seq<u8>) -> Seq<u8> {
    enc_u64(bs.len() as u64) + bs
}

/// Encodings a real blob can have: its length fits the prefix.
pub open spec fn bytes_fits(bs: Seq<u8>) -> bool {
    bs.len() < 0x1_0000_0000_0000_0000
}

/// Appends a length-prefixed byte blob.
pub fn encode_bytes(v: &Vec<u8>, out: &mut Vec<u8>)
    ensures
        final(out)@ == old(out)@ + enc_bytes(v@),
        bytes_fits(v@),
{
    encode_u64(v.len() as u64, out);
    let mut copy = slice_to_vec(v.as_slice());
    out.append(&mut copy);
    proof {
        assert(out@ =~= old(out)@ + enc_bytes(v@));
    }
}

/// Reads back a length-prefixed byte blob.
pub fn decode_bytes(b: &[u8], pos: usize) -> (r: Result<(Vec<u8>, usize), DecodeError>)
    ensures
        (match r {
            Ok((v, end)) => pos <= end <= b@.len(),
            Err(_) => true,
        }),
        forall|bs: Seq<u8>|
            bytes_fits(bs) && #[trigger] starts_at(b@, pos as int, enc_bytes(bs)) ==> (
            r matches Ok(p) && p.0@ == bs && p.1 == pos + enc_bytes(bs).len()),
{
    broadcast use lemma_enc_u64_len;

    let (n, p1) = match decode_u64(b, pos) {
        Ok(x) => x,
        Err(e) => {
            proof {
                assert forall|bs: Seq<u8>|
                    bytes_fits(bs) && starts_at(b@, pos as int, enc_bytes(bs)) implies false by {
                    lemma_starts_at_concat(b@, pos as int, enc_u64(bs.len() as u64), bs);
                };
            }
            return Err(e);
        },
    };
    if n > (b.len() - p1) as u64 {
        proof {
            assert forall|bs: Seq<u8>|
                bytes_fits(bs) && starts_at(b@, pos as int, enc_bytes(bs)) implies false by {
                lemma_starts_at_concat(b@, pos as int, enc_u64(bs.len() as u64), bs);
            };
        }
        return Err(DecodeError::Structure { offset: p1 });
    }
    let end = p1 + (n as usize);
    let v = slice_to_vec(slice_subrange(b, p1, end));
    proof {
        assert forall|bs: Seq<u8>|
            bytes_fits(bs) && starts_at(b@, pos as int, enc_bytes(bs)) implies v@ == bs && end
            == pos + enc_bytes(bs).len() by {
            lemma_starts_at_concat(b@, pos as int, enc_u64(bs.len() as u64), bs);
            assert(n == bs.len() as u64);
            assert(b@.subrange(p1 as int, end as int) =~= bs);
        };
    }
    Ok((v, end))
}

} // verus!
