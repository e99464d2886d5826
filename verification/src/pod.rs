//! SPA POD encoding: every value is a 32-bit body size, a 32-bit type and the
//! body, padded with zero bytes to the next multiple of eight. Integers are
//! little-endian, the byte order of the supported x86_64 target.

use vstd::bytes::*;
use vstd::prelude::*;
use vstd::slice::{slice_subrange, slice_to_vec};

verus! {

broadcast use vstd::seq_lib::group_seq_properties;

/// `SPA_TYPE_None`.
pub const TYPE_NONE: u32 = 1;
/// `SPA_TYPE_Bool`.
pub const TYPE_BOOL: u32 = 2;
/// `SPA_TYPE_Id`.
pub const TYPE_ID: u32 = 3;
/// `SPA_TYPE_Int`.
pub const TYPE_INT: u32 = 4;
/// `SPA_TYPE_Long`.
pub const TYPE_LONG: u32 = 5;
/// `SPA_TYPE_String`.
pub const TYPE_STRING: u32 = 8;
/// `SPA_TYPE_Array`.
pub const TYPE_ARRAY: u32 = 13;
/// `SPA_TYPE_Struct`.
pub const TYPE_STRUCT: u32 = 14;
/// `SPA_TYPE_Object`.
pub const TYPE_OBJECT: u32 = 15;
/// `SPA_TYPE_Fd`.
pub const TYPE_FD: u32 = 18;

/// Mathematical model of one POD value.
pub enum PodValue {
    Null,
    Bool(bool),
    Id(u32),
    Int(i32),
    Long(i64),
    Fd(i64),
    /// String bytes without the terminating NUL.
    Str(Seq<u8>),
    Struct(Seq<PodValue>),
    /// Any other type, kept as its type and unpadded body.
    Raw(u32, Seq<u8>),
}

/// Types that have a structured representation in [`PodValue`].
pub open spec fn is_structured_type(t: u32) -> bool {
    t == TYPE_NONE || t == TYPE_BOOL || t == TYPE_ID || t == TYPE_INT || t == TYPE_LONG
        || t == TYPE_STRING || t == TYPE_STRUCT || t == TYPE_FD
}

pub open spec fn le32(x: u32) -> Seq<u8> {
    spec_u32_to_le_bytes(x)
}

pub open spec fn le64(x: u64) -> Seq<u8> {
    spec_u64_to_le_bytes(x)
}

/// Number of zero bytes that follow a body of `n` bytes.
pub open spec fn pad_len(n: nat) -> nat {
    ((8 - (n % 8)) % 8) as nat
}

pub open spec fn zeros(n: nat) -> Seq<u8> {
    Seq::new(n, |i: int| 0u8)
}

pub open spec fn pod_type(v: PodValue) -> u32 {
    match v {
        PodValue::Null => TYPE_NONE,
        PodValue::Bool(_) => TYPE_BOOL,
        PodValue::Id(_) => TYPE_ID,
        PodValue::Int(_) => TYPE_INT,
        PodValue::Long(_) => TYPE_LONG,
        PodValue::Fd(_) => TYPE_FD,
        PodValue::Str(_) => TYPE_STRING,
        PodValue::Struct(_) => TYPE_STRUCT,
        PodValue::Raw(t, _) => t,
    }
}

/// Header, body and padding of a POD with the given type and body.
pub open spec fn framed(t: u32, body: Seq<u8>) -> Seq<u8> {
    le32(body.len() as u32) + le32(t) + body + zeros(pad_len(body.len()))
}

/// Unpadded body of a POD value.
pub open spec fn pod_body(v: PodValue) -> Seq<u8>
    decreases v,
{
    match v {
        PodValue::Null => Seq::empty(),
        PodValue::Bool(b) => le32(if b { 1u32 } else { 0u32 }),
        PodValue::Id(x) => le32(x),
        PodValue::Int(x) => le32(x as u32),
        PodValue::Long(x) => le64(x as u64),
        PodValue::Fd(x) => le64(x as u64),
        PodValue::Str(s) => s.push(0u8),
        PodValue::Struct(cs) => pods_encoding(cs),
        PodValue::Raw(_, b) => b,
    }
}

/// Concatenated padded encodings of a sequence of values.
pub open spec fn pods_encoding(cs: Seq<PodValue>) -> Seq<u8>
    decreases cs,
{
    if cs.len() == 0 {
        Seq::empty()
    } else {
        framed(pod_type(cs[0]), pod_body(cs[0])) + pods_encoding(cs.drop_first())
    }
}

/// The padded wire encoding of one value.
pub open spec fn pod_encoding(v: PodValue) -> Seq<u8> {
    framed(pod_type(v), pod_body(v))
}

/// Values that have an encoding: strings without interior NUL, bodies whose
/// length fits the 32-bit size field, and raw values of unstructured types.
pub open spec fn pod_wf(v: PodValue) -> bool
    decreases v,
{
    match v {
        PodValue::Str(s) => !s.contains(0u8) && s.len() + 1 <= u32::MAX,
        PodValue::Struct(cs) => pods_wf(cs) && pods_encoding(cs).len() <= u32::MAX,
        PodValue::Raw(t, b) => !is_structured_type(t) && b.len() <= u32::MAX,
        _ => true,
    }
}

pub open spec fn pods_wf(cs: Seq<PodValue>) -> bool
    decreases cs,
{
    cs.len() == 0 || (pod_wf(cs[0]) && pods_wf(cs.drop_first()))
}

pub proof fn lemma_le32_roundtrip(x: u32)
    ensures
        le32(x).len() == 4,
        spec_u32_from_le_bytes(le32(x)) == x,
{
    lemma_auto_spec_u32_to_from_le_bytes();
    assert(spec_u32_to_le_bytes(x).len() == 4);
}

pub proof fn lemma_le64_roundtrip(x: u64)
    ensures
        le64(x).len() == 8,
        spec_u64_from_le_bytes(le64(x)) == x,
{
    lemma_auto_spec_u64_to_from_le_bytes();
    assert(spec_u64_to_le_bytes(x).len() == 8);
}

pub proof fn lemma_framed_len(t: u32, body: Seq<u8>)
    ensures
        framed(t, body).len() == 8 + body.len() + pad_len(body.len()),
        (body.len() + pad_len(body.len())) % 8 == 0,
{
    lemma_le32_roundtrip(body.len() as u32);
    lemma_le32_roundtrip(t);
}


pub proof fn lemma_body_len_bound(v: PodValue)
    requires
        pod_wf(v),
    ensures
        pod_body(v).len() <= u32::MAX,
{
    match v {
        PodValue::Bool(b) => lemma_le32_roundtrip(if b { 1u32 } else { 0u32 }),
        PodValue::Id(x) => lemma_le32_roundtrip(x),
        PodValue::Int(x) => lemma_le32_roundtrip(x as u32),
        PodValue::Long(x) => lemma_le64_roundtrip(x as u64),
        PodValue::Fd(x) => lemma_le64_roundtrip(x as u64),
        _ => {},
    }
}

/// The first eight bytes of an encoding hold the body size and the type.
pub proof fn lemma_framed_header(t: u32, body: Seq<u8>, rest: Seq<u8>)
    requires
        body.len() <= u32::MAX,
    ensures
        ({
            let x = framed(t, body) + rest;
            &&& x.len() == 8 + body.len() + pad_len(body.len()) + rest.len()
            &&& spec_u32_from_le_bytes(x.subrange(0, 4)) == body.len()
            &&& spec_u32_from_le_bytes(x.subrange(4, 8)) == t
            &&& x.subrange(8, 8 + body.len() as int) == body
            &&& x.subrange(8 + body.len() as int, (8 + body.len() + pad_len(body.len())) as int)
                == zeros(pad_len(body.len()))
            &&& x.subrange(0, framed(t, body).len() as int) == framed(t, body)
            &&& x.subrange(framed(t, body).len() as int, x.len() as int) == rest
        }),
{
    lemma_le32_roundtrip(body.len() as u32);
    lemma_le32_roundtrip(t);
    let x = framed(t, body) + rest;
    assert(x.subrange(0, 4) =~= le32(body.len() as u32));
    assert(x.subrange(4, 8) =~= le32(t));
    assert(x.subrange(8, 8 + body.len() as int) =~= body);
    assert(x.subrange(8 + body.len() as int, (8 + body.len() + pad_len(body.len())) as int) =~= zeros(
        pad_len(body.len()),
    ));
    assert(x.subrange(0, framed(t, body).len() as int) =~= framed(t, body));
    assert(x.subrange(framed(t, body).len() as int, x.len() as int) =~= rest);
}

/// POD encodings are uniquely decodable: a valid encoding followed by any
/// bytes determines both the value and the bytes that follow it.
pub proof fn lemma_pod_unique(v1: PodValue, v2: PodValue, r1: Seq<u8>, r2: Seq<u8>)
    requires
        pod_wf(v1),
        pod_wf(v2),
        pod_encoding(v1) + r1 == pod_encoding(v2) + r2,
    ensures
        v1 == v2,
        r1 == r2,
    decreases v1,
{
    let b1 = pod_body(v1);
    let b2 = pod_body(v2);
    lemma_body_len_bound(v1);
    lemma_body_len_bound(v2);
    lemma_framed_header(pod_type(v1), b1, r1);
    lemma_framed_header(pod_type(v2), b2, r2);
    let x = pod_encoding(v1) + r1;
    assert(b1.len() == b2.len());
    assert(pod_type(v1) == pod_type(v2));
    assert(b1 == b2);
    assert(r1 == r2);
    match v1 {
        PodValue::Null => {},
        PodValue::Bool(a) => {
            lemma_le32_roundtrip(if a { 1u32 } else { 0u32 });
            if let PodValue::Bool(b) = v2 {
                lemma_le32_roundtrip(if b { 1u32 } else { 0u32 });
            }
        },
        PodValue::Id(a) => {
            lemma_le32_roundtrip(a);
            if let PodValue::Id(b) = v2 {
                lemma_le32_roundtrip(b);
            }
        },
        PodValue::Int(a) => {
            lemma_le32_roundtrip(a as u32);
            if let PodValue::Int(b) = v2 {
                lemma_le32_roundtrip(b as u32);
                assert(a as u32 == b as u32 ==> a == b) by (bit_vector);
            }
        },
        PodValue::Long(a) => {
            lemma_le64_roundtrip(a as u64);
            if let PodValue::Long(b) = v2 {
                lemma_le64_roundtrip(b as u64);
                assert(a as u64 == b as u64 ==> a == b) by (bit_vector);
            }
        },
        PodValue::Fd(a) => {
            lemma_le64_roundtrip(a as u64);
            if let PodValue::Fd(b) = v2 {
                lemma_le64_roundtrip(b as u64);
                assert(a as u64 == b as u64 ==> a == b) by (bit_vector);
            }
        },
        PodValue::Str(s1) => {
            if let PodValue::Str(s2) = v2 {
                assert(s1 == s1.push(0u8).drop_last());
                assert(s2 == s2.push(0u8).drop_last());
            }
        },
        PodValue::Struct(cs1) => {
            if let PodValue::Struct(cs2) = v2 {
                lemma_pods_unique(cs1, cs2);
            }
        },
        PodValue::Raw(t1, c1) => {},
    }
}

pub proof fn lemma_pods_unique(cs1: Seq<PodValue>, cs2: Seq<PodValue>)
    requires
        pods_wf(cs1),
        pods_wf(cs2),
        pods_encoding(cs1) == pods_encoding(cs2),
    ensures
        cs1 == cs2,
    decreases cs1,
{
    if cs1.len() == 0 {
        if cs2.len() != 0 {
            lemma_framed_len(pod_type(cs2[0]), pod_body(cs2[0]));
            assert(pods_encoding(cs2).len() >= 8);
            assert(pods_encoding(cs1).len() == 0);
        }
        assert(cs1 =~= cs2);
    } else {
        if cs2.len() == 0 {
            lemma_framed_len(pod_type(cs1[0]), pod_body(cs1[0]));
            assert(pods_encoding(cs1).len() >= 8);
            assert(pods_encoding(cs2).len() == 0);
        } else {
            assert(pods_encoding(cs1) == pod_encoding(cs1[0]) + pods_encoding(cs1.drop_first()));
            assert(pods_encoding(cs2) == pod_encoding(cs2[0]) + pods_encoding(cs2.drop_first()));
            lemma_pod_unique(
                cs1[0],
                cs2[0],
                pods_encoding(cs1.drop_first()),
                pods_encoding(cs2.drop_first()),
            );
            lemma_pods_unique(cs1.drop_first(), cs2.drop_first());
            assert forall|i: int| 0 <= i < cs1.len() implies cs1[i] == cs2[i] by {
                if i > 0 {
                    assert(cs1[i] == cs1.drop_first()[i - 1]);
                    assert(cs2[i] == cs2.drop_first()[i - 1]);
                }
            }
            assert(cs1 =~= cs2);
        }
    }
}


/// One POD value.
pub enum Pod {
    Null,
    Bool(bool),
    Id(u32),
    Int(i32),
    Long(i64),
    Fd(i64),
    /// String bytes without the terminating NUL.
    Str(Vec<u8>),
    Struct(Vec<Pod>),
    /// Any other type with its unpadded body.
    Raw(u32, Vec<u8>),
}

pub open spec fn pod_view(p: Pod) -> PodValue
    decreases p,
{
    match p {
        Pod::Null => PodValue::Null,
        Pod::Bool(b) => PodValue::Bool(b),
        Pod::Id(x) => PodValue::Id(x),
        Pod::Int(x) => PodValue::Int(x),
        Pod::Long(x) => PodValue::Long(x),
        Pod::Fd(x) => PodValue::Fd(x),
        Pod::Str(s) => PodValue::Str(s@),
        Pod::Struct(cs) => PodValue::Struct(pods_view(cs@)),
        Pod::Raw(t, b) => PodValue::Raw(t, b@),
    }
}

pub open spec fn pods_view(cs: Seq<Pod>) -> Seq<PodValue>
    decreases cs,
{
    if cs.len() == 0 {
        Seq::empty()
    } else {
        seq![pod_view(cs[0])] + pods_view(cs.drop_first())
    }
}

impl View for Pod {
    type V = PodValue;

    open spec fn view(&self) -> PodValue {
        pod_view(*self)
    }
}

pub proof fn lemma_pods_view_index(cs: Seq<Pod>)
    ensures
        pods_view(cs).len() == cs.len(),
        forall|i: int| 0 <= i < cs.len() ==> #[trigger] pods_view(cs)[i] == pod_view(cs[i]),
    decreases cs.len(),
{
    if cs.len() > 0 {
        lemma_pods_view_index(cs.drop_first());
        assert forall|i: int| 0 <= i < cs.len() implies #[trigger] pods_view(cs)[i] == pod_view(
            cs[i],
        ) by {
            if i > 0 {
                assert(cs[i] == cs.drop_first()[i - 1]);
            }
        }
    }
}

pub proof fn lemma_pods_view_len(cs: Seq<Pod>)
    ensures
        pods_view(cs).len() == cs.len(),
{
    lemma_pods_view_index(cs);
}

pub proof fn lemma_pods_view_push(cs: Seq<Pod>, p: Pod)
    ensures
        pods_view(cs.push(p)) == pods_view(cs).push(pod_view(p)),
{
    lemma_pods_view_index(cs);
    lemma_pods_view_index(cs.push(p));
    assert(pods_view(cs.push(p)) =~= pods_view(cs).push(pod_view(p)));
}

pub proof fn lemma_pods_encoding_push(cs: Seq<PodValue>, v: PodValue)
    ensures
        pods_encoding(cs.push(v)) == pods_encoding(cs) + pod_encoding(v),
    decreases cs.len(),
{
    if cs.len() == 0 {
        assert(cs.push(v).drop_first() =~= Seq::<PodValue>::empty());
        assert(pods_encoding(cs.push(v)) =~= pods_encoding(cs) + pod_encoding(v));
    } else {
        assert(cs.push(v).drop_first() =~= cs.drop_first().push(v));
        lemma_pods_encoding_push(cs.drop_first(), v);
        assert(pods_encoding(cs.push(v)) =~= pods_encoding(cs) + pod_encoding(v));
    }
}

pub proof fn lemma_pods_wf_push(cs: Seq<PodValue>, v: PodValue)
    requires
        pods_wf(cs),
        pod_wf(v),
    ensures
        pods_wf(cs.push(v)),
    decreases cs.len(),
{
    if cs.len() == 0 {
        assert(cs.push(v).drop_first() =~= Seq::<PodValue>::empty());
    } else {
        assert(cs.push(v).drop_first() =~= cs.drop_first().push(v));
        lemma_pods_wf_push(cs.drop_first(), v);
    }
}

/// A valid encoding of a prefix of values followed by more bytes can only be
/// the encoding of a prefix of the full sequence.
pub proof fn lemma_pods_prefix(ps: Seq<PodValue>, cs: Seq<PodValue>, x: Seq<u8>)
    requires
        pods_wf(ps),
        pods_wf(cs),
        pods_encoding(ps) + x == pods_encoding(cs),
    ensures
        ps.len() <= cs.len(),
        ps == cs.take(ps.len() as int),
        x == pods_encoding(cs.skip(ps.len() as int)),
    decreases ps.len(),
{
    if ps.len() == 0 {
        assert(pods_encoding(ps) + x =~= x);
        assert(cs.skip(0) =~= cs);
        assert(ps =~= cs.take(0));
    } else {
        if cs.len() == 0 {
            lemma_framed_len(pod_type(ps[0]), pod_body(ps[0]));
            assert((pods_encoding(ps) + x).len() >= 8);
        } else {
            assert(pods_encoding(ps) + x =~= pod_encoding(ps[0]) + (pods_encoding(ps.drop_first())
                + x));
            lemma_pod_unique(
                ps[0],
                cs[0],
                pods_encoding(ps.drop_first()) + x,
                pods_encoding(cs.drop_first()),
            );
            lemma_pods_prefix(ps.drop_first(), cs.drop_first(), x);
            assert(cs.drop_first().skip(ps.drop_first().len() as int) =~= cs.skip(
                ps.len() as int,
            ));
            assert forall|i: int| 0 <= i < ps.len() implies ps[i] == cs[i] by {
                if i > 0 {
                    assert(ps[i] == ps.drop_first()[i - 1]);
                    assert(cs.drop_first().take(ps.drop_first().len() as int)[i - 1]
                        == cs.drop_first()[i - 1]);
                }
            }
            assert(ps =~= cs.take(ps.len() as int));
        }
    }
}

/// A deep copy of `p`.
pub fn pod_clone(p: &Pod) -> (r: Pod)
    ensures
        r@ == p@,
    decreases p,
{
    match p {
        Pod::Null => Pod::Null,
        Pod::Bool(b) => Pod::Bool(*b),
        Pod::Id(x) => Pod::Id(*x),
        Pod::Int(x) => Pod::Int(*x),
        Pod::Long(x) => Pod::Long(*x),
        Pod::Fd(x) => Pod::Fd(*x),
        Pod::Str(s) => Pod::Str(slice_to_vec(s.as_slice())),
        Pod::Raw(t, b) => Pod::Raw(*t, slice_to_vec(b.as_slice())),
        Pod::Struct(cs) => {
            let mut out: Vec<Pod> = Vec::new();
            let mut k: usize = 0;
            proof {
                lemma_pods_view_index(cs@);
            }
            while k < cs.len()
                invariant
                    k <= cs@.len(),
                    out@.len() == k,
                    forall|i: int| 0 <= i < k ==> #[trigger] out@[i]@ == cs@[i]@,
                    p == Pod::Struct(*cs),
                decreases cs@.len() - k,
            {
                proof {
                    vstd::std_specs::vec::axiom_vec_index_decreases(*cs, k as int);
                    assert(decreases_to!(*p => (*p)->Struct_0));
                    assert(decreases_to!(*p => cs[k as int]));
                }
                let c = pod_clone(&cs[k]);
                out.push(c);
                k = k + 1;
            }
            proof {
                lemma_pods_view_index(out@);
                lemma_pods_view_index(cs@);
                assert forall|i: int| 0 <= i < cs@.len() implies pods_view(out@)[i] == pods_view(cs@)[i] by {
                    assert(out@[i]@ == cs@[i]@);
                }
                assert(pods_view(out@) =~= pods_view(cs@));
            }
            Pod::Struct(out)
        },
    }
}

impl Clone for Pod {
    fn clone(&self) -> (r: Self)
        ensures
            r@ == self@,
    {
        pod_clone(self)
    }
}

/// The POD could not be decoded.
#[derive(Clone, Copy, Debug, PartialEq, Eq, Structural)]
pub enum PodError {
    /// The bytes are not a canonical encoding of any value.
    Malformed,
    /// The value has no encoding (see [`pod_wf`]).
    Unencodable,
}

pub fn read_u32_at(data: &[u8], pos: usize) -> (r: u32)
    requires
        pos + 4 <= data@.len(),
    ensures
        r == spec_u32_from_le_bytes(data@.subrange(pos as int, pos + 4)),
{
    let _len = data.len();
    u32_from_le_bytes(slice_subrange(data, pos, pos + 4))
}

pub fn read_u64_at(data: &[u8], pos: usize) -> (r: u64)
    requires
        pos + 8 <= data@.len(),
    ensures
        r == spec_u64_from_le_bytes(data@.subrange(pos as int, pos + 8)),
{
    let _len = data.len();
    u64_from_le_bytes(slice_subrange(data, pos, pos + 8))
}


/// `bytes` begins with the encoding of `v`.
pub open spec fn pod_prefix(bytes: Seq<u8>, v: PodValue) -> bool {
    pod_encoding(v).len() <= bytes.len() && bytes.take(pod_encoding(v).len() as int)
        == pod_encoding(v)
}

pub proof fn lemma_pods_wf_skip(cs: Seq<PodValue>, k: int)
    requires
        pods_wf(cs),
        0 <= k <= cs.len(),
    ensures
        pods_wf(cs.skip(k)),
        k < cs.len() ==> pod_wf(cs[k]),
    decreases k,
{
    if k == 0 {
        assert(cs.skip(0) =~= cs);
    } else {
        lemma_pods_wf_skip(cs.drop_first(), k - 1);
        assert(cs.drop_first().skip(k - 1) =~= cs.skip(k));
        if k < cs.len() {
            assert(cs[k] == cs.drop_first()[k - 1]);
        }
    }
}

/// What a valid encoding at `pos` reveals about the bytes there.
pub proof fn lemma_encoding_at(data: Seq<u8>, pos: int, end: int, v: PodValue)
    requires
        0 <= pos <= end <= data.len(),
        pod_wf(v),
        pod_prefix(data.subrange(pos, end), v),
    ensures
        ({
            let l = pod_body(v).len();
            &&& l <= u32::MAX
            &&& end - pos >= 8 + l + pad_len(l)
            &&& spec_u32_from_le_bytes(data.subrange(pos, pos + 4)) == l
            &&& spec_u32_from_le_bytes(data.subrange(pos + 4, pos + 8)) == pod_type(v)
            &&& data.subrange(pos + 8, pos + 8 + l) == pod_body(v)
            &&& forall|i: int|
                pos + 8 + l <= i < pos + 8 + l + pad_len(l) ==> #[trigger] data[i] == 0u8
            &&& data.subrange(pos, pos + 8 + l + pad_len(l)) == pod_encoding(v)
        }),
{
    let l = pod_body(v).len();
    let e = pod_encoding(v);
    let b = data.subrange(pos, end);
    let rest = b.skip(e.len() as int);
    lemma_body_len_bound(v);
    assert(b =~= e + rest);
    lemma_framed_header(pod_type(v), pod_body(v), rest);
    assert(data.subrange(pos, pos + 4) =~= b.subrange(0, 4));
    assert(data.subrange(pos + 4, pos + 8) =~= b.subrange(4, 8));
    assert(data.subrange(pos + 8, pos + 8 + l) =~= b.subrange(8, (8 + l) as int));
    assert forall|i: int| pos + 8 + l <= i < pos + 8 + l + pad_len(l) implies #[trigger] data[i]
        == 0u8 by {
        assert(data[i] == b.subrange((8 + l) as int, (8 + l + pad_len(l)) as int)[i - pos - 8 - l]);
    }
    assert(data.subrange(pos, pos + 8 + l + pad_len(l)) =~= b.subrange(0, e.len() as int));
}

/// Bytes that read as a header, a body and zero padding are the framing of
/// that body.
pub proof fn lemma_framed_at(data: Seq<u8>, pos: int, l: nat, t: u32)
    requires
        0 <= pos,
        pos + 8 + l + pad_len(l) <= data.len(),
        l <= u32::MAX,
        spec_u32_from_le_bytes(data.subrange(pos, pos + 4)) == l,
        spec_u32_from_le_bytes(data.subrange(pos + 4, pos + 8)) == t,
        forall|i: int| pos + 8 + l <= i < pos + 8 + l + pad_len(l) ==> #[trigger] data[i] == 0u8,
    ensures
        data.subrange(pos, pos + 8 + l + pad_len(l)) == framed(t, data.subrange(pos + 8, pos + 8 + l)),
{
    lemma_auto_spec_u32_to_from_le_bytes();
    assert(spec_u32_to_le_bytes(spec_u32_from_le_bytes(data.subrange(pos, pos + 4))) == data.subrange(pos, pos + 4));
    assert(spec_u32_to_le_bytes(spec_u32_from_le_bytes(data.subrange(pos + 4, pos + 8))) == data.subrange(pos + 4, pos + 8));
    let body = data.subrange(pos + 8, pos + 8 + l);
    assert(data.subrange(pos + 8 + l, pos + 8 + l + pad_len(l)) =~= zeros(pad_len(l)));
    assert(data.subrange(pos, pos + 8 + l + pad_len(l)) =~= data.subrange(pos, pos + 4)
        + data.subrange(pos + 4, pos + 8) + body + data.subrange(pos + 8 + l, pos + 8 + l + pad_len(l)));
}

pub proof fn lemma_le32_of_read(b: Seq<u8>)
    requires
        b.len() == 4,
    ensures
        le32(spec_u32_from_le_bytes(b)) == b,
{
    lemma_auto_spec_u32_to_from_le_bytes();
}

pub proof fn lemma_le64_of_read(b: Seq<u8>)
    requires
        b.len() == 8,
    ensures
        le64(spec_u64_from_le_bytes(b)) == b,
{
    lemma_auto_spec_u64_to_from_le_bytes();
}


/// No valid encoding starts at `pos` within `end`.
pub open spec fn no_pod_at(data: Seq<u8>, pos: int, end: int) -> bool {
    forall|v: PodValue| pod_wf(v) ==> !#[trigger] pod_prefix(data.subrange(pos, end), v)
}

/// Decodes the one value whose canonical encoding starts at `pos` and ends
/// at or before `end`.
pub fn parse_pod(data: &[u8], pos: usize, end: usize) -> (r: Result<(Pod, usize), PodError>)
    requires
        pos <= end <= data@.len(),
    ensures
        match r {
            Ok((p, next)) => {
                &&& pos < next <= end
                &&& pod_wf(p@)
                &&& data@.subrange(pos as int, next as int) == pod_encoding(p@)
            },
            Err(e) => e == PodError::Malformed && no_pod_at(data@, pos as int, end as int),
        },
    decreases end - pos,
{
    let ghost d = data@;
    if end - pos < 8 {
        proof {
            assert forall|v: PodValue| pod_wf(v) implies !#[trigger] pod_prefix(
                d.subrange(pos as int, end as int),
                v,
            ) by {
                if pod_prefix(d.subrange(pos as int, end as int), v) {
                    lemma_encoding_at(d, pos as int, end as int, v);
                }
            }
        }
        return Err(PodError::Malformed);
    }
    let size = read_u32_at(data, pos);
    let ty = read_u32_at(data, pos + 4);
    let body_start = pos + 8;
    let l = size as usize;
    let pad = (8 - l % 8) % 8;
    if l > end - body_start || pad > end - body_start - l {
        proof {
            assert forall|v: PodValue| pod_wf(v) implies !#[trigger] pod_prefix(
                d.subrange(pos as int, end as int),
                v,
            ) by {
                if pod_prefix(d.subrange(pos as int, end as int), v) {
                    lemma_encoding_at(d, pos as int, end as int, v);
                }
            }
        }
        return Err(PodError::Malformed);
    }
    let body_end = body_start + l;
    let next = body_end + pad;
    assert(pad == pad_len(l as nat));
    let mut i = body_end;
    while i < next
        invariant
            body_end <= i <= next <= end <= data@.len(),
            d == data@,
            pad == pad_len(l as nat),
            next == body_end + pad,
            pos + 8 == body_start,
            body_end == body_start + l,
            l == size as usize,
            spec_u32_from_le_bytes(d.subrange(pos as int, pos + 4)) == size,
            spec_u32_from_le_bytes(d.subrange(pos + 4, pos + 8)) == ty,
            forall|j: int| body_end <= j < i ==> #[trigger] d[j] == 0u8,
        decreases next - i,
    {
        if data[i] != 0 {
            proof {
                assert forall|v: PodValue| pod_wf(v) implies !#[trigger] pod_prefix(
                    d.subrange(pos as int, end as int),
                    v,
                ) by {
                    if pod_prefix(d.subrange(pos as int, end as int), v) {
                        lemma_encoding_at(d, pos as int, end as int, v);
                        assert(d[i as int] == 0u8);
                    }
                }
            }
            return Err(PodError::Malformed);
        }
        i = i + 1;
    }
    proof {
        lemma_framed_at(d, pos as int, l as nat, ty);
        lemma_le32_roundtrip(0);
        lemma_le32_roundtrip(1);
    }
    let ghost body = d.subrange(body_start as int, body_end as int);
    if ty == TYPE_NONE || ty == TYPE_BOOL || ty == TYPE_ID || ty == TYPE_INT {
        let expected: usize = if ty == TYPE_NONE { 0 } else { 4 };
        if l != expected {
            proof {
                assert forall|v: PodValue| pod_wf(v) implies !#[trigger] pod_prefix(
                    d.subrange(pos as int, end as int),
                    v,
                ) by {
                    if pod_prefix(d.subrange(pos as int, end as int), v) {
                        lemma_encoding_at(d, pos as int, end as int, v);
                        match v {
                            PodValue::Bool(b) => lemma_le32_roundtrip(if b { 1u32 } else { 0u32 }),
                            PodValue::Id(x) => lemma_le32_roundtrip(x),
                            PodValue::Int(x) => lemma_le32_roundtrip(x as u32),
                            _ => {},
                        }
                    }
                }
            }
            return Err(PodError::Malformed);
        }
        if ty == TYPE_NONE {
            assert(body =~= Seq::<u8>::empty());
            return Ok((Pod::Null, next));
        }
        let value = read_u32_at(data, body_start);
        proof {
            lemma_le32_of_read(body);
        }
        if ty == TYPE_BOOL {
            if value > 1 {
                proof {
                    assert forall|v: PodValue| pod_wf(v) implies !#[trigger] pod_prefix(
                        d.subrange(pos as int, end as int),
                        v,
                    ) by {
                        if pod_prefix(d.subrange(pos as int, end as int), v) {
                            lemma_encoding_at(d, pos as int, end as int, v);
                        }
                    }
                }
                return Err(PodError::Malformed);
            }
            return Ok((Pod::Bool(value == 1), next));
        }
        if ty == TYPE_ID {
            return Ok((Pod::Id(value), next));
        }
        let x = #[verifier::truncate] (value as i32);
        assert(x as u32 == value) by (bit_vector)
            requires
                x == value as i32,
        ;
        return Ok((Pod::Int(x), next));
    }
    if ty == TYPE_LONG || ty == TYPE_FD {
        if l != 8 {
            proof {
                assert forall|v: PodValue| pod_wf(v) implies !#[trigger] pod_prefix(
                    d.subrange(pos as int, end as int),
                    v,
                ) by {
                    if pod_prefix(d.subrange(pos as int, end as int), v) {
                        lemma_encoding_at(d, pos as int, end as int, v);
                        match v {
                            PodValue::Long(x) => lemma_le64_roundtrip(x as u64),
                            PodValue::Fd(x) => lemma_le64_roundtrip(x as u64),
                            _ => {},
                        }
                    }
                }
            }
            return Err(PodError::Malformed);
        }
        let value = read_u64_at(data, body_start);
        proof {
            lemma_le64_of_read(body);
        }
        let x = #[verifier::truncate] (value as i64);
        assert(x as u64 == value) by (bit_vector)
            requires
                x == value as i64,
        ;
        if ty == TYPE_LONG {
            return Ok((Pod::Long(x), next));
        }
        return Ok((Pod::Fd(x), next));
    }
    if ty == TYPE_STRING {
        if l == 0 || data[body_end - 1] != 0 {
            proof {
                assert forall|v: PodValue| pod_wf(v) implies !#[trigger] pod_prefix(
                    d.subrange(pos as int, end as int),
                    v,
                ) by {
                    if pod_prefix(d.subrange(pos as int, end as int), v) {
                        lemma_encoding_at(d, pos as int, end as int, v);
                        if let PodValue::Str(s) = v {
                            assert(body[l - 1] == s.push(0u8)[l - 1]);
                        }
                    }
                }
            }
            return Err(PodError::Malformed);
        }
        let mut k = body_start;
        while k < body_end - 1
            invariant
                body_start <= k <= body_end - 1,
                body_end <= next <= end <= data@.len(),
                d == data@,
                ty == TYPE_STRING,
                pad == pad_len(l as nat),
                next == body_end + pad,
                body == d.subrange(body_start as int, body_end as int),
                pos + 8 == body_start,
                body_end == body_start + l,
                l == size as usize,
                spec_u32_from_le_bytes(d.subrange(pos as int, pos + 4)) == size,
                spec_u32_from_le_bytes(d.subrange(pos + 4, pos + 8)) == ty,
                forall|j: int| body_start <= j < k ==> #[trigger] d[j] != 0u8,
            decreases body_end - 1 - k,
        {
            if data[k] == 0 {
                proof {
                    assert forall|v: PodValue| pod_wf(v) implies !#[trigger] pod_prefix(
                        d.subrange(pos as int, end as int),
                        v,
                    ) by {
                        if pod_prefix(d.subrange(pos as int, end as int), v) {
                            lemma_encoding_at(d, pos as int, end as int, v);
                            if let PodValue::Str(s) = v {
                                assert(s[k - body_start] == body[k - body_start]);
                                assert(s.contains(0u8));
                            }
                        }
                    }
                }
                return Err(PodError::Malformed);
            }
            k = k + 1;
        }
        let bytes = slice_to_vec(slice_subrange(data, body_start, body_end - 1));
        proof {
            assert(body =~= bytes@.push(0u8));
            if bytes@.contains(0u8) {
                let j = choose|j: int| 0 <= j < bytes@.len() && bytes@[j] == 0u8;
                assert(d[body_start + j] == bytes@[j]);
            }
        }
        return Ok((Pod::Str(bytes), next));
    }
    if ty == TYPE_STRUCT {
        let mut children: Vec<Pod> = Vec::new();
        let mut cur = body_start;
        while cur < body_end
            invariant
                pos + 8 == body_start <= cur <= body_end <= end <= data@.len(),
                d == data@,
                l == body_end - body_start,
                pods_wf(pods_view(children@)),
                d.subrange(body_start as int, cur as int) == pods_encoding(pods_view(children@)),
                ty == TYPE_STRUCT,
                pad == pad_len(l as nat),
                next == body_end + pad,
                                body_end == body_start + l,
                l == size as usize,
                spec_u32_from_le_bytes(d.subrange(pos as int, pos + 4)) == size,
                spec_u32_from_le_bytes(d.subrange(pos + 4, pos + 8)) == ty,
            decreases body_end - cur,
        {
            match parse_pod(data, cur, body_end) {
                Ok((c, n)) => {
                    proof {
                        lemma_pods_view_push(children@, c);
                        lemma_pods_encoding_push(pods_view(children@), pod_view(c));
                        lemma_pods_wf_push(pods_view(children@), pod_view(c));
                        assert(d.subrange(body_start as int, n as int) =~= d.subrange(
                            body_start as int,
                            cur as int,
                        ) + d.subrange(cur as int, n as int));
                    }
                    children.push(c);
                    cur = n;
                },
                Err(e) => {
                    proof {
                        let ps = pods_view(children@);
                        assert forall|v: PodValue| pod_wf(v) implies !#[trigger] pod_prefix(
                            d.subrange(pos as int, end as int),
                            v,
                        ) by {
                            if pod_prefix(d.subrange(pos as int, end as int), v) {
                                lemma_encoding_at(d, pos as int, end as int, v);
                                if let PodValue::Struct(cs) = v {
                                    let x = d.subrange(cur as int, body_end as int);
                                    assert(ps.len() == 0 || true);
                                    assert(pods_encoding(ps) + x =~= d.subrange(
                                        body_start as int,
                                        body_end as int,
                                    ));
                                    lemma_pods_prefix(ps, cs, x);
                                    let k = ps.len() as int;
                                    lemma_pods_wf_skip(cs, k);
                                    let tail = cs.skip(k);
                                    assert(tail.len() > 0);
                                    assert(tail[0] == cs[k]);
                                    assert(x == pod_encoding(cs[k]) + pods_encoding(
                                        tail.drop_first(),
                                    ));
                                    assert(pod_prefix(x, cs[k]));
                                }
                            }
                        }
                    }
                    return Err(PodError::Malformed);
                },
            }
        }
        assert(cur == body_end);
        return Ok((Pod::Struct(children), next));
    }
    let bytes = slice_to_vec(slice_subrange(data, body_start, body_end));
    proof {
        if is_structured_type(ty) {
            assert(false);
        }
    }
    Ok((Pod::Raw(ty, bytes), next))
}


/// Appends the little-endian bytes of `x`.
pub fn push_u32(out: &mut Vec<u8>, x: u32)
    ensures
        final(out)@ == old(out)@ + le32(x),
{
    let mut b = u32_to_le_bytes(x);
    out.append(&mut b);
}

/// Appends the little-endian bytes of `x`.
pub fn push_u64(out: &mut Vec<u8>, x: u64)
    ensures
        final(out)@ == old(out)@ + le64(x),
{
    let mut b = u64_to_le_bytes(x);
    out.append(&mut b);
}

/// Appends `n` zero bytes.
pub fn push_zeros(out: &mut Vec<u8>, n: usize)
    ensures
        final(out)@ == old(out)@ + zeros(n as nat),
{
    let ghost start = out@;
    let mut i: usize = 0;
    while i < n
        invariant
            i <= n,
            out@ == start + zeros(i as nat),
        decreases n - i,
    {
        out.push(0u8);
        i = i + 1;
        assert(out@ =~= start + zeros(i as nat));
    }
}

/// Appends the framing of `body` under type `t`.
pub fn push_framed(out: &mut Vec<u8>, t: u32, body: &[u8])
    requires
        body@.len() <= u32::MAX,
    ensures
        final(out)@ == old(out)@ + framed(t, body@),
{
    let ghost start = out@;
    let l = body.len();
    push_u32(out, l as u32);
    push_u32(out, t);
    let mut b = slice_to_vec(body);
    out.append(&mut b);
    push_zeros(out, (8 - l % 8) % 8);
    assert(out@ =~= start + framed(t, body@));
}

/// Appends the encoding of `p`; fails, leaving `out` unchanged, exactly when
/// `p` has no encoding.
pub fn encode_pod(p: &Pod, out: &mut Vec<u8>) -> (r: Result<(), PodError>)
    ensures
        r is Ok <==> pod_wf(p@),
        r is Ok ==> final(out)@ == old(out)@ + pod_encoding(p@),
        r is Err ==> r == Err::<(), PodError>(PodError::Unencodable) && final(out)@ == old(out)@,
    decreases p,
{
    proof {
        lemma_le32_roundtrip(0);
        lemma_le32_roundtrip(1);
    }
    match p {
        Pod::Null => {
            let empty: Vec<u8> = Vec::new();
            push_framed(out, TYPE_NONE, empty.as_slice());
            assert(empty@ =~= pod_body(p@));
            Ok(())
        },
        Pod::Bool(b) => {
            let mut body: Vec<u8> = Vec::new();
            push_u32(&mut body, if *b { 1 } else { 0 });
            push_framed(out, TYPE_BOOL, body.as_slice());
            Ok(())
        },
        Pod::Id(x) => {
            let mut body: Vec<u8> = Vec::new();
            push_u32(&mut body, *x);
            proof { lemma_le32_roundtrip(*x); }
            push_framed(out, TYPE_ID, body.as_slice());
            Ok(())
        },
        Pod::Int(x) => {
            let mut body: Vec<u8> = Vec::new();
            push_u32(&mut body, *x as u32);
            proof { lemma_le32_roundtrip(*x as u32); }
            push_framed(out, TYPE_INT, body.as_slice());
            Ok(())
        },
        Pod::Long(x) => {
            let mut body: Vec<u8> = Vec::new();
            push_u64(&mut body, *x as u64);
            proof { lemma_le64_roundtrip(*x as u64); }
            push_framed(out, TYPE_LONG, body.as_slice());
            Ok(())
        },
        Pod::Fd(x) => {
            let mut body: Vec<u8> = Vec::new();
            push_u64(&mut body, *x as u64);
            proof { lemma_le64_roundtrip(*x as u64); }
            push_framed(out, TYPE_FD, body.as_slice());
            Ok(())
        },
        Pod::Str(s) => {
            let n = s.len();
            if n >= u32::MAX as usize {
                return Err(PodError::Unencodable);
            }
            let mut k: usize = 0;
            while k < n
                invariant
                    k <= n == s@.len(),
                    p == Pod::Str(*s),
                    forall|j: int| 0 <= j < k ==> s@[j] != 0u8,
                decreases n - k,
            {
                if s[k] == 0 {
                    assert(s@.contains(0u8));
                    return Err(PodError::Unencodable);
                }
                k = k + 1;
            }
            let mut body: Vec<u8> = Vec::new();
            let mut copy = s.clone();
            body.append(&mut copy);
            body.push(0u8);
            assert(body@ =~= s@.push(0u8));
            push_framed(out, TYPE_STRING, body.as_slice());
            Ok(())
        },
        Pod::Struct(cs) => {
            let mut body: Vec<u8> = Vec::new();
            let mut k: usize = 0;
            proof {
                lemma_pods_view_index(cs@);
            }
            while k < cs.len()
                invariant
                    k <= cs@.len(),
                    pods_view(cs@).len() == cs@.len(),
                    forall|i: int| 0 <= i < cs@.len() ==> #[trigger] pods_view(cs@)[i] == pod_view(cs@[i]),
                    pods_wf(pods_view(cs@).take(k as int)),
                    body@ == pods_encoding(pods_view(cs@).take(k as int)),
                    p == Pod::Struct(*cs),
                decreases cs@.len() - k,
            {
                proof {
                    vstd::std_specs::vec::axiom_vec_index_decreases(*cs, k as int);
                    assert(decreases_to!(*p => (*p)->Struct_0));
                    assert(decreases_to!(*p => *cs));
                    assert(decreases_to!(*cs => cs[k as int]));
                    assert(decreases_to!(*p => cs[k as int]));
                }
                match encode_pod(&cs[k], &mut body) {
                    Ok(()) => {
                        proof {
                            let ps = pods_view(cs@);
                            assert(ps.take(k + 1) =~= ps.take(k as int).push(ps[k as int]));
                            lemma_pods_encoding_push(ps.take(k as int), ps[k as int]);
                            lemma_pods_wf_push(ps.take(k as int), ps[k as int]);
                        }
                        k = k + 1;
                    },
                    Err(e) => {
                        proof {
                            let ps = pods_view(cs@);
                            if pods_wf(ps) {
                                lemma_pods_wf_skip(ps, k as int);
                            }
                        }
                        return Err(PodError::Unencodable);
                    },
                }
            }
            assert(pods_view(cs@).take(k as int) =~= pods_view(cs@));
            if body.len() > u32::MAX as usize {
                return Err(PodError::Unencodable);
            }
            push_framed(out, TYPE_STRUCT, body.as_slice());
            Ok(())
        },
        Pod::Raw(t, b) => {
            let t = *t;
            if t == TYPE_NONE || t == TYPE_BOOL || t == TYPE_ID || t == TYPE_INT || t == TYPE_LONG
                || t == TYPE_STRING || t == TYPE_STRUCT || t == TYPE_FD || b.len() > u32::MAX as usize {
                return Err(PodError::Unencodable);
            }
            push_framed(out, t, b.as_slice());
            Ok(())
        },
    }
}


/// Decoding inverts encoding: two valid values with the same encoding are
/// the same value.
pub proof fn law_pod_encoding_injective(v1: PodValue, v2: PodValue)
    requires
        pod_wf(v1),
        pod_wf(v2),
        pod_encoding(v1) == pod_encoding(v2),
    ensures
        v1 == v2,
{
    lemma_pod_unique(v1, v2, Seq::empty(), Seq::empty());
}

/// Decodes a buffer that holds exactly one canonically encoded value.
pub fn decode_pod(data: &[u8]) -> (r: Result<Pod, PodError>)
    ensures
        match r {
            Ok(p) => pod_wf(p@) && data@ == pod_encoding(p@),
            Err(e) => e == PodError::Malformed && forall|v: PodValue|
                pod_wf(v) ==> data@ != #[trigger] pod_encoding(v),
        },
        forall|v: PodValue|
            pod_wf(v) && data@ == #[trigger] pod_encoding(v) ==> r is Ok && r->Ok_0@ == v,
{
    let n = data.len();
    match parse_pod(data, 0, n) {
        Ok((p, next)) => {
            if next != n {
                proof {
                    assert forall|v: PodValue| pod_wf(v) implies data@ != #[trigger] pod_encoding(
                        v,
                    ) by {
                        if data@ == pod_encoding(v) {
                            assert(data@.subrange(0, next as int) + data@.subrange(next as int, n as int) =~= pod_encoding(v) + Seq::empty());
                            lemma_pod_unique(p@, v, data@.subrange(next as int, n as int), Seq::empty());
                        }
                    }
                }
                return Err(PodError::Malformed);
            }
            assert(data@.subrange(0, n as int) =~= data@);
            proof {
                assert forall|v: PodValue| pod_wf(v) && data@ == #[trigger] pod_encoding(v) implies p@ == v by {
                    law_pod_encoding_injective(p@, v);
                }
            }
            Ok(p)
        },
        Err(e) => {
            proof {
                assert forall|v: PodValue| pod_wf(v) implies data@ != #[trigger] pod_encoding(v) by {
                    if data@ == pod_encoding(v) {
                        assert(data@.subrange(0, n as int) =~= data@);
                        assert(pod_prefix(data@.subrange(0, n as int), v));
                    }
                }
            }
            Err(e)
        },
    }
}

/// The encoding of `p` as a new buffer; fails exactly when `p` has none.
pub fn encode_pod_to_vec(p: &Pod) -> (r: Result<Vec<u8>, PodError>)
    ensures
        r is Ok <==> pod_wf(p@),
        r matches Ok(bytes) ==> bytes@ == pod_encoding(p@),
        r is Err ==> r == Err::<Vec<u8>, PodError>(PodError::Unencodable),
{
    let mut out: Vec<u8> = Vec::new();
    match encode_pod(p, &mut out) {
        Ok(()) => {
            assert(out@ =~= pod_encoding(p@));
            Ok(out)
        },
        Err(e) => Err(e),
    }
}

} // verus!
