//! Messages of the native protocol are one POD Struct whose fields are read
//! and written in order. This module builds and reads such field lists.

use vstd::prelude::*;
use vstd::utf8::*;

use crate::pod::{lemma_framed_len, lemma_le32_roundtrip, lemma_le64_roundtrip, pods_encoding, pods_wf, pod_body, pod_type, TYPE_OBJECT, decode_pod, encode_pod_to_vec, lemma_pods_view_index, lemma_pods_view_push, pod_clone, pod_encoding, pod_wf, pods_view, Pod, PodError, PodValue};

verus! {

broadcast use vstd::seq_lib::group_seq_properties;

/// An unsigned 32-bit field, carried in an Int POD.
pub open spec fn int_of(x: u32) -> PodValue {
    PodValue::Int(x as i32)
}

/// An unsigned 64-bit field, carried in a Long POD.
pub open spec fn long_of(x: u64) -> PodValue {
    PodValue::Long(x as i64)
}

/// A repetition count, carried in an Int POD.
pub open spec fn count_of(n: nat) -> PodValue {
    PodValue::Int(n as i32)
}

/// A string field: its UTF-8 bytes.
pub open spec fn str_of(s: Seq<char>) -> PodValue {
    PodValue::Str(encode_utf8(s))
}

/// The encoding of the message struct with these fields.
pub open spec fn struct_payload(fs: Seq<PodValue>) -> Seq<u8> {
    pod_encoding(PodValue::Struct(fs))
}

/// A field list that has an encoding.
pub open spec fn struct_wf(fs: Seq<PodValue>) -> bool {
    pod_wf(PodValue::Struct(fs))
}

/// The fields of a struct child list.
pub open spec fn fields(cs: Seq<Pod>) -> Seq<PodValue> {
    pods_view(cs)
}

pub proof fn lemma_flat_map_empty<A, B>(s: Seq<A>, f: spec_fn(A) -> Seq<B>)
    requires
        s.len() == 0,
    ensures
        s.flat_map(f) == Seq::<B>::empty(),
{
    assert(s.map_values(f) =~= Seq::<Seq<B>>::empty());
}

pub proof fn lemma_flat_map_push<A, B>(s: Seq<A>, x: A, f: spec_fn(A) -> Seq<B>)
    ensures
        s.push(x).flat_map(f) == s.flat_map(f) + f(x),
{
    assert(s.push(x).map_values(f) =~= s.map_values(f).push(f(x)));
    s.map_values(f).lemma_flatten_push(f(x));
}

/// Peeling the first item off the remaining items of a flattened list.
pub proof fn lemma_flat_map_skip<A, B>(s: Seq<A>, k: int, f: spec_fn(A) -> Seq<B>)
    requires
        0 <= k < s.len(),
    ensures
        s.skip(k).flat_map(f) == f(s[k]) + s.skip(k + 1).flat_map(f),
{
    let m = s.skip(k).map_values(f);
    assert(m.drop_first() =~= s.skip(k + 1).map_values(f));
    assert(m.first() == f(s[k]));
}

pub proof fn lemma_flat_map_all<A, B>(s: Seq<A>, f: spec_fn(A) -> Seq<B>)
    ensures
        s.skip(0).flat_map(f) == s.flat_map(f),
        s.skip(s.len() as int).flat_map(f) == Seq::<B>::empty(),
        s.take(0).flat_map(f) == Seq::<B>::empty(),
{
    assert(s.skip(0) =~= s);
    lemma_flat_map_empty(s.skip(s.len() as int), f);
    lemma_flat_map_empty(s.take(0), f);
}

pub proof fn lemma_u32_i32(x: u32)
    ensures
        (x as i32) as u32 == x,
{
    assert((x as i32) as u32 == x) by (bit_vector);
}

pub proof fn lemma_i32_u32(v: i32)
    ensures
        (v as u32) as i32 == v,
{
    assert((v as u32) as i32 == v) by (bit_vector);
}

pub proof fn lemma_u64_i64(x: u64)
    ensures
        (x as i64) as u64 == x,
{
    assert((x as i64) as u64 == x) by (bit_vector);
}

pub proof fn lemma_i64_u64(v: i64)
    ensures
        (v as u64) as i64 == v,
{
    assert((v as u64) as i64 == v) by (bit_vector);
}

pub fn push_u64_field(out: &mut Vec<Pod>, x: u64)
    ensures
        fields(final(out)@) == fields(old(out)@).push(long_of(x)),
{
    #[verifier::truncate]
    let v = x as i64;
    push_field(out, Pod::Long(v));
}

/// A field whose encoding takes sixteen bytes: a scalar, or an eight-byte
/// object.
pub open spec fn small_field(v: PodValue) -> bool {
    match v {
        PodValue::Null | PodValue::Str(_) | PodValue::Struct(_) => false,
        PodValue::Raw(t, b) => t == TYPE_OBJECT && b.len() == 8,
        _ => true,
    }
}

proof fn lemma_small_field(v: PodValue)
    requires
        small_field(v),
    ensures
        pod_wf(v),
        pod_encoding(v).len() == 16,
{
    match v {
        PodValue::Bool(b) => lemma_le32_roundtrip(if b { 1u32 } else { 0u32 }),
        PodValue::Id(x) => lemma_le32_roundtrip(x),
        PodValue::Int(x) => lemma_le32_roundtrip(x as u32),
        PodValue::Long(x) => lemma_le64_roundtrip(x as u64),
        PodValue::Fd(x) => lemma_le64_roundtrip(x as u64),
        _ => {},
    }
    lemma_framed_len(pod_type(v), pod_body(v));
}

proof fn lemma_small_fields(fs: Seq<PodValue>)
    requires
        forall|i: int| 0 <= i < fs.len() ==> small_field(#[trigger] fs[i]),
    ensures
        pods_wf(fs),
        pods_encoding(fs).len() == 16 * fs.len(),
    decreases fs.len(),
{
    if fs.len() > 0 {
        lemma_small_field(fs[0]);
        assert forall|i: int| 0 <= i < fs.drop_first().len() implies small_field(
            #[trigger] fs.drop_first()[i],
        ) by {
            assert(fs.drop_first()[i] == fs[i + 1]);
        }
        lemma_small_fields(fs.drop_first());
    }
}

/// A short list of sixteen-byte fields has an encoding.
pub proof fn lemma_flat_fields_wf(fs: Seq<PodValue>)
    requires
        fs.len() <= 16,
        forall|i: int| 0 <= i < fs.len() ==> small_field(#[trigger] fs[i]),
    ensures
        struct_wf(fs),
{
    lemma_small_fields(fs);
}

/// Appends one field.
pub fn push_field(out: &mut Vec<Pod>, p: Pod)
    ensures
        fields(final(out)@) == fields(old(out)@).push(p@),
{
    proof {
        lemma_pods_view_push(out@, p);
    }
    out.push(p);
}

pub fn push_u32_field(out: &mut Vec<Pod>, x: u32)
    ensures
        fields(final(out)@) == fields(old(out)@).push(int_of(x)),
{
    #[verifier::truncate]
    let v = x as i32;
    push_field(out, Pod::Int(v));
}

pub fn push_count_field(out: &mut Vec<Pod>, n: usize)
    ensures
        fields(final(out)@) == fields(old(out)@).push(count_of(n as nat)),
{
    #[verifier::truncate]
    let v = n as i32;
    assert(v == (n as nat) as i32);
    push_field(out, Pod::Int(v));
}

pub fn push_str_field(out: &mut Vec<Pod>, s: &String)
    ensures
        fields(final(out)@) == fields(old(out)@).push(str_of(s@)),
{
    let bytes = s.as_str().as_bytes();
    push_field(out, Pod::Str(vstd::slice::slice_to_vec(bytes)));
}

pub fn push_text_field(out: &mut Vec<Pod>, s: &str)
    ensures
        fields(final(out)@) == fields(old(out)@).push(str_of(s@)),
{
    let bytes = s.as_bytes();
    push_field(out, Pod::Str(vstd::slice::slice_to_vec(bytes)));
}

pub fn push_i32_field(out: &mut Vec<Pod>, x: i32)
    ensures
        fields(final(out)@) == fields(old(out)@).push(PodValue::Int(x)),
{
    push_field(out, Pod::Int(x));
}

/// Encodes the struct with the given fields; fails exactly when it has no
/// encoding.
pub fn encode_fields(cs: Vec<Pod>) -> (r: Result<Vec<u8>, PodError>)
    ensures
        r is Ok <==> struct_wf(fields(cs@)),
        r matches Ok(b) ==> b@ == struct_payload(fields(cs@)),
{
    let p = Pod::Struct(cs);
    encode_pod_to_vec(&p)
}

/// The fields of the struct that `payload` encodes, if it encodes a struct.
pub fn decode_fields(payload: &[u8]) -> (r: Option<Vec<Pod>>)
    ensures
        r matches Some(cs) ==> struct_wf(fields(cs@)) && payload@ == struct_payload(fields(cs@)),
        forall|fs: Seq<PodValue>|
            struct_wf(fs) && payload@ == #[trigger] struct_payload(fs) ==> (r matches Some(cs)
                && fields(cs@) == fs),
{
    match decode_pod(payload) {
        Ok(Pod::Struct(cs)) => Some(cs),
        Ok(p) => {
            proof {
                assert forall|fs: Seq<PodValue>|
                    struct_wf(fs) && payload@ == #[trigger] struct_payload(fs) implies false by {
                    assert(p@ == PodValue::Struct(fs));
                }
            }
            None
        },
        Err(_) => None,
    }
}

/// The field at `pos`, if there is one.
pub open spec fn field(cs: Seq<Pod>, pos: int) -> Option<PodValue> {
    if 0 <= pos < cs.len() {
        Some(fields(cs)[pos])
    } else {
        None
    }
}

pub proof fn lemma_field(cs: Seq<Pod>, pos: int)
    requires
        0 <= pos < cs.len(),
    ensures
        field(cs, pos) == Some(cs[pos]@),
{
    lemma_pods_view_index(cs);
}

pub fn u32_at(cs: &Vec<Pod>, pos: usize) -> (r: Option<u32>)
    ensures
        r matches Some(x) ==> field(cs@, pos as int) == Some(int_of(x)),
        forall|x: u32| field(cs@, pos as int) == Some(int_of(x)) ==> r == Some(x),
{
    if pos < cs.len() {
        proof {
            lemma_field(cs@, pos as int);
        }
        match &cs[pos] {
            Pod::Int(v) => {
                #[verifier::truncate]
                let x = *v as u32;
                proof {
                    lemma_i32_u32(*v);
                    assert forall|y: u32| field(cs@, pos as int) == Some(int_of(y)) implies x == y by {
                        lemma_u32_i32(y);
                    }
                }
                Some(x)
            },
            _ => None,
        }
    } else {
        None
    }
}

pub fn id_at(cs: &Vec<Pod>, pos: usize) -> (r: Option<u32>)
    ensures
        r matches Some(x) ==> field(cs@, pos as int) == Some(PodValue::Id(x)),
        forall|x: u32| field(cs@, pos as int) == Some(PodValue::Id(x)) ==> r == Some(x),
{
    if pos < cs.len() {
        proof {
            lemma_field(cs@, pos as int);
        }
        match &cs[pos] {
            Pod::Id(v) => Some(*v),
            _ => None,
        }
    } else {
        None
    }
}

pub fn u64_at(cs: &Vec<Pod>, pos: usize) -> (r: Option<u64>)
    ensures
        r matches Some(x) ==> field(cs@, pos as int) == Some(long_of(x)),
        forall|x: u64| field(cs@, pos as int) == Some(#[trigger] long_of(x)) ==> r == Some(x),
{
    if pos < cs.len() {
        proof {
            lemma_field(cs@, pos as int);
        }
        match &cs[pos] {
            Pod::Long(v) => {
                #[verifier::truncate]
                let x = *v as u64;
                proof {
                    lemma_i64_u64(*v);
                    assert forall|y: u64|
                        field(cs@, pos as int) == Some(#[trigger] long_of(y)) implies x == y by {
                        lemma_u64_i64(y);
                    }
                }
                Some(x)
            },
            _ => None,
        }
    } else {
        None
    }
}

pub fn bool_at(cs: &Vec<Pod>, pos: usize) -> (r: Option<bool>)
    ensures
        r matches Some(x) ==> field(cs@, pos as int) == Some(PodValue::Bool(x)),
        forall|x: bool| field(cs@, pos as int) == Some(PodValue::Bool(x)) ==> r == Some(x),
{
    if pos < cs.len() {
        proof {
            lemma_field(cs@, pos as int);
        }
        match &cs[pos] {
            Pod::Bool(v) => Some(*v),
            _ => None,
        }
    } else {
        None
    }
}

/// A repetition count no larger than `max`.
pub fn count_at(cs: &Vec<Pod>, pos: usize, max: usize) -> (r: Option<usize>)
    ensures
        r matches Some(n) ==> field(cs@, pos as int) == Some(count_of(n as nat)) && n <= max && n
            <= i32::MAX,
        forall|n: nat|
            n <= max && n <= i32::MAX && field(cs@, pos as int) == Some(#[trigger] count_of(n))
                ==> r == Some(n as usize),
{
    if pos < cs.len() {
        proof {
            lemma_field(cs@, pos as int);
        }
        match &cs[pos] {
            Pod::Int(v) => {
                let v = *v;
                if v < 0 {
                    proof {
                        assert forall|n: nat|
                            n <= max && n <= i32::MAX && field(cs@, pos as int) == Some(
                                #[trigger] count_of(n),
                            ) implies false by {
                            assert((n as i32) == n);
                        }
                    }
                    return None;
                }
                let n = v as usize;
                if n > max {
                    proof {
                        assert forall|m: nat|
                            m <= max && m <= i32::MAX && field(cs@, pos as int) == Some(
                                #[trigger] count_of(m),
                            ) implies false by {
                            assert((m as i32) == m);
                        }
                    }
                    return None;
                }
                proof {
                    assert((n as nat) as i32 == v);
                    assert forall|m: nat|
                        m <= max && m <= i32::MAX && field(cs@, pos as int) == Some(
                            #[trigger] count_of(m),
                        ) implies Some(n) == Some(m as usize) by {
                        assert((m as i32) == m);
                    }
                }
                Some(n)
            },
            _ => None,
        }
    } else {
        None
    }
}

/// A descriptor index: an Fd POD holding a non-negative 32-bit value.
pub open spec fn fd_of(i: u32) -> PodValue {
    PodValue::Fd((i as i32) as i64)
}

/// A descriptor index no larger than `i32::MAX`.
pub fn fd_index_at(cs: &Vec<Pod>, pos: usize) -> (r: Option<u32>)
    ensures
        r matches Some(i) ==> field(cs@, pos as int) == Some(fd_of(i)) && i <= i32::MAX,
        forall|i: u32| i <= i32::MAX && field(cs@, pos as int) == Some(#[trigger] fd_of(i)) ==> r == Some(i),
{
    if pos < cs.len() {
        proof {
            lemma_field(cs@, pos as int);
        }
        match &cs[pos] {
            Pod::Fd(v) => {
                let v = *v;
                if v < 0 || v > 0x7fff_ffff {
                    proof {
                        assert forall|i: u32|
                            i <= i32::MAX && field(cs@, pos as int) == Some(
                                #[trigger] fd_of(i),
                            ) implies false by {
                            assert((i as i32) as i64 == i);
                        }
                    }
                    return None;
                }
                let i = v as u32;
                proof {
                    assert((i as i32) as i64 == v);
                    assert forall|j: u32|
                        j <= i32::MAX && field(cs@, pos as int) == Some(
                            #[trigger] fd_of(j),
                        ) implies Some(i) == Some(j) by {
                        assert((j as i32) as i64 == j);
                    }
                }
                Some(i)
            },
            _ => None,
        }
    } else {
        None
    }
}

/// `String::from_utf8`: the bytes as a string exactly when they are UTF-8.
#[verifier::external_body]
fn string_from_utf8(bytes: Vec<u8>) -> (r: Option<String>)
    ensures
        r is Some <==> valid_utf8(bytes@),
        r matches Some(s) ==> s@ == decode_utf8(bytes@),
{
    String::from_utf8(bytes).ok()
}

/// A string field holding UTF-8 without interior NUL.
pub fn string_at(cs: &Vec<Pod>, pos: usize) -> (r: Option<String>)
    ensures
        r matches Some(s) ==> field(cs@, pos as int) == Some(str_of(s@)),
        forall|s: Seq<char>|
            field(cs@, pos as int) == Some(#[trigger] str_of(s)) ==> (r matches Some(t) && t@ == s),
{
    if pos < cs.len() {
        proof {
            lemma_field(cs@, pos as int);
        }
        match &cs[pos] {
            Pod::Str(b) => {
                let bytes = vstd::slice::slice_to_vec(b.as_slice());
                let r = string_from_utf8(bytes);
                proof {
                    broadcast use encode_utf8_valid_utf8, encode_utf8_decode_utf8, decode_utf8_encode_utf8;
                    assert forall|s: Seq<char>|
                        field(cs@, pos as int) == Some(#[trigger] str_of(s)) implies (r matches Some(t)
                            && t@ == s) by {
                        assert(b@ == encode_utf8(s));
                    }
                }
                r
            },
            _ => None,
        }
    } else {
        None
    }
}

/// A copy of the field at `pos`.
pub fn pod_at(cs: &Vec<Pod>, pos: usize) -> (r: Pod)
    requires
        pos < cs@.len(),
    ensures
        field(cs@, pos as int) == Some(r@),
{
    proof {
        lemma_field(cs@, pos as int);
    }
    pod_clone(&cs[pos])
}

/// `bytes` begins with the encoding of the struct with these fields.
pub open spec fn struct_prefix(bytes: Seq<u8>, fs: Seq<PodValue>) -> bool {
    crate::pod::pod_prefix(bytes, PodValue::Struct(fs))
}

/// The fields of the struct that `payload` begins with, if it begins with
/// one; bytes after the struct are not read.
pub fn decode_leading_fields(payload: &[u8]) -> (r: Option<Vec<Pod>>)
    ensures
        r matches Some(cs) ==> struct_wf(fields(cs@)) && struct_prefix(payload@, fields(cs@)),
        forall|fs: Seq<PodValue>|
            struct_wf(fs) && #[trigger] struct_prefix(payload@, fs) ==> (r matches Some(cs) && fields(
                cs@,
            ) == fs),
{
    let n = payload.len();
    match crate::pod::parse_pod(payload, 0, n) {
        Ok((Pod::Struct(cs), next)) => {
            proof {
                assert(payload@.subrange(0, n as int) =~= payload@);
                assert(payload@.take(next as int) =~= payload@.subrange(0, next as int));
                assert forall|fs: Seq<PodValue>|
                    struct_wf(fs) && #[trigger] struct_prefix(payload@, fs) implies fields(cs@) == fs by {
                    lemma_prefix_unique(payload@, PodValue::Struct(fields(cs@)), PodValue::Struct(fs));
                }
            }
            Some(cs)
        },
        Ok((p, next)) => {
            proof {
                assert(payload@.take(next as int) =~= payload@.subrange(0, next as int));
                assert forall|fs: Seq<PodValue>|
                    struct_wf(fs) && #[trigger] struct_prefix(payload@, fs) implies false by {
                    lemma_prefix_unique(payload@, p@, PodValue::Struct(fs));
                }
            }
            None
        },
        Err(_) => {
            proof {
                assert(payload@.subrange(0, n as int) =~= payload@);
            }
            None
        },
    }
}

/// Two valid values that both begin the same bytes are the same value.
pub proof fn lemma_prefix_unique(bytes: Seq<u8>, a: PodValue, b: PodValue)
    requires
        pod_wf(a),
        pod_wf(b),
        crate::pod::pod_prefix(bytes, a),
        crate::pod::pod_prefix(bytes, b),
    ensures
        a == b,
{
    let ea = pod_encoding(a);
    let eb = pod_encoding(b);
    assert(bytes =~= ea + bytes.skip(ea.len() as int));
    assert(bytes =~= eb + bytes.skip(eb.len() as int));
    crate::pod::lemma_pod_unique(a, b, bytes.skip(ea.len() as int), bytes.skip(eb.len() as int));
}

} // verus!
