//! The SPA `Format` object carried by a port's Format parameter: a 32-bit
//! object type and parameter id, then properties, each a 32-bit key, 32-bit
//! flags and a POD value. Properties are read in order; a later occurrence
//! of a key replaces an earlier one, and keys the session does not use are
//! skipped.

use vstd::bytes::*;
use vstd::prelude::*;

use crate::pod::{
    le32, lemma_le32_of_read, lemma_le32_roundtrip, lemma_pod_unique, lemma_framed_len, lemma_body_len_bound,
    no_pod_at, parse_pod, pod_body, pod_encoding, pod_prefix, pod_type, pod_wf, read_u32_at, Pod,
    PodValue, TYPE_ARRAY, TYPE_ID,
};
use crate::record::u32_field;

verus! {

broadcast use vstd::seq_lib::group_seq_properties;

/// `SPA_TYPE_OBJECT_Format`.
pub const OBJECT_TYPE_FORMAT: u32 = 0x40003;
/// `SPA_PARAM_Format`, the object id of a format.
pub const PARAM_ID_FORMAT: u32 = 4;
/// `SPA_FORMAT_mediaType`.
pub const KEY_MEDIA_TYPE: u32 = 1;
/// `SPA_FORMAT_mediaSubtype`.
pub const KEY_MEDIA_SUBTYPE: u32 = 2;
/// `SPA_FORMAT_AUDIO_format`.
pub const KEY_AUDIO_FORMAT: u32 = 0x10001;
/// `SPA_FORMAT_AUDIO_rate`.
pub const KEY_AUDIO_RATE: u32 = 0x10003;
/// `SPA_FORMAT_AUDIO_channels`.
pub const KEY_AUDIO_CHANNELS: u32 = 0x10004;
/// `SPA_FORMAT_AUDIO_position`.
pub const KEY_AUDIO_POSITION: u32 = 0x10005;
/// `SPA_MEDIA_TYPE_audio`.
pub const MEDIA_TYPE_AUDIO: u32 = 1;
/// `SPA_MEDIA_SUBTYPE_raw`.
pub const MEDIA_SUBTYPE_RAW: u32 = 1;

/// A property: key, flags and value.
pub type Prop = (u32, u32, PodValue);

pub open spec fn prop_encoding(p: Prop) -> Seq<u8> {
    le32(p.0) + le32(p.1) + pod_encoding(p.2)
}

pub open spec fn props_encoding(ps: Seq<Prop>) -> Seq<u8>
    decreases ps.len(),
{
    if ps.len() == 0 {
        Seq::empty()
    } else {
        prop_encoding(ps[0]) + props_encoding(ps.drop_first())
    }
}

pub open spec fn props_wf(ps: Seq<Prop>) -> bool {
    forall|i: int| 0 <= i < ps.len() ==> pod_wf(#[trigger] ps[i].2)
}

/// The ids of an array body whose children are 32-bit ids.
pub open spec fn id_array(b: Seq<u8>) -> Option<Seq<u32>> {
    if b.len() >= 8 && u32_field(b, 0) == 4 && u32_field(b, 4) == TYPE_ID && (b.len() - 8) % 4
        == 0 {
        Some(Seq::new(((b.len() - 8) / 4) as nat, |i: int| u32_field(b, 8 + 4 * i)))
    } else {
        None
    }
}

/// The value of each key the session reads has the type it reads.
pub open spec fn prop_typed(p: Prop) -> bool {
    if p.0 == KEY_MEDIA_TYPE || p.0 == KEY_MEDIA_SUBTYPE || p.0 == KEY_AUDIO_FORMAT {
        p.2 is Id
    } else if p.0 == KEY_AUDIO_RATE || p.0 == KEY_AUDIO_CHANNELS {
        p.2 is Int
    } else if p.0 == KEY_AUDIO_POSITION {
        p.2 matches PodValue::Raw(t, b) && t == TYPE_ARRAY && id_array(b) is Some
    } else {
        true
    }
}

/// `b` is the body of a Format object with properties `ps`.
pub open spec fn format_object(b: Seq<u8>, ps: Seq<Prop>) -> bool {
    &&& props_wf(ps)
    &&& forall|i: int| 0 <= i < ps.len() ==> prop_typed(#[trigger] ps[i])
    &&& b == le32(OBJECT_TYPE_FORMAT) + le32(PARAM_ID_FORMAT) + props_encoding(ps)
}

/// Media type, media subtype, sample format, rate, channel count and
/// channel positions, each as last given.
pub type FormatSummary = (
    Option<u32>,
    Option<u32>,
    Option<u32>,
    Option<i32>,
    Option<i32>,
    Option<Seq<u32>>,
);

pub open spec fn id_value(v: PodValue) -> u32 {
    match v {
        PodValue::Id(x) => x,
        _ => 0,
    }
}

pub open spec fn int_value(v: PodValue) -> i32 {
    match v {
        PodValue::Int(x) => x,
        _ => 0,
    }
}

pub open spec fn array_ids(v: PodValue) -> Seq<u32> {
    match v {
        PodValue::Raw(_, b) => match id_array(b) {
            Some(ids) => ids,
            None => Seq::empty(),
        },
        _ => Seq::empty(),
    }
}

pub open spec fn with_prop(s: FormatSummary, p: Prop) -> FormatSummary {
    if p.0 == KEY_MEDIA_TYPE {
        (Some(id_value(p.2)), s.1, s.2, s.3, s.4, s.5)
    } else if p.0 == KEY_MEDIA_SUBTYPE {
        (s.0, Some(id_value(p.2)), s.2, s.3, s.4, s.5)
    } else if p.0 == KEY_AUDIO_FORMAT {
        (s.0, s.1, Some(id_value(p.2)), s.3, s.4, s.5)
    } else if p.0 == KEY_AUDIO_RATE {
        (s.0, s.1, s.2, Some(int_value(p.2)), s.4, s.5)
    } else if p.0 == KEY_AUDIO_CHANNELS {
        (s.0, s.1, s.2, s.3, Some(int_value(p.2)), s.5)
    } else if p.0 == KEY_AUDIO_POSITION {
        (s.0, s.1, s.2, s.3, s.4, Some(array_ids(p.2)))
    } else {
        s
    }
}

pub open spec fn summary_of(ps: Seq<Prop>) -> FormatSummary
    decreases ps.len(),
{
    if ps.len() == 0 {
        (None, None, None, None, None, None)
    } else {
        with_prop(summary_of(ps.drop_last()), ps.last())
    }
}

/// What the session reads of a Format object.
pub struct FormatFields {
    pub media_type: Option<u32>,
    pub media_subtype: Option<u32>,
    pub sample_format: Option<u32>,
    pub rate: Option<i32>,
    pub channels: Option<i32>,
    pub positions: Option<Vec<u32>>,
}

pub open spec fn summary(f: FormatFields) -> FormatSummary {
    (
        f.media_type,
        f.media_subtype,
        f.sample_format,
        f.rate,
        f.channels,
        match f.positions {
            Some(v) => Some(v@),
            None => None,
        },
    )
}

proof fn lemma_prop_len(p: Prop)
    requires
        pod_wf(p.2),
    ensures
        prop_encoding(p).len() >= 16,
        prop_encoding(p).len() == 16 + pod_body(p.2).len() + crate::pod::pad_len(
            pod_body(p.2).len(),
        ),
{
    lemma_le32_roundtrip(p.0);
    lemma_le32_roundtrip(p.1);
    lemma_body_len_bound(p.2);
    lemma_framed_len(pod_type(p.2), pod_body(p.2));
}

proof fn lemma_props_wf_drop(ps: Seq<Prop>)
    requires
        props_wf(ps),
        ps.len() > 0,
    ensures
        props_wf(ps.drop_first()),
        pod_wf(ps[0].2),
{
    assert forall|i: int| 0 <= i < ps.drop_first().len() implies pod_wf(
        #[trigger] ps.drop_first()[i].2,
    ) by {
        assert(ps.drop_first()[i] == ps[i + 1]);
    }
}

/// An encoding of properties followed by more bytes can only be the
/// encoding of a prefix of any properties it is part of.
proof fn lemma_props_prefix(ps: Seq<Prop>, cs: Seq<Prop>, x: Seq<u8>)
    requires
        props_wf(ps),
        props_wf(cs),
        props_encoding(ps) + x == props_encoding(cs),
    ensures
        ps.len() <= cs.len(),
        ps == cs.take(ps.len() as int),
        x == props_encoding(cs.skip(ps.len() as int)),
    decreases ps.len(),
{
    if ps.len() == 0 {
        assert(props_encoding(ps) + x =~= x);
        assert(cs.skip(0) =~= cs);
        assert(ps =~= cs.take(0));
    } else {
        lemma_props_wf_drop(ps);
        lemma_prop_len(ps[0]);
        if cs.len() == 0 {
            assert((props_encoding(ps) + x).len() >= 16);
        } else {
            lemma_props_wf_drop(cs);
            let p = ps[0];
            let c = cs[0];
            let y = props_encoding(ps.drop_first()) + x;
            let z = props_encoding(cs.drop_first());
            let whole = props_encoding(cs);
            assert(props_encoding(ps) + x =~= le32(p.0) + le32(p.1) + (pod_encoding(p.2) + y));
            assert(whole =~= le32(c.0) + le32(c.1) + (pod_encoding(c.2) + z));
            lemma_le32_roundtrip(p.0);
            lemma_le32_roundtrip(p.1);
            lemma_le32_roundtrip(c.0);
            lemma_le32_roundtrip(c.1);
            assert(whole.subrange(0, 4) =~= le32(p.0));
            assert(whole.subrange(0, 4) =~= le32(c.0));
            assert(whole.subrange(4, 8) =~= le32(p.1));
            assert(whole.subrange(4, 8) =~= le32(c.1));
            assert(whole.skip(8) =~= pod_encoding(p.2) + y);
            assert(whole.skip(8) =~= pod_encoding(c.2) + z);
            lemma_pod_unique(p.2, c.2, y, z);
            assert(p == c);
            lemma_props_prefix(ps.drop_first(), cs.drop_first(), x);
            assert(cs.drop_first().skip(ps.drop_first().len() as int) =~= cs.skip(
                ps.len() as int,
            ));
            assert forall|i: int| 0 <= i < ps.len() implies ps[i] == cs[i] by {
                if i > 0 {
                    assert(ps[i] == ps.drop_first()[i - 1]);
                    assert(cs.drop_first().take(ps.drop_first().len() as int)[i - 1]
                        == cs.drop_first()[i - 1]);
                }
            }
            assert(ps =~= cs.take(ps.len() as int));
        }
    }
}

proof fn lemma_props_push(ps: Seq<Prop>, p: Prop)
    ensures
        props_encoding(ps.push(p)) == props_encoding(ps) + prop_encoding(p),
    decreases ps.len(),
{
    if ps.len() == 0 {
        assert(ps.push(p).drop_first() =~= Seq::<Prop>::empty());
        assert(props_encoding(ps.push(p)) =~= props_encoding(ps) + prop_encoding(p));
    } else {
        assert(ps.push(p).drop_first() =~= ps.drop_first().push(p));
        lemma_props_push(ps.drop_first(), p);
        assert(props_encoding(ps.push(p)) =~= props_encoding(ps) + prop_encoding(p));
    }
}

/// Where the scan stands inside a Format object with properties `ps`: the
/// bytes from `off` on are the encodings of the properties not yet read.
proof fn lemma_props_at(b: Seq<u8>, off: int, done: Seq<Prop>, ps: Seq<Prop>)
    requires
        8 <= off < b.len(),
        b.subrange(8, off) == props_encoding(done),
        props_wf(done),
        format_object(b, ps),
    ensures
        done.len() < ps.len(),
        done == ps.take(done.len() as int),
        b.subrange(off, b.len() as int) == prop_encoding(ps[done.len() as int]) + props_encoding(
            ps.skip(done.len() as int + 1),
        ),
{
    lemma_le32_roundtrip(OBJECT_TYPE_FORMAT);
    lemma_le32_roundtrip(PARAM_ID_FORMAT);
    let x = b.subrange(off, b.len() as int);
    assert(b.subrange(8, b.len() as int) =~= props_encoding(ps));
    assert(b.subrange(8, b.len() as int) =~= props_encoding(done) + x);
    lemma_props_prefix(done, ps, x);
    let k = done.len() as int;
    if k == ps.len() {
        assert(ps.skip(k) =~= Seq::<Prop>::empty());
        assert(x.len() > 0);
    }
    let tail = ps.skip(k);
    assert(tail[0] == ps[k]);
    assert(tail.drop_first() =~= ps.skip(k + 1));
}

/// Reading the property at `off`: its key and flags are the next words and
/// its value is the only POD that can follow them.
proof fn lemma_prop_value(b: Seq<u8>, off: int, next: int, p: PodValue, q: Prop, rest: Seq<u8>)
    requires
        0 <= off,
        off + 8 < next <= b.len(),
        b.subrange(off, b.len() as int) == prop_encoding(q) + rest,
        b.subrange(off + 8, next) == pod_encoding(p),
        pod_wf(p),
        pod_wf(q.2),
    ensures
        p == q.2,
        u32_field(b, off) == q.0,
        u32_field(b, off + 4) == q.1,
        b.subrange(next, b.len() as int) == rest,
{
    lemma_le32_roundtrip(q.0);
    lemma_le32_roundtrip(q.1);
    let x = b.subrange(off, b.len() as int);
    assert(b.subrange(off, off + 4) =~= x.subrange(0, 4));
    assert(x.subrange(0, 4) =~= le32(q.0));
    assert(b.subrange(off + 4, off + 8) =~= x.subrange(4, 8));
    assert(x.subrange(4, 8) =~= le32(q.1));
    assert(b.subrange(off + 8, b.len() as int) =~= pod_encoding(q.2) + rest);
    assert(b.subrange(off + 8, b.len() as int) =~= pod_encoding(p) + b.subrange(
        next,
        b.len() as int,
    ));
    lemma_pod_unique(p, q.2, b.subrange(next, b.len() as int), rest);
}

proof fn lemma_summary_push(ps: Seq<Prop>, p: Prop)
    ensures
        summary_of(ps.push(p)) == with_prop(summary_of(ps), p),
{
    assert(ps.push(p).drop_last() =~= ps);
}

fn read_id_array(b: &Vec<u8>) -> (r: Option<Vec<u32>>)
    ensures
        match r {
            Some(v) => id_array(b@) == Some(v@),
            None => id_array(b@) is None,
        },
{
    let n = b.len();
    if n < 8 {
        return None;
    }
    let child_size = read_u32_at(b.as_slice(), 0);
    let child_type = read_u32_at(b.as_slice(), 4);
    if child_size != 4 || child_type != TYPE_ID || (n - 8) % 4 != 0 {
        return None;
    }
    let count = (n - 8) / 4;
    let mut ids: Vec<u32> = Vec::new();
    let mut i: usize = 0;
    while i < count
        invariant
            n == b@.len(),
            n >= 8,
            count == (n - 8) / 4,
            (n - 8) % 4 == 0,
            i <= count,
            ids@ == Seq::new(i as nat, |j: int| u32_field(b@, 8 + 4 * j)),
        decreases count - i,
    {
        let id = read_u32_at(b.as_slice(), 8 + 4 * i);
        ids.push(id);
        i = i + 1;
        assert(ids@ =~= Seq::new(i as nat, |j: int| u32_field(b@, 8 + 4 * j)));
    }
    Some(ids)
}

/// Reads the properties of a Format object body. `None` when `body` is not
/// the body of a Format object whose read keys carry values of their types.
#[verifier::rlimit(30)]
pub fn parse_format_object(body: &[u8]) -> (r: Option<FormatFields>)
    ensures
        r matches Some(f) ==> exists|ps: Seq<Prop>|
            format_object(body@, ps) && summary(f) == summary_of(ps),
        forall|ps: Seq<Prop>| #[trigger]
            format_object(body@, ps) ==> (r matches Some(f) && summary(f) == summary_of(ps)),
{
    let len = body.len();
    proof {
        lemma_le32_roundtrip(OBJECT_TYPE_FORMAT);
        lemma_le32_roundtrip(PARAM_ID_FORMAT);
    }
    if len < 8 {
        return None;
    }
    let object_type = read_u32_at(body, 0);
    let object_id = read_u32_at(body, 4);
    if object_type != OBJECT_TYPE_FORMAT || object_id != PARAM_ID_FORMAT {
        proof {
            assert forall|ps: Seq<Prop>| format_object(body@, ps) implies false by {
                assert(body@.subrange(0, 4) =~= le32(OBJECT_TYPE_FORMAT));
                assert(body@.subrange(4, 8) =~= le32(PARAM_ID_FORMAT));
            }
        }
        return None;
    }
    let mut f = FormatFields {
        media_type: None,
        media_subtype: None,
        sample_format: None,
        rate: None,
        channels: None,
        positions: None,
    };
    let mut off: usize = 8;
    let ghost mut done: Seq<Prop> = Seq::empty();
    assert(body@.subrange(8, 8) =~= props_encoding(done));
    while off < len
        invariant
            8 <= off <= len,
            len == body@.len(),
            u32_field(body@, 0) == OBJECT_TYPE_FORMAT,
            u32_field(body@, 4) == PARAM_ID_FORMAT,
            body@.subrange(8, off as int) == props_encoding(done),
            props_wf(done),
            forall|i: int| 0 <= i < done.len() ==> prop_typed(#[trigger] done[i]),
            summary(f) == summary_of(done),
        decreases len - off,
    {
        if len - off < 8 {
            proof {
                assert forall|ps: Seq<Prop>| format_object(body@, ps) implies false by {
                    lemma_props_at(body@, off as int, done, ps);
                    let q = ps[done.len() as int];
                    assert(pod_wf(q.2));
                    lemma_prop_len(q);
                    assert(body@.subrange(off as int, len as int).len() == len - off);
                }
            }
            return None;
        }
        let key = read_u32_at(body, off);
        let flags = read_u32_at(body, off + 4);
        match parse_pod(body, off + 8, len) {
            Err(_) => {
                proof {
                    assert forall|ps: Seq<Prop>| format_object(body@, ps) implies false by {
                        lemma_props_at(body@, off as int, done, ps);
                        let q = ps[done.len() as int];
                        let rest = props_encoding(ps.skip(done.len() as int + 1));
                        lemma_le32_roundtrip(q.0);
                        lemma_le32_roundtrip(q.1);
                        assert(body@.subrange(off + 8, len as int) =~= body@.subrange(
                            off as int,
                            len as int,
                        ).skip(8));
                        assert(body@.subrange(off + 8, len as int) =~= pod_encoding(q.2) + rest);
                        assert(pod_prefix(body@.subrange(off + 8, len as int), q.2));
                    }
                }
                return None;
            },
            Ok((p, next)) => {
                let ghost q: Prop = (key, flags, p@);
                let typed = if key == KEY_MEDIA_TYPE {
                    match &p {
                        Pod::Id(x) => {
                            f.media_type = Some(*x);
                            true
                        },
                        _ => false,
                    }
                } else if key == KEY_MEDIA_SUBTYPE {
                    match &p {
                        Pod::Id(x) => {
                            f.media_subtype = Some(*x);
                            true
                        },
                        _ => false,
                    }
                } else if key == KEY_AUDIO_FORMAT {
                    match &p {
                        Pod::Id(x) => {
                            f.sample_format = Some(*x);
                            true
                        },
                        _ => false,
                    }
                } else if key == KEY_AUDIO_RATE {
                    match &p {
                        Pod::Int(x) => {
                            f.rate = Some(*x);
                            true
                        },
                        _ => false,
                    }
                } else if key == KEY_AUDIO_CHANNELS {
                    match &p {
                        Pod::Int(x) => {
                            f.channels = Some(*x);
                            true
                        },
                        _ => false,
                    }
                } else if key == KEY_AUDIO_POSITION {
                    match &p {
                        Pod::Raw(t, b) => {
                            if *t == TYPE_ARRAY {
                                match read_id_array(b) {
                                    Some(ids) => {
                                        f.positions = Some(ids);
                                        true
                                    },
                                    None => false,
                                }
                            } else {
                                false
                            }
                        },
                        _ => false,
                    }
                } else {
                    true
                };
                if !typed {
                    proof {
                        assert(!prop_typed(q));
                        assert forall|ps: Seq<Prop>| format_object(body@, ps) implies false by {
                            lemma_props_at(body@, off as int, done, ps);
                            let k = done.len() as int;
                            lemma_prop_value(
                                body@,
                                off as int,
                                next as int,
                                p@,
                                ps[k],
                                props_encoding(ps.skip(k + 1)),
                            );
                            assert(prop_typed(ps[k]));
                        }
                    }
                    return None;
                }
                proof {
                    assert(prop_typed(q));
                    lemma_summary_push(done, q);
                    lemma_props_push(done, q);
                    lemma_le32_roundtrip(key);
                    lemma_le32_roundtrip(flags);
                    lemma_le32_of_read(body@.subrange(off as int, off + 4));
                    lemma_le32_of_read(body@.subrange(off + 4, off + 8));
                    assert(body@.subrange(off as int, off + 4) == le32(key));
                    assert(body@.subrange(off + 4, off + 8) == le32(flags));
                    assert(body@.subrange(off as int, next as int) =~= prop_encoding(q));
                    assert(body@.subrange(8, next as int) =~= body@.subrange(8, off as int)
                        + body@.subrange(off as int, next as int));
                    done = done.push(q);
                    assert forall|i: int| 0 <= i < done.len() implies pod_wf(#[trigger] done[i].2)
                        && prop_typed(done[i]) by {
                        if i < done.len() - 1 {
                            assert(done[i] == done.drop_last()[i]);
                        }
                    }
                }
                off = next;
            },
        }
    }
    proof {
        lemma_le32_of_read(body@.subrange(0, 4));
        lemma_le32_of_read(body@.subrange(4, 8));
        assert(body@ =~= body@.subrange(0, 4) + body@.subrange(4, 8) + body@.subrange(8, len as int));
        assert(body@ =~= le32(OBJECT_TYPE_FORMAT) + le32(PARAM_ID_FORMAT) + props_encoding(done));
        assert forall|ps: Seq<Prop>| format_object(body@, ps) implies ps == done by {
            assert(body@.subrange(8, len as int) =~= props_encoding(ps));
            assert(props_encoding(ps) + Seq::<u8>::empty() =~= props_encoding(done));
            lemma_props_prefix(ps, done, Seq::<u8>::empty());
            if ps.len() < done.len() {
                let tail = done.skip(ps.len() as int);
                lemma_prop_len(done[ps.len() as int]);
                assert(tail[0] == done[ps.len() as int]);
                assert(props_encoding(tail).len() >= 16);
            }
            assert(ps =~= done);
        }
    }
    Some(f)
}

/// What the summary holds for property key `key`, as the value type of
/// that key would read it; keys the session does not read give `None`.
pub open spec fn summary_field(s: FormatSummary, key: u32) -> Option<(u32, i32, Seq<u32>)> {
    if key == KEY_MEDIA_TYPE {
        match s.0 { Some(x) => Some((x, 0, Seq::empty())), None => None }
    } else if key == KEY_MEDIA_SUBTYPE {
        match s.1 { Some(x) => Some((x, 0, Seq::empty())), None => None }
    } else if key == KEY_AUDIO_FORMAT {
        match s.2 { Some(x) => Some((x, 0, Seq::empty())), None => None }
    } else if key == KEY_AUDIO_RATE {
        match s.3 { Some(x) => Some((0, x, Seq::empty())), None => None }
    } else if key == KEY_AUDIO_CHANNELS {
        match s.4 { Some(x) => Some((0, x, Seq::empty())), None => None }
    } else if key == KEY_AUDIO_POSITION {
        match s.5 { Some(x) => Some((0, 0, x)), None => None }
    } else {
        None
    }
}

/// The later of two properties with one key wins: after property `p`, and
/// whatever follows it under other keys, the summary holds `p`'s value for
/// `p`'s key, whatever came before `p`.
pub proof fn law_later_property_wins(ps: Seq<Prop>, p: Prop, qs: Seq<Prop>)
    requires
        forall|k: int| 0 <= k < qs.len() ==> (#[trigger] qs[k]).0 != p.0,
    ensures
        summary_field(summary_of(ps.push(p) + qs), p.0) == summary_field(
            with_prop(summary_of(ps), p),
            p.0,
        ),
    decreases qs.len(),
{
    if qs.len() == 0 {
        assert(ps.push(p) + qs =~= ps.push(p));
        assert(ps.push(p).drop_last() =~= ps);
    } else {
        let rest = qs.drop_last();
        assert forall|k: int| 0 <= k < rest.len() implies (#[trigger] rest[k]).0 != p.0 by {
            assert(rest[k] == qs[k]);
        }
        law_later_property_wins(ps, p, rest);
        assert((ps.push(p) + qs).drop_last() =~= ps.push(p) + rest);
        assert((ps.push(p) + qs).last() == qs[qs.len() - 1]);
    }
}

} // verus!
