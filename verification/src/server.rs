//! The scripted protocol peer's side of the native protocol: its packet
//! header, the Core, Client and Registry messages it reads and writes, the
//! expectations a script step places on an inbound message, and the state
//! the script keeps.

use vstd::prelude::*;
use vstd::utf8::valid_utf8;

use crate::fields::{
    count_of, decode_leading_fields, encode_fields, fd_of, field, fields, int_of, lemma_field,
    lemma_flat_map_all, lemma_flat_map_push, long_of, push_count_field, push_field, push_i32_field,
    push_str_field, push_text_field, push_u32_field, push_u64_field, str_of, string_at,
    struct_payload, struct_prefix, struct_wf, u32_at,
};
use crate::frame::{header_bytes, header_of_bytes, FrameError, Header, HEADER_LEN};
use crate::pod::{lemma_pods_view_index, pods_view, Pod, PodValue};

verus! {

broadcast use vstd::seq_lib::group_seq_properties;

/// Core object id in the native protocol.
pub const CORE_ID: u32 = 0;
/// Client object id for the connected client.
pub const CLIENT_ID: u32 = 1;

/// Core::Hello.
pub const CORE_METHOD_HELLO: u8 = 1;
/// Core::Sync.
pub const CORE_METHOD_SYNC: u8 = 2;
/// Core::GetRegistry.
pub const CORE_METHOD_GET_REGISTRY: u8 = 5;
/// Core::Info.
pub const CORE_EVENT_INFO: u8 = 0;
/// Core::Done.
pub const CORE_EVENT_DONE: u8 = 1;
/// Core::Error.
pub const CORE_EVENT_ERROR: u8 = 3;
/// Core::AddMem.
pub const CORE_EVENT_ADD_MEM: u8 = 6;
/// Core::RemoveMem.
pub const CORE_EVENT_REMOVE_MEM: u8 = 7;
/// Client::UpdateProperties.
pub const CLIENT_METHOD_UPDATE_PROPERTIES: u8 = 2;
/// Registry::Bind.
pub const REGISTRY_METHOD_BIND: u8 = 1;
/// Registry::Destroy.
pub const REGISTRY_METHOD_DESTROY: u8 = 2;
/// Registry::Global.
pub const REGISTRY_EVENT_GLOBAL: u8 = 0;
/// Registry::GlobalRemove.
pub const REGISTRY_EVENT_GLOBAL_REMOVE: u8 = 1;

/// Native protocol message header, as the scripted peer names its fields.
#[derive(Clone, Copy, Debug, PartialEq, Eq, Structural)]
pub struct NativeHeader {
    pub object_id: u32,
    pub opcode: u8,
    /// Payload size in bytes (24-bit field on the wire).
    pub payload_size: u32,
    pub seq: u32,
    pub n_fds: u32,
}

pub open spec fn as_header(h: NativeHeader) -> Header {
    Header {
        object_id: h.object_id,
        opcode: h.opcode,
        payload_len: h.payload_size,
        seq: h.seq,
        n_fds: h.n_fds,
    }
}

impl NativeHeader {
    /// The frame header with the same fields.
    pub fn to_header(self) -> (h: Header)
        ensures
            h == as_header(self),
    {
        Header {
            object_id: self.object_id,
            opcode: self.opcode,
            payload_len: self.payload_size,
            seq: self.seq,
            n_fds: self.n_fds,
        }
    }

    /// The native header with the same fields.
    pub fn from_header(h: Header) -> (n: NativeHeader)
        ensures
            as_header(n) == h,
    {
        NativeHeader {
            object_id: h.object_id,
            opcode: h.opcode,
            payload_size: h.payload_len,
            seq: h.seq,
            n_fds: h.n_fds,
        }
    }

    /// Decodes a native protocol header from 16 bytes.
    pub fn decode(bytes: [u8; HEADER_LEN]) -> (h: NativeHeader)
        ensures
            as_header(h) == header_of_bytes(bytes@),
    {
        NativeHeader::from_header(Header::decode(bytes))
    }

    /// Encodes this header; fails when the payload size does not fit 24 bits.
    pub fn encode(self) -> (r: Result<[u8; HEADER_LEN], FrameError>)
        ensures
            self.payload_size <= crate::frame::WIRE_MAX_PAYLOAD ==> (r matches Ok(b) && b@
                == header_bytes(as_header(self))),
            self.payload_size > crate::frame::WIRE_MAX_PAYLOAD ==> r == Err::<
                [u8; HEADER_LEN],
                FrameError,
            >(
                FrameError::PayloadTooLarge {
                    declared: self.payload_size as usize,
                    limit: crate::frame::WIRE_MAX_PAYLOAD,
                },
            ),
    {
        self.to_header().encode()
    }
}

/// Decoding an encoded native header gives the header back.
pub proof fn law_native_header_round_trip(h: NativeHeader)
    requires
        h.payload_size <= crate::frame::WIRE_MAX_PAYLOAD,
    ensures
        header_of_bytes(header_bytes(as_header(h))) == as_header(h),
{
    crate::frame::law_header_decode_encode(as_header(h));
}

/// One inbound or outbound native protocol packet.
#[derive(Debug)]
pub struct NativePacket {
    pub header: NativeHeader,
    pub payload: Vec<u8>,
}

/// The inbound methods a script reacts to.
#[derive(Debug, Clone, PartialEq, Eq)]
pub enum InboundMessage {
    CoreHello { version: u32 },
    CoreSync { id: u32, seq: u32 },
    CoreGetRegistry { version: u32, new_id: u32 },
    ClientUpdateProperties,
    RegistryBind { id: u32, type_: String, version: u32, new_id: u32 },
    RegistryDestroy { id: u32 },
    /// Any unrecognised object/opcode pair.
    Unknown { object_id: u32, opcode: u8 },
}

/// Which message an object/opcode pair carries.
#[derive(Clone, Copy, Debug, PartialEq, Eq, Structural)]
pub enum Route {
    CoreHello,
    CoreSync,
    CoreGetRegistry,
    ClientUpdateProperties,
    RegistryBind,
    RegistryDestroy,
    Unknown,
}

pub open spec fn route_of(object_id: u32, opcode: u8) -> Route {
    if object_id == CORE_ID && opcode == CORE_METHOD_HELLO {
        Route::CoreHello
    } else if object_id == CORE_ID && opcode == CORE_METHOD_SYNC {
        Route::CoreSync
    } else if object_id == CORE_ID && opcode == CORE_METHOD_GET_REGISTRY {
        Route::CoreGetRegistry
    } else if object_id == CLIENT_ID && opcode == CLIENT_METHOD_UPDATE_PROPERTIES {
        Route::ClientUpdateProperties
    } else if opcode == REGISTRY_METHOD_BIND {
        Route::RegistryBind
    } else if opcode == REGISTRY_METHOD_DESTROY {
        Route::RegistryDestroy
    } else {
        Route::Unknown
    }
}

pub open spec fn route_of_message(m: InboundMessage) -> Route {
    match m {
        InboundMessage::CoreHello { .. } => Route::CoreHello,
        InboundMessage::CoreSync { .. } => Route::CoreSync,
        InboundMessage::CoreGetRegistry { .. } => Route::CoreGetRegistry,
        InboundMessage::ClientUpdateProperties => Route::ClientUpdateProperties,
        InboundMessage::RegistryBind { .. } => Route::RegistryBind,
        InboundMessage::RegistryDestroy { .. } => Route::RegistryDestroy,
        InboundMessage::Unknown { .. } => Route::Unknown,
    }
}

/// A property list: a count and that many key/value UTF-8 strings; any
/// further fields are not read.
pub open spec fn property_list_shape(gs: Seq<PodValue>) -> bool {
    &&& gs.len() >= 1
    &&& gs[0] is Int
    &&& ({
        let n = if gs[0]->Int_0 < 0 {
            0
        } else {
            gs[0]->Int_0 as int
        };
        &&& gs.len() >= 1 + 2 * n
        &&& forall|i: int|
            1 <= i < 1 + 2 * n ==> #[trigger] gs[i] is Str && valid_utf8(gs[i]->Str_0)
    })
}

/// The leading fields of a message struct carry `m`; later fields are not
/// read.
pub open spec fn message_fields_ok(m: InboundMessage, fs: Seq<PodValue>) -> bool {
    match m {
        InboundMessage::CoreHello { version } => fs.len() >= 1 && fs[0] == int_of(version),
        InboundMessage::CoreSync { id, seq } => fs.len() >= 2 && fs[0] == int_of(id) && fs[1]
            == int_of(seq),
        InboundMessage::CoreGetRegistry { version, new_id } => fs.len() >= 2 && fs[0] == int_of(
            version,
        ) && fs[1] == int_of(new_id),
        InboundMessage::ClientUpdateProperties => fs.len() >= 1 && fs[0] is Struct
            && property_list_shape(fs[0]->Struct_0),
        InboundMessage::RegistryBind { id, type_, version, new_id } => fs.len() >= 4 && fs[0]
            == int_of(id) && fs[1] == str_of(type_@) && fs[2] == int_of(version) && fs[3]
            == int_of(new_id),
        InboundMessage::RegistryDestroy { id } => fs.len() >= 1 && fs[0] == int_of(id),
        InboundMessage::Unknown { .. } => false,
    }
}

/// `m` is what the payload of a message of route `route` reads as.
pub open spec fn inbound_accepted(m: InboundMessage, route: Route, payload: Seq<u8>) -> bool {
    route_of_message(m) == route && exists|fs: Seq<PodValue>|
        struct_wf(fs) && #[trigger] struct_prefix(payload, fs) && message_fields_ok(m, fs)
}

/// Why an inbound payload was refused.
#[derive(Clone, Copy, Debug, PartialEq, Eq, Structural)]
pub enum MessageError {
    /// The payload does not begin with the message's struct.
    InvalidPayload,
    /// The message has no encoding.
    Unencodable,
    /// The object sends no message with this opcode.
    UnknownOpcode(u8),
}

fn read_property_list(p: &Pod) -> (ok: bool)
    ensures
        ok == (p@ is Struct && property_list_shape(p@->Struct_0)),
{
    match p {
        Pod::Struct(gs) => {
            proof {
                lemma_pods_view_index(gs@);
            }
            if gs.len() < 1 {
                return false;
            }
            let v0 = match &gs[0] {
                Pod::Int(v) => *v,
                _ => {
                    return false;
                },
            };
            let n: usize = if v0 < 0 {
                0
            } else {
                v0 as usize
            };
            if (gs.len() - 1) / 2 < n {
                return false;
            }
            assert(2 * n <= gs@.len() - 1) by (nonlinear_arith)
                requires
                    (gs@.len() - 1) / 2 >= n,
                    gs@.len() >= 1,
            ;
            let limit = 2 * n;
            let mut i: usize = 0;
            while i < limit
                invariant
                    p@ == PodValue::Struct(pods_view(gs@)),
                    limit == 2 * n,
                    pods_view(gs@)[0] == PodValue::Int(v0),
                    n == (if v0 < 0 {
                        0
                    } else {
                        v0 as int
                    }),
                    i <= 2 * n,
                    1 + 2 * n <= gs@.len(),
                    pods_view(gs@).len() == gs@.len(),
                    forall|j: int| 0 <= j < gs@.len() ==> #[trigger] pods_view(gs@)[j] == gs@[j]@,
                    forall|j: int|
                        1 <= j < 1 + i ==> #[trigger] pods_view(gs@)[j] is Str && valid_utf8(
                            pods_view(gs@)[j]->Str_0,
                        ),
                decreases limit - i,
            {
                proof {
                    lemma_field(gs@, 1 + i);
                }
                match string_at(gs, 1 + i) {
                    Some(t) => {
                        proof {
                            vstd::utf8::encode_utf8_valid_utf8(t@);
                        }
                    },
                    None => {
                        proof {
                            assert(!property_list_shape(pods_view(gs@))) by {
                                if property_list_shape(pods_view(gs@)) {
                                    let j = 1 + i;
                                    assert(pods_view(gs@)[j] is Str && valid_utf8(
                                        pods_view(gs@)[j]->Str_0,
                                    ));
                                    let b = pods_view(gs@)[j]->Str_0;
                                    vstd::utf8::decode_utf8_encode_utf8(b);
                                    assert(str_of(vstd::utf8::decode_utf8(b)) == pods_view(gs@)[j]);
                                }
                            }
                        }
                        return false;
                    },
                }
                i = i + 1;
            }
            true
        },
        _ => false,
    }
}

/// The characters of the string field at `pos`, when it is one.
spec fn string_at_view(cs: Seq<Pod>, pos: int) -> Seq<char> {
    vstd::utf8::decode_utf8(fields(cs)[pos]->Str_0)
}

/// Decodes the inbound methods a script reacts to. Any other object/opcode
/// pair is `Unknown`; a payload that does not begin with the message's
/// struct is refused.
pub fn decode_inbound_message(object_id: u32, opcode: u8, payload: &[u8]) -> (r: Result<
    InboundMessage,
    MessageError,
>)
    ensures
        route_of(object_id, opcode) == Route::Unknown ==> r == Ok::<InboundMessage, MessageError>(
            InboundMessage::Unknown { object_id, opcode },
        ),
        route_of(object_id, opcode) != Route::Unknown ==> match r {
            Ok(m) => inbound_accepted(m, route_of(object_id, opcode), payload@),
            Err(e) => e == MessageError::InvalidPayload && forall|m: InboundMessage|
                !#[trigger] inbound_accepted(m, route_of(object_id, opcode), payload@),
        },
{
    let ghost route = route_of(object_id, opcode);
    let is_hello = object_id == CORE_ID && opcode == CORE_METHOD_HELLO;
    let is_sync = object_id == CORE_ID && opcode == CORE_METHOD_SYNC;
    let is_registry = object_id == CORE_ID && opcode == CORE_METHOD_GET_REGISTRY;
    let is_update = object_id == CLIENT_ID && opcode == CLIENT_METHOD_UPDATE_PROPERTIES;
    let is_bind = !(is_hello || is_sync || is_registry || is_update) && opcode == REGISTRY_METHOD_BIND;
    let is_destroy = !(is_hello || is_sync || is_registry || is_update) && opcode
        == REGISTRY_METHOD_DESTROY;
    if !(is_hello || is_sync || is_registry || is_update || is_bind || is_destroy) {
        return Ok(InboundMessage::Unknown { object_id, opcode });
    }
    let cs = match decode_leading_fields(payload) {
        Some(cs) => cs,
        None => {
            return Err(MessageError::InvalidPayload);
        },
    };
    proof {
        lemma_pods_view_index(cs@);
        if cs@.len() > 0 {
            lemma_field(cs@, 0);
        }
        if cs@.len() > 1 {
            lemma_field(cs@, 1);
        }
        if cs@.len() > 2 {
            lemma_field(cs@, 2);
        }
        if cs@.len() > 3 {
            lemma_field(cs@, 3);
        }
    }
    let a = u32_at(&cs, 0);
    let b = u32_at(&cs, 1);
    let m = if is_hello {
        match a {
            Some(version) => InboundMessage::CoreHello { version },
            None => {
                return Err(MessageError::InvalidPayload);
            },
        }
    } else if is_sync || is_registry {
        match (a, b) {
            (Some(x), Some(y)) => if is_sync {
                InboundMessage::CoreSync { id: x, seq: y }
            } else {
                InboundMessage::CoreGetRegistry { version: x, new_id: y }
            },
            _ => {
                return Err(MessageError::InvalidPayload);
            },
        }
    } else if is_update {
        if cs.len() < 1 || !read_property_list(&cs[0]) {
            return Err(MessageError::InvalidPayload);
        }
        InboundMessage::ClientUpdateProperties
    } else if is_bind {
        let t = string_at(&cs, 1);
        let c = u32_at(&cs, 2);
        let d = u32_at(&cs, 3);
        match (a, t, c, d) {
            (Some(id), Some(type_), Some(version), Some(new_id)) => InboundMessage::RegistryBind {
                id,
                type_,
                version,
                new_id,
            },
            _ => {
                return Err(MessageError::InvalidPayload);
            },
        }
    } else {
        match a {
            Some(id) => InboundMessage::RegistryDestroy { id },
            None => {
                return Err(MessageError::InvalidPayload);
            },
        }
    };
    proof {
        assert(message_fields_ok(m, fields(cs@)));
        assert(struct_prefix(payload@, fields(cs@)));
    }
    Ok(m)
}

/// Encodes a `Core::Hello` payload.
pub fn encode_core_hello_payload(version: u32) -> (r: Result<Vec<u8>, MessageError>)
    ensures
        r matches Ok(b) && b@ == struct_payload(seq![int_of(version)]),
{
    let mut cs: Vec<Pod> = Vec::new();
    push_u32_field(&mut cs, version);
    let ghost fs = seq![int_of(version)];
    assert(fields(cs@) =~= fs);
    finish(cs, Ghost(fs))
}

/// Encodes a `Core::GetRegistry` payload.
pub fn encode_core_get_registry_payload(version: u32, new_id: u32) -> (r: Result<
    Vec<u8>,
    MessageError,
>)
    ensures
        r matches Ok(b) && b@ == struct_payload(seq![int_of(version), int_of(new_id)]),
{
    let mut cs: Vec<Pod> = Vec::new();
    push_u32_field(&mut cs, version);
    push_u32_field(&mut cs, new_id);
    let ghost fs = seq![int_of(version), int_of(new_id)];
    assert(fields(cs@) =~= fs);
    finish(cs, Ghost(fs))
}

/// Encodes a `Core::Sync` payload.
pub fn encode_core_sync_payload(id: u32, seq: u32) -> (r: Result<Vec<u8>, MessageError>)
    ensures
        r matches Ok(b) && b@ == struct_payload(seq![int_of(id), int_of(seq)]),
{
    let mut cs: Vec<Pod> = Vec::new();
    push_u32_field(&mut cs, id);
    push_u32_field(&mut cs, seq);
    let ghost fs = seq![int_of(id), int_of(seq)];
    assert(fields(cs@) =~= fs);
    finish(cs, Ghost(fs))
}

/// Encodes a `Client::UpdateProperties` payload with no properties.
pub fn encode_client_update_properties_empty_payload() -> (r: Result<Vec<u8>, MessageError>)
    ensures
        r matches Ok(b) && b@ == struct_payload(
            seq![PodValue::Struct(seq![PodValue::Int(0i32)])],
        ),
{
    let mut inner: Vec<Pod> = Vec::new();
    push_i32_field(&mut inner, 0);
    let mut cs: Vec<Pod> = Vec::new();
    push_field(&mut cs, Pod::Struct(inner));
    proof {
        reveal_with_fuel(crate::pod::pods_encoding, 2);
        reveal_with_fuel(crate::pod::pods_wf, 2);
        crate::pod::lemma_le32_roundtrip(0);
        crate::pod::lemma_framed_len(crate::pod::TYPE_INT, crate::pod::le32(0));
        assert(crate::pod::pods_encoding(seq![PodValue::Int(0i32)]).len() == 16) by {
            assert(seq![PodValue::Int(0i32)].drop_first() =~= Seq::<PodValue>::empty());
        }
        assert(crate::pod::pods_wf(seq![PodValue::Int(0i32)])) by {
            assert(seq![PodValue::Int(0i32)].drop_first() =~= Seq::<PodValue>::empty());
        }
        let inner_v = PodValue::Struct(seq![PodValue::Int(0i32)]);
        crate::pod::lemma_framed_len(crate::pod::TYPE_STRUCT, crate::pod::pod_body(inner_v));
        assert(crate::pod::pods_encoding(seq![inner_v]).len() == 24) by {
            assert(seq![inner_v].drop_first() =~= Seq::<PodValue>::empty());
        }
        assert(crate::pod::pods_wf(seq![inner_v])) by {
            assert(seq![inner_v].drop_first() =~= Seq::<PodValue>::empty());
        }
    }
    let ghost fs = seq![PodValue::Struct(seq![PodValue::Int(0i32)])];
    assert(fields(cs@) =~= fs);
    finish(cs, Ghost(fs))
}

/// Encodes a `Core::Done` payload.
pub fn encode_core_done_payload(id: u32, seq: u32) -> (r: Result<Vec<u8>, MessageError>)
    ensures
        r matches Ok(b) && b@ == struct_payload(seq![int_of(id), int_of(seq)]),
{
    let mut cs: Vec<Pod> = Vec::new();
    push_u32_field(&mut cs, id);
    push_u32_field(&mut cs, seq);
    let ghost fs = seq![int_of(id), int_of(seq)];
    assert(fields(cs@) =~= fs);
    finish(cs, Ghost(fs))
}

/// Encodes a `Core::RemoveMem` payload.
pub fn encode_core_remove_mem_payload(id: u32) -> (r: Result<Vec<u8>, MessageError>)
    ensures
        r matches Ok(b) && b@ == struct_payload(seq![int_of(id)]),
{
    let mut cs: Vec<Pod> = Vec::new();
    push_u32_field(&mut cs, id);
    let ghost fs = seq![int_of(id)];
    assert(fields(cs@) =~= fs);
    finish(cs, Ghost(fs))
}

/// Encodes a `Registry::GlobalRemove` payload.
pub fn encode_registry_global_remove_payload(id: u32) -> (r: Result<Vec<u8>, MessageError>)
    ensures
        r matches Ok(b) && b@ == struct_payload(seq![int_of(id)]),
{
    let mut cs: Vec<Pod> = Vec::new();
    push_u32_field(&mut cs, id);
    let ghost fs = seq![int_of(id)];
    assert(fields(cs@) =~= fs);
    finish(cs, Ghost(fs))
}

/// Encodes a `Core::Error` payload; fails exactly when the message holds NUL.
pub fn encode_core_error_payload(id: u32, seq: u32, res: i32, message: &str) -> (r: Result<
    Vec<u8>,
    MessageError,
>)
    ensures
        r is Ok <==> struct_wf(core_error_fields(id, seq, res, message@)),
        r is Err ==> r == Err::<Vec<u8>, MessageError>(MessageError::Unencodable),
        r matches Ok(b) ==> b@ == struct_payload(core_error_fields(id, seq, res, message@)),
{
    let mut cs: Vec<Pod> = Vec::new();
    push_u32_field(&mut cs, id);
    push_u32_field(&mut cs, seq);
    push_i32_field(&mut cs, res);
    push_text_field(&mut cs, message);
    assert(fields(cs@) =~= core_error_fields(id, seq, res, message@));
    encode_exact(cs, Ghost(core_error_fields(id, seq, res, message@)))
}

pub open spec fn core_error_fields(id: u32, seq: u32, res: i32, message: Seq<char>) -> Seq<
    PodValue,
> {
    seq![int_of(id), int_of(seq), PodValue::Int(res), str_of(message)]
}

/// Decoded `Core::AddMem` payload fields.
#[derive(Clone, Copy, Debug, PartialEq, Eq, Structural)]
pub struct CoreAddMemPayload {
    pub id: u32,
    /// Memory type from `spa_data_type`.
    pub memory_type: u32,
    /// Index of the descriptor in the frame's descriptor table.
    pub fd_index: i32,
    pub flags: u32,
}

pub open spec fn add_mem_fields(p: CoreAddMemPayload) -> Seq<PodValue> {
    seq![int_of(p.id), PodValue::Id(p.memory_type), PodValue::Fd(p.fd_index as i64), int_of(p.flags)]
}

/// Encodes a `Core::AddMem` payload; the indexed descriptor travels
/// out of band.
pub fn encode_core_add_mem_payload(id: u32, memory_type: u32, fd_index: i32, flags: u32) -> (r:
    Result<Vec<u8>, MessageError>)
    ensures
        r matches Ok(b) && b@ == struct_payload(
            add_mem_fields(CoreAddMemPayload { id, memory_type, fd_index, flags }),
        ),
{
    let ghost fs = add_mem_fields(CoreAddMemPayload { id, memory_type, fd_index, flags });
    let mut cs: Vec<Pod> = Vec::new();
    push_u32_field(&mut cs, id);
    push_field(&mut cs, Pod::Id(memory_type));
    push_field(&mut cs, Pod::Fd(fd_index as i64));
    push_u32_field(&mut cs, flags);
    assert(fields(cs@) =~= fs);
    finish(cs, Ghost(fs))
}

/// Decodes the leading `Core::AddMem` fields of a payload.
pub fn decode_core_add_mem_payload(payload: &[u8]) -> (r: Result<CoreAddMemPayload, MessageError>)
    ensures
        r matches Ok(p) ==> exists|fs: Seq<PodValue>|
            struct_wf(fs) && #[trigger] struct_prefix(payload@, fs) && fs.len() >= 4
                && fs.take(4) == add_mem_fields(p),
        r is Err ==> r == Err::<CoreAddMemPayload, MessageError>(MessageError::InvalidPayload)
            && forall|p: CoreAddMemPayload, fs: Seq<PodValue>|
            struct_wf(fs) && #[trigger] struct_prefix(payload@, fs) && fs.len() >= 4 ==> fs.take(4)
                != #[trigger] add_mem_fields(p),
{
    let cs = match decode_leading_fields(payload) {
        Some(cs) => cs,
        None => {
            return Err(MessageError::InvalidPayload);
        },
    };
    proof {
        crate::pod::lemma_pods_view_len(cs@);
    }
    if cs.len() < 4 {
        return Err(MessageError::InvalidPayload);
    }
    proof {
        lemma_pods_view_index(cs@);
        lemma_field(cs@, 0);
        lemma_field(cs@, 1);
        lemma_field(cs@, 2);
        lemma_field(cs@, 3);
    }
    let a = u32_at(&cs, 0);
    let b = crate::fields::id_at(&cs, 1);
    let d = u32_at(&cs, 3);
    let c = match &cs[2] {
        Pod::Fd(v) => if *v >= -0x8000_0000 && *v <= 0x7fff_ffff {
            Some(*v as i32)
        } else {
            None
        },
        _ => None,
    };
    proof {
        assert forall|p: CoreAddMemPayload, fs: Seq<PodValue>|
            struct_wf(fs) && #[trigger] struct_prefix(payload@, fs) && fs.len() >= 4 && fs.take(4)
                == #[trigger] add_mem_fields(p) implies a == Some(p.id) && b == Some(p.memory_type)
            && c == Some(p.fd_index) && d == Some(p.flags) by {
            assert(fs == fields(cs@));
            assert(fs[0] == fs.take(4)[0]);
            assert(fs[1] == fs.take(4)[1]);
            assert(fs[2] == fs.take(4)[2]);
            assert(fs[3] == fs.take(4)[3]);
            assert((p.fd_index as i64) as i32 == p.fd_index);
        }
    }
    match (a, b, c, d) {
        (Some(id), Some(memory_type), Some(fd_index), Some(flags)) => {
            let p = CoreAddMemPayload { id, memory_type, fd_index, flags };
            proof {
                assert((fd_index as i64) == cs@[2]@->Fd_0);
                assert(fields(cs@).take(4) =~= add_mem_fields(p));
            }
            Ok(p)
        },
        _ => Err(MessageError::InvalidPayload),
    }
}

pub open spec fn property_fields(p: (String, String)) -> Seq<PodValue> {
    seq![str_of(p.0@), str_of(p.1@)]
}

/// A count followed by the key/value strings.
pub open spec fn property_list(props: Seq<(String, String)>) -> PodValue {
    PodValue::Struct(
        seq![count_of(props.len())] + props.flat_map(|p: (String, String)| property_fields(p)),
    )
}

fn property_list_pod(props: &[(String, String)]) -> (p: Pod)
    ensures
        p@ == property_list(props@),
{
    let mut cs: Vec<Pod> = Vec::new();
    push_count_field(&mut cs, props.len());
    let ghost s0 = fields(cs@);
    let mut k: usize = 0;
    proof {
        lemma_flat_map_all(props@, |p: (String, String)| property_fields(p));
    }
    while k < props.len()
        invariant
            k <= props@.len(),
            s0 == seq![count_of(props@.len())],
            fields(cs@) == s0 + props@.take(k as int).flat_map(
                |p: (String, String)| property_fields(p),
            ),
        decreases props@.len() - k,
    {
        push_str_field(&mut cs, &props[k].0);
        push_str_field(&mut cs, &props[k].1);
        proof {
            assert(props@.take(k + 1) =~= props@.take(k as int).push(props@[k as int]));
            lemma_flat_map_push(
                props@.take(k as int),
                props@[k as int],
                |p: (String, String)| property_fields(p),
            );
        }
        k = k + 1;
    }
    assert(props@.take(k as int) =~= props@);
    Pod::Struct(cs)
}

pub open spec fn core_info_fields(
    cookie: u32,
    user_name: Seq<char>,
    host_name: Seq<char>,
    version: Seq<char>,
    name: Seq<char>,
    props: Seq<(String, String)>,
) -> Seq<PodValue> {
    seq![
        int_of(CORE_ID),
        int_of(cookie),
        str_of(user_name),
        str_of(host_name),
        str_of(version),
        str_of(name),
        long_of(1),
        property_list(props),
    ]
}

/// Encodes a minimal `Core::Info` payload; fails exactly when a string
/// holds NUL.
pub fn encode_core_info_payload(
    cookie: u32,
    user_name: &str,
    host_name: &str,
    version: &str,
    name: &str,
    props: &[(String, String)],
) -> (r: Result<Vec<u8>, MessageError>)
    ensures
        r is Ok <==> struct_wf(
            core_info_fields(cookie, user_name@, host_name@, version@, name@, props@),
        ),
        r is Err ==> r == Err::<Vec<u8>, MessageError>(MessageError::Unencodable),
        r matches Ok(b) ==> b@ == struct_payload(
            core_info_fields(cookie, user_name@, host_name@, version@, name@, props@),
        ),
{
    let mut cs: Vec<Pod> = Vec::new();
    push_u32_field(&mut cs, CORE_ID);
    push_u32_field(&mut cs, cookie);
    push_text_field(&mut cs, user_name);
    push_text_field(&mut cs, host_name);
    push_text_field(&mut cs, version);
    push_text_field(&mut cs, name);
    push_u64_field(&mut cs, 1);
    push_field(&mut cs, property_list_pod(props));
    assert(fields(cs@) =~= core_info_fields(cookie, user_name@, host_name@, version@, name@, props@));
    encode_exact(
        cs,
        Ghost(core_info_fields(cookie, user_name@, host_name@, version@, name@, props@)),
    )
}

pub open spec fn registry_global_fields(
    id: u32,
    permissions: u32,
    type_: Seq<char>,
    version: u32,
    props: Seq<(String, String)>,
) -> Seq<PodValue> {
    seq![int_of(id), int_of(permissions), str_of(type_), int_of(version), property_list(props)]
}

/// Encodes a `Registry::Global` payload; fails exactly when a string holds
/// NUL.
pub fn encode_registry_global_payload(
    id: u32,
    permissions: u32,
    type_: &str,
    version: u32,
    props: &[(String, String)],
) -> (r: Result<Vec<u8>, MessageError>)
    ensures
        r is Ok <==> struct_wf(registry_global_fields(id, permissions, type_@, version, props@)),
        r is Err ==> r == Err::<Vec<u8>, MessageError>(MessageError::Unencodable),
        r matches Ok(b) ==> b@ == struct_payload(
            registry_global_fields(id, permissions, type_@, version, props@),
        ),
{
    let mut cs: Vec<Pod> = Vec::new();
    push_u32_field(&mut cs, id);
    push_u32_field(&mut cs, permissions);
    push_text_field(&mut cs, type_);
    push_u32_field(&mut cs, version);
    push_field(&mut cs, property_list_pod(props));
    assert(fields(cs@) =~= registry_global_fields(id, permissions, type_@, version, props@));
    encode_exact(cs, Ghost(registry_global_fields(id, permissions, type_@, version, props@)))
}

fn encode_exact(cs: Vec<Pod>, Ghost(fs): Ghost<Seq<PodValue>>) -> (r: Result<Vec<u8>, MessageError>)
    requires
        fields(cs@) == fs,
    ensures
        r is Ok <==> struct_wf(fs),
        r matches Ok(b) ==> b@ == struct_payload(fs),
        r is Err ==> r == Err::<Vec<u8>, MessageError>(MessageError::Unencodable),
{
    match encode_fields(cs) {
        Ok(b) => Ok(b),
        Err(_) => Err(MessageError::Unencodable),
    }
}

fn finish(cs: Vec<Pod>, Ghost(fs): Ghost<Seq<PodValue>>) -> (r: Result<Vec<u8>, MessageError>)
    requires
        fields(cs@) == fs,
        struct_wf(fs) || (fs.len() <= 16 && forall|i: int|
            0 <= i < fs.len() ==> crate::fields::small_field(#[trigger] fs[i])),
    ensures
        r matches Ok(b) && b@ == struct_payload(fs),
{
    proof {
        if !struct_wf(fs) {
            crate::fields::lemma_flat_fields_wf(fs);
        }
    }
    match encode_fields(cs) {
        Ok(b) => Ok(b),
        Err(_) => Err(MessageError::Unencodable),
    }
}

/// Decoding the encoding of a message's leading fields reads them back.
pub proof fn law_sync_round_trip(id: u32, seq: u32)
    ensures
        inbound_accepted(
            InboundMessage::CoreSync { id, seq },
            Route::CoreSync,
            struct_payload(seq![int_of(id), int_of(seq)]),
        ),
{
    let fs = seq![int_of(id), int_of(seq)];
    crate::fields::lemma_flat_fields_wf(fs);
    let p = struct_payload(fs);
    assert(p.take(p.len() as int) =~= p);
    assert(struct_prefix(p, fs));
}

// ---------------------------------------------------------------------------
// Script expectations and state.

/// Inbound message expectation for a script step.
#[derive(Clone, Copy, Debug, PartialEq, Eq, Structural)]
pub enum Expectation {
    Any,
    CoreHello,
    ClientUpdateProperties,
    CoreGetRegistry,
    CoreSync,
    RegistryBind,
    RegistryDestroy,
    /// Exact object id and opcode, whatever the decoded message.
    Exact { object_id: u32, opcode: u8 },
}

pub open spec fn expectation_holds(e: Expectation, object_id: u32, opcode: u8, inbound: InboundMessage) -> bool {
    match e {
        Expectation::Any => true,
        Expectation::CoreHello => inbound is CoreHello,
        Expectation::ClientUpdateProperties => inbound is ClientUpdateProperties,
        Expectation::CoreGetRegistry => inbound is CoreGetRegistry,
        Expectation::CoreSync => inbound is CoreSync,
        Expectation::RegistryBind => inbound is RegistryBind,
        Expectation::RegistryDestroy => inbound is RegistryDestroy,
        Expectation::Exact { object_id: o, opcode: c } => object_id == o && opcode == c,
    }
}

impl Expectation {
    /// Whether an inbound message satisfies this expectation.
    pub fn matches(&self, object_id: u32, opcode: u8, inbound: &InboundMessage) -> (b: bool)
        ensures
            b == expectation_holds(*self, object_id, opcode, *inbound),
    {
        match self {
            Expectation::Any => true,
            Expectation::CoreHello => matches!(inbound, InboundMessage::CoreHello { .. }),
            Expectation::ClientUpdateProperties => matches!(
                inbound,
                InboundMessage::ClientUpdateProperties
            ),
            Expectation::CoreGetRegistry => matches!(inbound, InboundMessage::CoreGetRegistry { .. }),
            Expectation::CoreSync => matches!(inbound, InboundMessage::CoreSync { .. }),
            Expectation::RegistryBind => matches!(inbound, InboundMessage::RegistryBind { .. }),
            Expectation::RegistryDestroy => matches!(inbound, InboundMessage::RegistryDestroy { .. }),
            Expectation::Exact { object_id: o, opcode: c } => object_id == *o && opcode == *c,
        }
    }
}

/// Last `Core::Sync` values observed from inbound client messages.
#[derive(Clone, Copy, Debug, PartialEq, Eq, Structural)]
pub struct SyncState {
    pub id: u32,
    pub seq: u32,
}

/// State tracked while executing a scripted scenario.
#[derive(Clone, Copy, Debug, PartialEq, Eq, Structural)]
pub struct ExecutionState {
    /// Most recent sync request observed from the client.
    pub last_sync: Option<SyncState>,
    /// Most recent registry proxy id requested through `Core::GetRegistry`.
    pub last_registry_proxy_id: Option<u32>,
    /// Number of scripted steps that were matched.
    pub completed_steps: usize,
    /// Number of accepted client connections.
    pub accepted_clients: usize,
    /// Number of rejected additional client connections.
    pub rejected_clients: usize,
}

impl Default for ExecutionState {
    fn default() -> (s: Self)
        ensures
            s == (ExecutionState {
                last_sync: None,
                last_registry_proxy_id: None,
                completed_steps: 0,
                accepted_clients: 0,
                rejected_clients: 0,
            }),
    {
        ExecutionState {
            last_sync: None,
            last_registry_proxy_id: None,
            completed_steps: 0,
            accepted_clients: 0,
            rejected_clients: 0,
        }
    }
}

/// The state after observing an inbound message: a sync is remembered for
/// `Core::Done`, a registry request for the registry events.
pub open spec fn observed(s: ExecutionState, inbound: InboundMessage) -> ExecutionState {
    match inbound {
        InboundMessage::CoreSync { id, seq } => ExecutionState {
            last_sync: Some(SyncState { id, seq }),
            ..s
        },
        InboundMessage::CoreGetRegistry { new_id, .. } => ExecutionState {
            last_registry_proxy_id: Some(new_id),
            ..s
        },
        _ => s,
    }
}

pub fn update_state_from_inbound(state: &mut ExecutionState, inbound: &InboundMessage)
    ensures
        *final(state) == observed(*old(state), *inbound),
{
    match inbound {
        InboundMessage::CoreSync { id, seq } => {
            state.last_sync = Some(SyncState { id: *id, seq: *seq });
        },
        InboundMessage::CoreGetRegistry { new_id, .. } => {
            state.last_registry_proxy_id = Some(*new_id);
        },
        _ => {},
    }
}

/// Payload for emitting a `Core::Info` event.
#[derive(Debug, Clone)]
pub struct CoreInfoAction {
    pub cookie: u32,
    pub user_name: String,
    pub host_name: String,
    pub version: String,
    pub name: String,
    pub props: Vec<(String, String)>,
}

/// Payload for emitting a `Registry::Global` event.
#[derive(Debug, Clone)]
pub struct RegistryGlobalAction {
    pub id: u32,
    pub permissions: u32,
    pub type_: String,
    pub version: u32,
    pub props: Vec<(String, String)>,
}

/// Payload for emitting `Core::Error`.
#[derive(Debug, Clone)]
pub struct CoreErrorAction {
    pub id: u32,
    pub seq: u32,
    pub res: i32,
    pub message: String,
}

/// Payload for emitting `Core::AddMem`.
#[derive(Debug, Clone)]
pub struct CoreAddMemAction {
    pub id: u32,
    pub memory_type: u32,
    pub fd_index: i32,
    pub flags: u32,
    /// Allocated memfd size in bytes.
    pub size: usize,
}

/// Outbound actions performed when a step expectation is satisfied.
#[derive(Debug, Clone)]
pub enum Action {
    SendCoreInfo(CoreInfoAction),
    /// Emit `Core::Done` with the last captured sync values.
    SendCoreDoneFromLastSync,
    SendCoreDone { id: u32, seq: u32 },
    SendCoreError(CoreErrorAction),
    /// Emit `Core::AddMem` with a memfd attached.
    SendCoreAddMem(CoreAddMemAction),
    /// Emit `Registry::Global` on the last known registry proxy id.
    SendRegistryGlobalOnLastRegistry(RegistryGlobalAction),
    /// Emit `Registry::GlobalRemove` on the last known registry proxy id.
    SendRegistryGlobalRemoveOnLastRegistry { id: u32 },
    /// Close the current client connection.
    CloseConnection,
}

/// One expected inbound message and the actions that follow it.
#[derive(Debug, Clone)]
pub struct ScriptStep {
    pub expect: Expectation,
    pub actions: Vec<Action>,
    pub name: Option<String>,
}

/// A deterministic scripted scenario.
#[derive(Debug, Clone)]
pub struct Scenario {
    pub steps: Vec<ScriptStep>,
    pub name: Option<String>,
}

/// Summary of one server run.
#[derive(Debug, Clone)]
pub struct RunReport {
    pub completed_steps: usize,
    pub accepted_clients: usize,
    pub rejected_clients: usize,
    pub last_sync: Option<SyncState>,
    pub last_registry_proxy_id: Option<u32>,
    /// Memory ids exported through scripted `Core::AddMem` actions.
    pub exported_mem_ids: Vec<u32>,
    /// Number of live routed client objects at scenario completion.
    pub live_object_routes: usize,
}

/// Why a script step cannot be played.
#[derive(Clone, Copy, Debug, PartialEq, Eq, Structural)]
pub enum ScriptError {
    /// An event has no encoding.
    Message(MessageError),
    /// `Core::Done` from the last sync, but no `Core::Sync` was observed.
    MissingSync,
    /// A registry event, but no `Core::GetRegistry` was observed.
    MissingRegistry,
    /// The inbound frame carried descriptors; none are expected.
    UnexpectedFds(usize),
    /// The inbound message does not meet the step's expectation.
    Mismatch,
}

/// One event the scripted peer sends: its object, opcode and payload, and
/// for `Core::AddMem` the id and size of the memfd that travels with it.
#[derive(Clone, Debug)]
pub struct OutboundEvent {
    pub object_id: u32,
    pub opcode: u8,
    pub payload: Vec<u8>,
    pub memfd: Option<(u32, usize)>,
}

/// The object, opcode, fields and memfd of the event `action` sends in
/// `state`, or why it cannot; `None` for closing the connection.
#[verifier::opaque]
pub open spec fn action_event(state: ExecutionState, action: Action) -> Result<
    Option<(u32, u8, Seq<PodValue>, Option<(u32, usize)>)>,
    ScriptError,
> {
    let ok = |o: u32, c: u8, fs: Seq<PodValue>, m: Option<(u32, usize)>|
        if struct_wf(fs) {
            Ok(Some((o, c, fs, m)))
        } else {
            Err(ScriptError::Message(MessageError::Unencodable))
        };
    match action {
        Action::SendCoreInfo(i) => ok(
            CORE_ID,
            CORE_EVENT_INFO,
            core_info_fields(i.cookie, i.user_name@, i.host_name@, i.version@, i.name@, i.props@),
            None,
        ),
        Action::SendCoreDoneFromLastSync => match state.last_sync {
            None => Err(ScriptError::MissingSync),
            Some(sy) => Ok(Some((CORE_ID, CORE_EVENT_DONE, seq![int_of(sy.id), int_of(sy.seq)], None))),
        },
        Action::SendCoreDone { id, seq } => Ok(Some((CORE_ID, CORE_EVENT_DONE, seq![int_of(id), int_of(seq)], None))),
        Action::SendCoreError(e) => ok(CORE_ID, CORE_EVENT_ERROR, core_error_fields(e.id, e.seq, e.res, e.message@), None),
        Action::SendCoreAddMem(m) => Ok(
            Some(
                (
                    CORE_ID,
                    CORE_EVENT_ADD_MEM,
                    add_mem_fields(
                        CoreAddMemPayload { id: m.id, memory_type: m.memory_type, fd_index: m.fd_index, flags: m.flags },
                    ),
                    Some((m.id, m.size)),
                ),
            ),
        ),
        Action::SendRegistryGlobalOnLastRegistry(g) => match state.last_registry_proxy_id {
            None => Err(ScriptError::MissingRegistry),
            Some(reg) => ok(
                reg,
                REGISTRY_EVENT_GLOBAL,
                registry_global_fields(g.id, g.permissions, g.type_@, g.version, g.props@),
                None,
            ),
        },
        Action::SendRegistryGlobalRemoveOnLastRegistry { id } => match state.last_registry_proxy_id {
            None => Err(ScriptError::MissingRegistry),
            Some(reg) => Ok(Some((reg, REGISTRY_EVENT_GLOBAL_REMOVE, seq![int_of(id)], None))),
        },
        Action::CloseConnection => Ok(None),
    }
}

/// `e` is the event `spec` describes.
pub open spec fn event_is(e: OutboundEvent, spec: (u32, u8, Seq<PodValue>, Option<(u32, usize)>)) -> bool {
    &&& e.object_id == spec.0
    &&& e.opcode == spec.1
    &&& e.payload@ == struct_payload(spec.2)
    &&& e.memfd == spec.3
}

/// What one action gives: the event to send (`None` to close), or why it
/// cannot be sent.
pub open spec fn action_result(
    state: ExecutionState,
    action: Action,
    r: Result<Option<OutboundEvent>, ScriptError>,
) -> bool {
    match action_event(state, action) {
        Err(e) => r == Err::<Option<OutboundEvent>, ScriptError>(e),
        Ok(None) => r matches Ok(None),
        Ok(Some(spec)) => r matches Ok(Some(e)) && event_is(e, spec),
    }
}

fn message_event(
    object_id: u32,
    opcode: u8,
    payload: Result<Vec<u8>, MessageError>,
    memfd: Option<(u32, usize)>,
) -> (r: Result<Option<OutboundEvent>, ScriptError>)
    ensures
        match payload {
            Ok(b) => r matches Ok(Some(e)) && e.object_id == object_id && e.opcode == opcode
                && e.payload@ == b@ && e.memfd == memfd,
            Err(m) => r == Err::<Option<OutboundEvent>, ScriptError>(ScriptError::Message(m)),
        },
{
    match payload {
        Ok(b) => Ok(Some(OutboundEvent { object_id, opcode, payload: b, memfd })),
        Err(m) => Err(ScriptError::Message(m)),
    }
}

/// The event one scripted action sends in `state`.
pub fn apply_action(state: &ExecutionState, action: &Action) -> (r: Result<Option<OutboundEvent>, ScriptError>)
    ensures
        action_result(*state, *action, r),
{
    reveal(action_event);
    match action {
        Action::SendCoreInfo(info) => {
            let props = info.props.as_slice();
            let payload = encode_core_info_payload(
                info.cookie,
                info.user_name.as_str(),
                info.host_name.as_str(),
                info.version.as_str(),
                info.name.as_str(),
                props,
            );
            message_event(CORE_ID, CORE_EVENT_INFO, payload, None)
        },
        Action::SendCoreDoneFromLastSync => match state.last_sync {
            None => Err(ScriptError::MissingSync),
            Some(sync) => message_event(
                CORE_ID,
                CORE_EVENT_DONE,
                encode_core_done_payload(sync.id, sync.seq),
                None,
            ),
        },
        Action::SendCoreDone { id, seq } => message_event(
            CORE_ID,
            CORE_EVENT_DONE,
            encode_core_done_payload(*id, *seq),
            None,
        ),
        Action::SendCoreError(error) => message_event(
            CORE_ID,
            CORE_EVENT_ERROR,
            encode_core_error_payload(error.id, error.seq, error.res, error.message.as_str()),
            None,
        ),
        Action::SendCoreAddMem(mem) => message_event(
            CORE_ID,
            CORE_EVENT_ADD_MEM,
            encode_core_add_mem_payload(mem.id, mem.memory_type, mem.fd_index, mem.flags),
            Some((mem.id, mem.size)),
        ),
        Action::SendRegistryGlobalOnLastRegistry(global) => match state.last_registry_proxy_id {
            None => Err(ScriptError::MissingRegistry),
            Some(registry) => message_event(
                registry,
                REGISTRY_EVENT_GLOBAL,
                encode_registry_global_payload(
                    global.id,
                    global.permissions,
                    global.type_.as_str(),
                    global.version,
                    global.props.as_slice(),
                ),
                None,
            ),
        },
        Action::SendRegistryGlobalRemoveOnLastRegistry { id } => match state.last_registry_proxy_id {
            None => Err(ScriptError::MissingRegistry),
            Some(registry) => message_event(
                registry,
                REGISTRY_EVENT_GLOBAL_REMOVE,
                encode_registry_global_remove_payload(*id),
                None,
            ),
        },
        Action::CloseConnection => Ok(None),
    }
}

/// Where the actions from `k` on stop: the first `CloseConnection`, or
/// their end.
pub open spec fn first_close(actions: Seq<Action>, k: int) -> int
    decreases actions.len() - k,
{
    if k < 0 || k >= actions.len() {
        actions.len() as int
    } else if actions[k] is CloseConnection {
        k
    } else {
        first_close(actions, k + 1)
    }
}

/// Only `CloseConnection` gives no event, and it never fails.
proof fn lemma_close_event(state: ExecutionState, action: Action)
    ensures
        action_event(state, action) matches Ok(None) <==> action is CloseConnection,
{
    reveal(action_event);
}

/// The first close from `k` lies between `k` and the end.
proof fn lemma_first_close_bounds(actions: Seq<Action>, k: int)
    requires
        0 <= k <= actions.len(),
    ensures
        k <= first_close(actions, k) <= actions.len(),
    decreases actions.len() - k,
{
    if k < actions.len() && !(actions[k] is CloseConnection) {
        lemma_first_close_bounds(actions, k + 1);
    }
}

/// An action that is not `CloseConnection` lies before the first close
/// from its position.
proof fn lemma_first_close_after(actions: Seq<Action>, k: int)
    requires
        0 <= k < actions.len(),
        !(actions[k] is CloseConnection),
    ensures
        k < first_close(actions, k),
{
    lemma_first_close_bounds(actions, k + 1);
}

/// `e` is the event `action` sends in `state`.
pub open spec fn event_matches(state: ExecutionState, action: Action, e: OutboundEvent) -> bool {
    match action_event(state, action) {
        Ok(Some(spec)) => event_is(e, spec),
        _ => false,
    }
}

/// `events` are the events of the first `n` actions, each sent in `state`.
pub open spec fn events_of(state: ExecutionState, actions: Seq<Action>, events: Seq<OutboundEvent>, n: int) -> bool {
    &&& events.len() == n
    &&& forall|k: int| 0 <= k < n ==> event_matches(state, actions[k], #[trigger] events[k])
}

#[verifier::rlimit(40)]
/// Plays one script step against an inbound message: the frame must carry
/// no descriptors and meet the step's expectation; the message updates the
/// state, and the step's actions up to a `CloseConnection` give the events
/// to send, in order. The flag tells whether the connection is to close.
pub fn play_step(
    state: &mut ExecutionState,
    step: &ScriptStep,
    object_id: u32,
    opcode: u8,
    inbound: &InboundMessage,
    fd_count: usize,
) -> (r: Result<(Vec<OutboundEvent>, bool), ScriptError>)
    requires
        old(state).completed_steps < usize::MAX,
    ensures
        fd_count > 0 ==> r == Err::<(Vec<OutboundEvent>, bool), ScriptError>(ScriptError::UnexpectedFds(fd_count))
            && *final(state) == *old(state),
        fd_count == 0 && !expectation_holds(step.expect, object_id, opcode, *inbound) ==> r == Err::<
            (Vec<OutboundEvent>, bool),
            ScriptError,
        >(ScriptError::Mismatch) && *final(state) == *old(state),
        fd_count == 0 && expectation_holds(step.expect, object_id, opcode, *inbound) ==> ({
            let s1 = observed(*old(state), *inbound);
            let m = first_close(step.actions@, 0);
            &&& (forall|k: int| 0 <= k < m ==> (#[trigger] action_event(s1, step.actions@[k])) is Ok) ==> r is Ok
            &&& r matches Ok((events, closed)) ==> {
                &&& events_of(s1, step.actions@, events@, m)
                &&& closed == (m < step.actions@.len())
                &&& *final(state) == ExecutionState { completed_steps: (s1.completed_steps + 1) as usize, ..s1 }
            }
            &&& r matches Err(e) ==> *final(state) == s1 && exists|k: int|
                0 <= k < m && #[trigger] action_event(s1, step.actions@[k]) == Err::<
                    Option<(u32, u8, Seq<PodValue>, Option<(u32, usize)>)>,
                    ScriptError,
                >(e)
        }),
{
    if fd_count > 0 {
        return Err(ScriptError::UnexpectedFds(fd_count));
    }
    if !step.expect.matches(object_id, opcode, inbound) {
        return Err(ScriptError::Mismatch);
    }
    update_state_from_inbound(state, inbound);
    let ghost s1 = *state;
    let ghost acts = step.actions@;
    let mut events: Vec<OutboundEvent> = Vec::new();
    let n = step.actions.len();
    let mut k: usize = 0;
    let mut closed = false;
    let mut failure: Option<ScriptError> = None;
    while k < n
        invariant_except_break
            !closed,
            failure is None,
            first_close(acts, 0) == first_close(acts, k as int),
        invariant
            n == acts.len(),
            acts == step.actions@,
            k <= n,
            *state == s1,
            events_of(s1, acts, events@, k as int),
            forall|j: int| 0 <= j < k ==> !(#[trigger] acts[j] is CloseConnection),
        ensures
            failure matches Some(e) ==> !closed && k < first_close(acts, 0) && action_event(s1, acts[k as int])
                == Err::<Option<(u32, u8, Seq<PodValue>, Option<(u32, usize)>)>, ScriptError>(e),
            closed ==> failure is None && k < n && acts[k as int] is CloseConnection && first_close(acts, 0) == k,
            !closed && failure is None ==> k == n && first_close(acts, 0) == n,
        decreases n - k,
    {
        let ghost ae = action_event(s1, acts[k as int]);
        proof {
            assert(first_close(acts, k as int) == if acts[k as int] is CloseConnection {
                k as int
            } else {
                first_close(acts, k + 1)
            });
        }
        proof {
            lemma_close_event(s1, acts[k as int]);
        }
        let outcome = apply_action(state, &step.actions[k]);
        match outcome {
            Err(e) => {
                proof {
                    assert(ae == Err::<Option<(u32, u8, Seq<PodValue>, Option<(u32, usize)>)>, ScriptError>(e));
                    lemma_first_close_after(acts, k as int);
                }
                failure = Some(e);
                break;
            },
            Ok(None) => {
                closed = true;
                break;
            },
            Ok(Some(event)) => {
                let ghost before = events@;
                events.push(event);
                proof {
                    assert forall|j: int| 0 <= j < k + 1 implies event_matches(s1, acts[j], #[trigger] events@[j]) by {
                        if j < k {
                            assert(events@[j] == before[j]);
                        }
                    }
                    assert(events_of(s1, acts, events@, k + 1));
                }
            },
        }
        k = k + 1;
    }
    if let Some(e) = failure {
        return Err(e);
    }
    state.completed_steps = state.completed_steps + 1;
    Ok((events, closed))
}

// ---------------------------------------------------------------------------
// Client methods on Core.

/// A method a client calls on the Core object.
#[derive(Clone, Debug)]
pub enum ClientMethod {
    Hello { version: u32 },
    Sync { id: u32, seq: u32 },
    Pong { id: u32, seq: u32 },
    Error { id: u32, seq: u32, res: i32, message: String },
    GetRegistry { version: u32, new_id: u32 },
    CreateObject {
        factory_name: String,
        type_: String,
        version: u32,
        props: Vec<(String, String)>,
        new_id: u32,
    },
    Destroy { id: u32 },
}

/// The Core method opcode of `m`.
pub open spec fn method_opcode(m: ClientMethod) -> u8 {
    match m {
        ClientMethod::Hello { .. } => 1,
        ClientMethod::Sync { .. } => 2,
        ClientMethod::Pong { .. } => 3,
        ClientMethod::Error { .. } => 4,
        ClientMethod::GetRegistry { .. } => 5,
        ClientMethod::CreateObject { .. } => 6,
        ClientMethod::Destroy { .. } => 7,
    }
}

/// The struct fields `m` is encoded as.
pub open spec fn method_fields(m: ClientMethod) -> Seq<PodValue> {
    match m {
        ClientMethod::Hello { version } => seq![int_of(version)],
        ClientMethod::Sync { id, seq } => seq![int_of(id), int_of(seq)],
        ClientMethod::Pong { id, seq } => seq![int_of(id), int_of(seq)],
        ClientMethod::Error { id, seq, res, message } => core_error_fields(id, seq, res, message@),
        ClientMethod::GetRegistry { version, new_id } => seq![int_of(version), int_of(new_id)],
        ClientMethod::CreateObject { factory_name, type_, version, props, new_id } => seq![
            str_of(factory_name@),
            str_of(type_@),
            int_of(version),
            property_list(props@),
            int_of(new_id),
        ],
        ClientMethod::Destroy { id } => seq![int_of(id)],
    }
}

/// Encodes a client's Core method call: its opcode and payload. Fails
/// exactly when a string holds NUL.
pub fn marshal_method(m: &ClientMethod) -> (r: Result<(u8, Vec<u8>), MessageError>)
    ensures
        r is Ok <==> struct_wf(method_fields(*m)),
        r matches Ok((op, b)) ==> op == method_opcode(*m) && b@ == struct_payload(method_fields(*m)),
        r is Err ==> r == Err::<(u8, Vec<u8>), MessageError>(MessageError::Unencodable),
{
    let mut cs: Vec<Pod> = Vec::new();
    let opcode: u8 = match m {
        ClientMethod::Hello { version } => {
            push_u32_field(&mut cs, *version);
            1
        },
        ClientMethod::Sync { id, seq } => {
            push_u32_field(&mut cs, *id);
            push_u32_field(&mut cs, *seq);
            2
        },
        ClientMethod::Pong { id, seq } => {
            push_u32_field(&mut cs, *id);
            push_u32_field(&mut cs, *seq);
            3
        },
        ClientMethod::Error { id, seq, res, message } => {
            push_u32_field(&mut cs, *id);
            push_u32_field(&mut cs, *seq);
            push_i32_field(&mut cs, *res);
            push_text_field(&mut cs, message.as_str());
            4
        },
        ClientMethod::GetRegistry { version, new_id } => {
            push_u32_field(&mut cs, *version);
            push_u32_field(&mut cs, *new_id);
            5
        },
        ClientMethod::CreateObject { factory_name, type_, version, props, new_id } => {
            push_text_field(&mut cs, factory_name.as_str());
            push_text_field(&mut cs, type_.as_str());
            push_u32_field(&mut cs, *version);
            push_field(&mut cs, property_list_pod(props.as_slice()));
            push_u32_field(&mut cs, *new_id);
            6
        },
        ClientMethod::Destroy { id } => {
            push_u32_field(&mut cs, *id);
            7
        },
    };
    assert(fields(cs@) =~= method_fields(*m));
    match encode_exact(cs, Ghost(method_fields(*m))) {
        Ok(b) => Ok((opcode, b)),
        Err(e) => Err(e),
    }
}

// ---------------------------------------------------------------------------
// Core events, as a client receives them.

/// Core event opcodes.
pub const CORE_EVENT_PING: u8 = 2;
pub const CORE_EVENT_REMOVE_ID: u8 = 4;
pub const CORE_EVENT_BOUND_ID: u8 = 5;
pub const CORE_EVENT_BOUND_PROPS: u8 = 8;

/// One event the Core object sends a client. Property lists are kept as
/// the POD they arrived as.
pub enum CoreEvent {
    Info {
        id: u32,
        cookie: u32,
        user_name: String,
        host_name: String,
        version: String,
        name: String,
        change_mask: u64,
        props: Pod,
    },
    Done { id: u32, seq: u32 },
    Ping { id: u32, seq: u32 },
    Error { id: u32, seq: u32, res: i32, message: String },
    RemoveId { id: u32 },
    BoundId { id: u32, global_id: u32 },
    AddMem(CoreAddMemPayload),
    RemoveMem { id: u32 },
    BoundProps { id: u32, global_id: u32, props: Pod },
}

/// The opcode of `e`.
pub open spec fn core_event_opcode(e: CoreEvent) -> u8 {
    match e {
        CoreEvent::Info { .. } => CORE_EVENT_INFO,
        CoreEvent::Done { .. } => CORE_EVENT_DONE,
        CoreEvent::Ping { .. } => CORE_EVENT_PING,
        CoreEvent::Error { .. } => CORE_EVENT_ERROR,
        CoreEvent::RemoveId { .. } => CORE_EVENT_REMOVE_ID,
        CoreEvent::BoundId { .. } => CORE_EVENT_BOUND_ID,
        CoreEvent::AddMem(_) => CORE_EVENT_ADD_MEM,
        CoreEvent::RemoveMem { .. } => CORE_EVENT_REMOVE_MEM,
        CoreEvent::BoundProps { .. } => CORE_EVENT_BOUND_PROPS,
    }
}

/// A property list POD: a struct of a count and key/value strings.
pub open spec fn props_ok(p: PodValue) -> bool {
    p is Struct && property_list_shape(p->Struct_0)
}

/// The leading fields of an event struct carry `e`; later fields are not
/// read.
pub open spec fn core_event_fields_ok(e: CoreEvent, fs: Seq<PodValue>) -> bool {
    match e {
        CoreEvent::Info { id, cookie, user_name, host_name, version, name, change_mask, props } => fs.len()
            >= 8 && fs[0] == int_of(id) && fs[1] == int_of(cookie) && fs[2] == str_of(user_name@) && fs[3]
            == str_of(host_name@) && fs[4] == str_of(version@) && fs[5] == str_of(name@) && fs[6] == long_of(
            change_mask,
        ) && fs[7] == props@ && props_ok(props@),
        CoreEvent::Done { id, seq } => fs.len() >= 2 && fs[0] == int_of(id) && fs[1] == int_of(seq),
        CoreEvent::Ping { id, seq } => fs.len() >= 2 && fs[0] == int_of(id) && fs[1] == int_of(seq),
        CoreEvent::Error { id, seq, res, message } => fs.len() >= 4 && fs[0] == int_of(id) && fs[1] == int_of(
            seq,
        ) && fs[2] == PodValue::Int(res) && fs[3] == str_of(message@),
        CoreEvent::RemoveId { id } => fs.len() >= 1 && fs[0] == int_of(id),
        CoreEvent::BoundId { id, global_id } => fs.len() >= 2 && fs[0] == int_of(id) && fs[1] == int_of(
            global_id,
        ),
        CoreEvent::AddMem(p) => fs.len() >= 4 && fs.take(4) == add_mem_fields(p),
        CoreEvent::RemoveMem { id } => fs.len() >= 1 && fs[0] == int_of(id),
        CoreEvent::BoundProps { id, global_id, props } => fs.len() >= 3 && fs[0] == int_of(id) && fs[1]
            == int_of(global_id) && fs[2] == props@ && props_ok(props@),
    }
}

/// `e` is what a Core event payload of `opcode` reads as.
pub open spec fn core_event_accepted(e: CoreEvent, opcode: u8, payload: Seq<u8>) -> bool {
    core_event_opcode(e) == opcode && exists|fs: Seq<PodValue>|
        struct_wf(fs) && #[trigger] struct_prefix(payload, fs) && core_event_fields_ok(e, fs)
}

fn i32_at(cs: &Vec<Pod>, pos: usize) -> (r: Option<i32>)
    ensures
        r matches Some(x) ==> field(cs@, pos as int) == Some(PodValue::Int(x)),
        forall|x: i32| field(cs@, pos as int) == Some(PodValue::Int(x)) ==> r == Some(x),
{
    if pos < cs.len() {
        proof {
            crate::fields::lemma_field(cs@, pos as int);
        }
        match &cs[pos] {
            Pod::Int(v) => Some(*v),
            _ => None,
        }
    } else {
        None
    }
}

fn props_at(cs: &Vec<Pod>, pos: usize) -> (r: Option<Pod>)
    ensures
        r matches Some(p) ==> field(cs@, pos as int) == Some(p@) && props_ok(p@),
        forall|v: PodValue| field(cs@, pos as int) == Some(v) && props_ok(v) ==> r is Some,
{
    if pos < cs.len() {
        let p = crate::fields::pod_at(cs, pos);
        if read_property_list(&p) {
            Some(p)
        } else {
            None
        }
    } else {
        None
    }
}

/// Decodes a Core event a client received: the leading fields of its
/// struct as the opcode's event; an opcode the Core does not send is
/// refused as such.
pub fn decode_core_event(opcode: u8, payload: &[u8]) -> (r: Result<CoreEvent, MessageError>)
    ensures
        opcode > CORE_EVENT_BOUND_PROPS ==> r == Err::<CoreEvent, MessageError>(MessageError::UnknownOpcode(opcode)),
        opcode <= CORE_EVENT_BOUND_PROPS ==> match r {
            Ok(e) => core_event_accepted(e, opcode, payload@),
            Err(e) => e == MessageError::InvalidPayload && forall|ev: CoreEvent|
                !#[trigger] core_event_accepted(ev, opcode, payload@),
        },
{
    if opcode > CORE_EVENT_BOUND_PROPS {
        return Err(MessageError::UnknownOpcode(opcode));
    }
    if opcode == CORE_EVENT_ADD_MEM {
        return match decode_core_add_mem_payload(payload) {
            Ok(p) => Ok(CoreEvent::AddMem(p)),
            Err(e) => Err(e),
        };
    }
    let cs = match decode_leading_fields(payload) {
        Some(cs) => cs,
        None => {
            return Err(MessageError::InvalidPayload);
        },
    };
    proof {
        lemma_pods_view_index(cs@);
        let k = cs@.len();
        if k > 0 { crate::fields::lemma_field(cs@, 0); }
        if k > 1 { crate::fields::lemma_field(cs@, 1); }
        if k > 2 { crate::fields::lemma_field(cs@, 2); }
        if k > 3 { crate::fields::lemma_field(cs@, 3); }
        if k > 4 { crate::fields::lemma_field(cs@, 4); }
        if k > 5 { crate::fields::lemma_field(cs@, 5); }
        if k > 6 { crate::fields::lemma_field(cs@, 6); }
        if k > 7 { crate::fields::lemma_field(cs@, 7); }
    }
    let a = u32_at(&cs, 0);
    let b = u32_at(&cs, 1);
    let e = if opcode == CORE_EVENT_INFO {
        match (
            a,
            b,
            string_at(&cs, 2),
            string_at(&cs, 3),
            string_at(&cs, 4),
            string_at(&cs, 5),
            crate::fields::u64_at(&cs, 6),
            props_at(&cs, 7),
        ) {
            (
                Some(id),
                Some(cookie),
                Some(user_name),
                Some(host_name),
                Some(version),
                Some(name),
                Some(change_mask),
                Some(props),
            ) => CoreEvent::Info { id, cookie, user_name, host_name, version, name, change_mask, props },
            _ => {
                return Err(MessageError::InvalidPayload);
            },
        }
    } else if opcode == CORE_EVENT_DONE || opcode == CORE_EVENT_PING || opcode == CORE_EVENT_BOUND_ID {
        match (a, b) {
            (Some(x), Some(y)) => if opcode == CORE_EVENT_DONE {
                CoreEvent::Done { id: x, seq: y }
            } else if opcode == CORE_EVENT_PING {
                CoreEvent::Ping { id: x, seq: y }
            } else {
                CoreEvent::BoundId { id: x, global_id: y }
            },
            _ => {
                return Err(MessageError::InvalidPayload);
            },
        }
    } else if opcode == CORE_EVENT_ERROR {
        match (a, b, i32_at(&cs, 2), string_at(&cs, 3)) {
            (Some(id), Some(seq), Some(res), Some(message)) => CoreEvent::Error { id, seq, res, message },
            _ => {
                return Err(MessageError::InvalidPayload);
            },
        }
    } else if opcode == CORE_EVENT_REMOVE_ID || opcode == CORE_EVENT_REMOVE_MEM {
        match a {
            Some(id) => if opcode == CORE_EVENT_REMOVE_ID {
                CoreEvent::RemoveId { id }
            } else {
                CoreEvent::RemoveMem { id }
            },
            None => {
                return Err(MessageError::InvalidPayload);
            },
        }
    } else {
        match (a, b, props_at(&cs, 2)) {
            (Some(id), Some(global_id), Some(props)) => CoreEvent::BoundProps { id, global_id, props },
            _ => {
                return Err(MessageError::InvalidPayload);
            },
        }
    };
    proof {
        assert(core_event_fields_ok(e, fields(cs@)));
        assert(struct_prefix(payload@, fields(cs@)));
    }
    Ok(e)
}

/// A payload that is exactly the struct `fs` begins with no other struct.
proof fn lemma_exact_struct(fs: Seq<PodValue>, gs: Seq<PodValue>)
    requires
        struct_wf(fs),
        struct_wf(gs),
        struct_prefix(struct_payload(fs), gs),
    ensures
        gs == fs,
{
    let p = struct_payload(fs);
    assert(p.take(p.len() as int) =~= p);
    crate::fields::lemma_prefix_unique(p, PodValue::Struct(fs), PodValue::Struct(gs));
}

/// An exact expectation holds for a frame exactly when both the frame's
/// object id and its opcode are the expected ones, whatever the message
/// decoded from it: a frame whose opcode or object differs is a mismatch.
pub proof fn law_exact_expectation(
    expected_object: u32,
    expected_opcode: u8,
    object_id: u32,
    opcode: u8,
    inbound: InboundMessage,
)
    ensures
        expectation_holds(
            Expectation::Exact { object_id: expected_object, opcode: expected_opcode },
            object_id,
            opcode,
            inbound,
        ) <==> (object_id == expected_object && opcode == expected_opcode),
{
}

/// A pong answers the ping it echoes: it is sent with the Pong opcode and
/// its payload is the struct of the ping's id then its seq, laid out as a
/// Sync of the same id and seq, and read back as exactly that Ping event.
pub proof fn law_pong_answers_ping(id: u32, seq: u32, e: CoreEvent)
    ensures
        method_opcode(ClientMethod::Pong { id, seq }) == 3,
        method_fields(ClientMethod::Pong { id, seq }) == seq![
            PodValue::Int(id as i32),
            PodValue::Int(seq as i32),
        ],
        method_fields(ClientMethod::Pong { id, seq }) == method_fields(ClientMethod::Sync { id, seq }),
        core_event_accepted(
            e,
            CORE_EVENT_PING,
            struct_payload(method_fields(ClientMethod::Pong { id, seq })),
        ) <==> e == (CoreEvent::Ping { id, seq }),
{
    law_ping_reads_id_then_seq(id, seq, e);
}

/// A Ping event is read from its struct's first field as its id and its
/// second as its seq, as a Done event is: the payload `Struct[Int id, Int
/// seq]` under the Ping opcode is read as `Ping { id, seq }` and as no
/// other event.
pub proof fn law_ping_reads_id_then_seq(id: u32, seq: u32, e: CoreEvent)
    ensures
        core_event_accepted(
            e,
            CORE_EVENT_PING,
            struct_payload(seq![PodValue::Int(id as i32), PodValue::Int(seq as i32)]),
        ) <==> e == (CoreEvent::Ping { id, seq }),
        core_event_accepted(
            e,
            CORE_EVENT_DONE,
            struct_payload(seq![PodValue::Int(id as i32), PodValue::Int(seq as i32)]),
        ) <==> e == (CoreEvent::Done { id, seq }),
{
    let fs = seq![int_of(id), int_of(seq)];
    crate::fields::lemma_flat_fields_wf(fs);
    let p = struct_payload(fs);
    assert(p.take(p.len() as int) =~= p);
    assert(struct_prefix(p, fs));
    if core_event_accepted(e, CORE_EVENT_PING, p) || core_event_accepted(e, CORE_EVENT_DONE, p) {
        let gs = choose|gs: Seq<PodValue>|
            struct_wf(gs) && #[trigger] struct_prefix(p, gs) && core_event_fields_ok(e, gs);
        lemma_exact_struct(fs, gs);
        crate::fields::lemma_u32_i32(id);
        crate::fields::lemma_u32_i32(seq);
        match e {
            CoreEvent::Ping { id: a, seq: b } => {
                crate::fields::lemma_u32_i32(a);
                crate::fields::lemma_u32_i32(b);
            },
            CoreEvent::Done { id: a, seq: b } => {
                crate::fields::lemma_u32_i32(a);
                crate::fields::lemma_u32_i32(b);
            },
            _ => {},
        }
    }
    if e == (CoreEvent::Ping { id, seq }) || e == (CoreEvent::Done { id, seq }) {
        assert(core_event_fields_ok(e, fs));
    }
}

/// A Registry::Bind payload `Struct[id, type, version, new_id]` is read as
/// the bind of global `id` to interface `type` at `version` into proxy
/// `new_id`: the third field is the version and the fourth the new id.
pub proof fn law_registry_bind_field_order(
    id: u32,
    type_: String,
    version: u32,
    new_id: u32,
    m: InboundMessage,
)
    requires
        struct_wf(seq![int_of(id), str_of(type_@), int_of(version), int_of(new_id)]),
    ensures
        inbound_accepted(
            InboundMessage::RegistryBind { id, type_, version, new_id },
            Route::RegistryBind,
            struct_payload(seq![int_of(id), str_of(type_@), int_of(version), int_of(new_id)]),
        ),
        inbound_accepted(
            m,
            Route::RegistryBind,
            struct_payload(seq![int_of(id), str_of(type_@), int_of(version), int_of(new_id)]),
        ) ==> (m matches InboundMessage::RegistryBind { id: i, type_: t, version: v, new_id: n } && i == id
            && str_of(t@) == str_of(type_@) && v == version && n == new_id),
{
    let fs = seq![int_of(id), str_of(type_@), int_of(version), int_of(new_id)];
    let p = struct_payload(fs);
    assert(p.take(p.len() as int) =~= p);
    assert(struct_prefix(p, fs));
    assert(message_fields_ok(InboundMessage::RegistryBind { id, type_, version, new_id }, fs));
    if inbound_accepted(m, Route::RegistryBind, p) {
        let gs = choose|gs: Seq<PodValue>|
            struct_wf(gs) && #[trigger] struct_prefix(p, gs) && message_fields_ok(m, gs);
        lemma_exact_struct(fs, gs);
        crate::fields::lemma_u32_i32(id);
        crate::fields::lemma_u32_i32(version);
        crate::fields::lemma_u32_i32(new_id);
        if let InboundMessage::RegistryBind { id: i, type_: t, version: v, new_id: n } = m {
            crate::fields::lemma_u32_i32(i);
            crate::fields::lemma_u32_i32(v);
            crate::fields::lemma_u32_i32(n);
        }
    }
}

/// An event read from a payload that is exactly the struct `fs` is read
/// from `fs` itself.
proof fn lemma_event_read(e: CoreEvent, opcode: u8, fs: Seq<PodValue>)
    requires
        struct_wf(fs),
        core_event_accepted(e, opcode, struct_payload(fs)),
    ensures
        core_event_opcode(e) == opcode,
        core_event_fields_ok(e, fs),
{
    let p = struct_payload(fs);
    let gs = choose|gs: Seq<PodValue>| struct_wf(gs) && #[trigger] struct_prefix(p, gs) && core_event_fields_ok(e, gs);
    lemma_exact_struct(fs, gs);
}

/// A payload that is exactly the struct `fs` is read as each event whose
/// fields `fs` carries.
proof fn lemma_event_accepts(e: CoreEvent, fs: Seq<PodValue>)
    requires
        struct_wf(fs),
        core_event_fields_ok(e, fs),
    ensures
        core_event_accepted(e, core_event_opcode(e), struct_payload(fs)),
{
    let p = struct_payload(fs);
    assert(p.take(p.len() as int) =~= p);
    assert(struct_prefix(p, fs));
}

/// A message read from a payload that is exactly the struct `fs` is read
/// from `fs` itself.
proof fn lemma_message_read(m: InboundMessage, route: Route, fs: Seq<PodValue>)
    requires
        struct_wf(fs),
        inbound_accepted(m, route, struct_payload(fs)),
    ensures
        route_of_message(m) == route,
        message_fields_ok(m, fs),
{
    let p = struct_payload(fs);
    let gs = choose|gs: Seq<PodValue>| struct_wf(gs) && #[trigger] struct_prefix(p, gs) && message_fields_ok(m, gs);
    lemma_exact_struct(fs, gs);
}

proof fn lemma_message_accepts(m: InboundMessage, fs: Seq<PodValue>)
    requires
        struct_wf(fs),
        message_fields_ok(m, fs),
    ensures
        inbound_accepted(m, route_of_message(m), struct_payload(fs)),
{
    let p = struct_payload(fs);
    assert(p.take(p.len() as int) =~= p);
    assert(struct_prefix(p, fs));
}

/// Distinct 32-bit values stay distinct as Int fields.
proof fn lemma_int_of_injective(a: u32, b: u32)
    ensures
        int_of(a) == int_of(b) <==> a == b,
{
    crate::fields::lemma_u32_i32(a);
    crate::fields::lemma_u32_i32(b);
}

/// The peer reads back the Core methods a client sends, field for field:
/// a hello's version, a sync's id then seq, and a registry request's
/// version then new proxy id, each under its own opcode on the Core object.
pub proof fn law_client_methods_read_back(a: u32, b: u32, m: InboundMessage)
    ensures
        method_fields(ClientMethod::Hello { version: a }) == seq![PodValue::Int(a as i32)],
        method_fields(ClientMethod::Sync { id: a, seq: b }) == seq![PodValue::Int(a as i32), PodValue::Int(b as i32)],
        method_fields(ClientMethod::GetRegistry { version: a, new_id: b }) == seq![
            PodValue::Int(a as i32),
            PodValue::Int(b as i32),
        ],
        method_fields(ClientMethod::Destroy { id: a }) == seq![PodValue::Int(a as i32)],
        route_of(CORE_ID, method_opcode(ClientMethod::Hello { version: a })) == Route::CoreHello,
        route_of(CORE_ID, method_opcode(ClientMethod::Sync { id: a, seq: b })) == Route::CoreSync,
        route_of(CORE_ID, method_opcode(ClientMethod::GetRegistry { version: a, new_id: b }))
            == Route::CoreGetRegistry,
        inbound_accepted(m, Route::CoreHello, struct_payload(method_fields(ClientMethod::Hello { version: a })))
            <==> m == (InboundMessage::CoreHello { version: a }),
        inbound_accepted(m, Route::CoreSync, struct_payload(method_fields(ClientMethod::Sync { id: a, seq: b })))
            <==> m == (InboundMessage::CoreSync { id: a, seq: b }),
        inbound_accepted(
            m,
            Route::CoreGetRegistry,
            struct_payload(method_fields(ClientMethod::GetRegistry { version: a, new_id: b })),
        ) <==> m == (InboundMessage::CoreGetRegistry { version: a, new_id: b }),
{
    let one = seq![int_of(a)];
    let two = seq![int_of(a), int_of(b)];
    crate::fields::lemma_flat_fields_wf(one);
    crate::fields::lemma_flat_fields_wf(two);
    lemma_int_of_injective(a, b);
    lemma_message_accepts(InboundMessage::CoreHello { version: a }, one);
    lemma_message_accepts(InboundMessage::CoreSync { id: a, seq: b }, two);
    lemma_message_accepts(InboundMessage::CoreGetRegistry { version: a, new_id: b }, two);
    if inbound_accepted(m, Route::CoreHello, struct_payload(one)) {
        lemma_message_read(m, Route::CoreHello, one);
        if let InboundMessage::CoreHello { version } = m {
            lemma_int_of_injective(version, a);
        }
    }
    if inbound_accepted(m, Route::CoreSync, struct_payload(two)) {
        lemma_message_read(m, Route::CoreSync, two);
        if let InboundMessage::CoreSync { id, seq } = m {
            lemma_int_of_injective(id, a);
            lemma_int_of_injective(seq, b);
        }
    }
    if inbound_accepted(m, Route::CoreGetRegistry, struct_payload(two)) {
        lemma_message_read(m, Route::CoreGetRegistry, two);
        if let InboundMessage::CoreGetRegistry { version, new_id } = m {
            lemma_int_of_injective(version, a);
            lemma_int_of_injective(new_id, b);
        }
    }
}

/// A Registry::Destroy payload `Struct[id]` is read as the destruction of
/// global `id`.
pub proof fn law_registry_destroy_reads_id(id: u32, m: InboundMessage)
    ensures
        inbound_accepted(m, Route::RegistryDestroy, struct_payload(seq![PodValue::Int(id as i32)]))
            <==> m == (InboundMessage::RegistryDestroy { id }),
{
    let one = seq![int_of(id)];
    crate::fields::lemma_flat_fields_wf(one);
    lemma_message_accepts(InboundMessage::RegistryDestroy { id }, one);
    if inbound_accepted(m, Route::RegistryDestroy, struct_payload(one)) {
        lemma_message_read(m, Route::RegistryDestroy, one);
        if let InboundMessage::RegistryDestroy { id: i } = m {
            lemma_int_of_injective(i, id);
        }
    }
}

/// The Core events a client reads carry their fields in wire order: the
/// one-field events their id, BoundId its id then the global id, and the
/// peer's own `Done` and `RemoveMem` encodings read back as those events.
pub proof fn law_core_event_field_order(a: u32, b: u32, e: CoreEvent)
    ensures
        core_event_accepted(e, CORE_EVENT_REMOVE_ID, struct_payload(seq![PodValue::Int(a as i32)]))
            <==> e == (CoreEvent::RemoveId { id: a }),
        core_event_accepted(e, CORE_EVENT_REMOVE_MEM, struct_payload(seq![PodValue::Int(a as i32)]))
            <==> e == (CoreEvent::RemoveMem { id: a }),
        core_event_accepted(
            e,
            CORE_EVENT_BOUND_ID,
            struct_payload(seq![PodValue::Int(a as i32), PodValue::Int(b as i32)]),
        ) <==> e == (CoreEvent::BoundId { id: a, global_id: b }),
{
    let one = seq![int_of(a)];
    let two = seq![int_of(a), int_of(b)];
    crate::fields::lemma_flat_fields_wf(one);
    crate::fields::lemma_flat_fields_wf(two);
    lemma_event_accepts(CoreEvent::RemoveId { id: a }, one);
    lemma_event_accepts(CoreEvent::RemoveMem { id: a }, one);
    lemma_event_accepts(CoreEvent::BoundId { id: a, global_id: b }, two);
    if core_event_accepted(e, CORE_EVENT_REMOVE_ID, struct_payload(one)) {
        lemma_event_read(e, CORE_EVENT_REMOVE_ID, one);
        if let CoreEvent::RemoveId { id } = e {
            lemma_int_of_injective(id, a);
        }
    }
    if core_event_accepted(e, CORE_EVENT_REMOVE_MEM, struct_payload(one)) {
        lemma_event_read(e, CORE_EVENT_REMOVE_MEM, one);
        if let CoreEvent::RemoveMem { id } = e {
            lemma_int_of_injective(id, a);
        }
    }
    if core_event_accepted(e, CORE_EVENT_BOUND_ID, struct_payload(two)) {
        lemma_event_read(e, CORE_EVENT_BOUND_ID, two);
        if let CoreEvent::BoundId { id, global_id } = e {
            lemma_int_of_injective(id, a);
            lemma_int_of_injective(global_id, b);
        }
    }
}

/// A Core error event is read with its id, seq, result and message in that
/// order; an AddMem event with its id, memory type, descriptor index and
/// flags in that order.
pub proof fn law_core_error_and_add_mem_field_order(
    id: u32,
    seq: u32,
    res: i32,
    message: String,
    p: CoreAddMemPayload,
    e: CoreEvent,
)
    requires
        struct_wf(seq![int_of(id), int_of(seq), PodValue::Int(res), str_of(message@)]),
    ensures
        core_event_accepted(
            e,
            CORE_EVENT_ERROR,
            struct_payload(seq![int_of(id), int_of(seq), PodValue::Int(res), str_of(message@)]),
        ) ==> (e matches CoreEvent::Error { id: i, seq: s, res: x, message: t } && i == id && s == seq && x
            == res && str_of(t@) == str_of(message@)),
        core_event_accepted(
            e,
            CORE_EVENT_ADD_MEM,
            struct_payload(
                seq![
                    PodValue::Int(p.id as i32),
                    PodValue::Id(p.memory_type),
                    PodValue::Fd(p.fd_index as i64),
                    PodValue::Int(p.flags as i32),
                ],
            ),
        ) <==> e == CoreEvent::AddMem(p),
{
    let fs = seq![int_of(id), int_of(seq), PodValue::Int(res), str_of(message@)];
    if core_event_accepted(e, CORE_EVENT_ERROR, struct_payload(fs)) {
        lemma_event_read(e, CORE_EVENT_ERROR, fs);
        if let CoreEvent::Error { id: i, seq: s, .. } = e {
            lemma_int_of_injective(i, id);
            lemma_int_of_injective(s, seq);
        }
    }
    let am = add_mem_fields(p);
    crate::fields::lemma_flat_fields_wf(am);
    assert(am.take(4) =~= am);
    lemma_event_accepts(CoreEvent::AddMem(p), am);
    if core_event_accepted(e, CORE_EVENT_ADD_MEM, struct_payload(am)) {
        lemma_event_read(e, CORE_EVENT_ADD_MEM, am);
        if let CoreEvent::AddMem(q) = e {
            assert(am.take(4) =~= am);
            assert(add_mem_fields(q) =~= add_mem_fields(q).take(4));
            lemma_int_of_injective(q.id, p.id);
            lemma_int_of_injective(q.flags, p.flags);
            assert(add_mem_fields(q)[2] == add_mem_fields(p)[2]);
            assert((q.fd_index as i64) == (p.fd_index as i64));
        }
    }
}

/// A named expectation holds exactly for the messages of the kind it
/// names, whatever object and opcode carried them, and `Any` for every
/// message.
pub proof fn law_named_expectations(object_id: u32, opcode: u8, m: InboundMessage)
    ensures
        expectation_holds(Expectation::Any, object_id, opcode, m),
        expectation_holds(Expectation::CoreHello, object_id, opcode, m) <==> route_of_message(m)
            == Route::CoreHello,
        expectation_holds(Expectation::ClientUpdateProperties, object_id, opcode, m) <==> route_of_message(m)
            == Route::ClientUpdateProperties,
        expectation_holds(Expectation::CoreGetRegistry, object_id, opcode, m) <==> route_of_message(m)
            == Route::CoreGetRegistry,
        expectation_holds(Expectation::CoreSync, object_id, opcode, m) <==> route_of_message(m)
            == Route::CoreSync,
        expectation_holds(Expectation::RegistryBind, object_id, opcode, m) <==> route_of_message(m)
            == Route::RegistryBind,
        expectation_holds(Expectation::RegistryDestroy, object_id, opcode, m) <==> route_of_message(m)
            == Route::RegistryDestroy,
{
}

} // verus!
