//! The ClientNode v6 wire surface used for one synchronous output cycle:
//! constants, the selected methods and events, and their canonical POD
//! payloads. Descriptor-carrying events name the frame's descriptors by
//! index; decoding takes exactly the indexed descriptors out of the frame.

use vstd::prelude::*;

use crate::fields::{
    bool_at, count_at, count_of, decode_fields, encode_fields, fd_index_at, fd_of, field, fields,
    id_at, int_of, lemma_field, lemma_flat_fields_wf, lemma_flat_map_all, lemma_flat_map_push, lemma_flat_map_skip,
    long_of, pod_at, push_count_field, push_field, push_str_field, push_u32_field, push_u64_field,
    str_of, string_at, struct_payload, struct_wf, u32_at, u64_at,
};
use crate::frame::FrameFds;
use crate::pod::{lemma_pods_view_index, lemma_pods_view_len, pod_body, pods_view, Pod, PodValue, TYPE_OBJECT};

verus! {

broadcast use vstd::seq_lib::group_seq_properties;

/// Factory used to create a ClientNode object.
pub const FACTORY_NAME: &'static str = "client-node";
/// PipeWire ClientNode interface name.
pub const INTERFACE: &'static str = "PipeWire:Interface:ClientNode";
/// Interface version implemented by this wire surface.
pub const INTERFACE_VERSION: u32 = 6;
/// ClientNode methods ABI version.
pub const METHODS_VERSION: u32 = 0;
/// ClientNode events ABI version.
pub const EVENTS_VERSION: u32 = 1;
/// Activation shared-memory ABI version selected by ClientNode v6.
pub const ACTIVATION_VERSION: u32 = 1;
/// PipeWire invalid-ID sentinel.
pub const INVALID_ID: u32 = 0xffff_ffff;
/// Synchronous port IO used by the first output cycle.
pub const SPA_IO_BUFFERS: u32 = 1;
/// Double-buffered port IO, not processed by the first cycle.
pub const SPA_IO_ASYNC_BUFFERS: u32 = 10;
/// The format parameter of a port.
pub const SPA_PARAM_FORMAT: u32 = 4;
/// `SPA_NODE_BUFFERS_FLAG_ALLOC`: the client allocates the buffers.
pub const SPA_NODE_BUFFERS_FLAG_ALLOC: u32 = 1;
/// Object type of a node command.
pub const SPA_TYPE_COMMAND_NODE: u32 = 0x30002;

/// Method opcode: advertise node information and parameters.
pub const METHOD_UPDATE: u8 = 2;
/// Method opcode: advertise port information and parameters.
pub const METHOD_PORT_UPDATE: u8 = 3;
/// Method opcode: join or leave graph scheduling.
pub const METHOD_SET_ACTIVE: u8 = 4;

/// Event opcode: install transport eventfds and own activation region.
pub const EVENT_TRANSPORT: u8 = 0;
/// Event opcode: deliver a node command.
pub const EVENT_COMMAND: u8 = 4;
/// Event opcode: set or clear a port parameter.
pub const EVENT_PORT_SET_PARAM: u8 = 7;
/// Event opcode: install or clear a port buffer set.
pub const EVENT_PORT_USE_BUFFERS: u8 = 8;
/// Event opcode: install or clear port IO.
pub const EVENT_PORT_SET_IO: u8 = 9;
/// Event opcode: install or remove a downstream activation target.
pub const EVENT_SET_ACTIVATION: u8 = 10;

/// `pw_node_activation.status` values used by ClientNode v6.
#[derive(Clone, Copy, Debug, PartialEq, Eq, Structural)]
pub enum ActivationStatus {
    NotTriggered,
    Triggered,
    Awake,
    Finished,
    Inactive,
}

impl ActivationStatus {
    /// The value stored in shared memory.
    pub fn as_u32(self) -> (v: u32)
        ensures
            v == activation_status_value(self),
    {
        match self {
            ActivationStatus::NotTriggered => 0,
            ActivationStatus::Triggered => 1,
            ActivationStatus::Awake => 2,
            ActivationStatus::Finished => 3,
            ActivationStatus::Inactive => 4,
        }
    }
}

pub open spec fn activation_status_value(s: ActivationStatus) -> u32 {
    match s {
        ActivationStatus::NotTriggered => 0,
        ActivationStatus::Triggered => 1,
        ActivationStatus::Awake => 2,
        ActivationStatus::Finished => 3,
        ActivationStatus::Inactive => 4,
    }
}

/// Port IO areas the wire can name.
#[derive(Clone, Copy, Debug, PartialEq, Eq, Structural)]
pub enum PortIoType {
    /// Synchronous `spa_io_buffers`.
    Buffers,
    /// Double-buffered `spa_io_async_buffers`.
    AsyncBuffers,
}

impl PortIoType {
    /// The SPA IO ID.
    pub fn as_u32(self) -> (v: u32)
        ensures
            v == (match self {
                PortIoType::Buffers => SPA_IO_BUFFERS,
                PortIoType::AsyncBuffers => SPA_IO_ASYNC_BUFFERS,
            }),
    {
        match self {
            PortIoType::Buffers => SPA_IO_BUFFERS,
            PortIoType::AsyncBuffers => SPA_IO_ASYNC_BUFFERS,
        }
    }
}

/// Synchronous `spa_io_buffers.status` values.
#[derive(Clone, Copy, Debug, PartialEq, Eq, Structural)]
pub enum BufferStatus {
    /// The IO area should be ignored.
    Idle,
    NeedData,
    HaveData,
    Stopped,
    Drained,
}

impl BufferStatus {
    /// The value stored in the IO area.
    pub fn as_i32(self) -> (v: i32)
        ensures
            v == buffer_status_value(self),
    {
        match self {
            BufferStatus::Idle => 0,
            BufferStatus::NeedData => 1,
            BufferStatus::HaveData => 2,
            BufferStatus::Stopped => 4,
            BufferStatus::Drained => 8,
        }
    }
}

pub open spec fn buffer_status_value(s: BufferStatus) -> i32 {
    match s {
        BufferStatus::Idle => 0,
        BufferStatus::NeedData => 1,
        BufferStatus::HaveData => 2,
        BufferStatus::Stopped => 4,
        BufferStatus::Drained => 8,
    }
}

/// Bounds for peer-controlled repeated ClientNode fields.
#[derive(Clone, Copy, Debug, PartialEq, Eq, Structural)]
pub struct Limits {
    pub max_params: usize,
    pub max_properties: usize,
    pub max_param_info: usize,
    pub max_buffers: usize,
    pub max_metas: usize,
    pub max_datas: usize,
    pub max_pod_bytes: usize,
}

impl Default for Limits {
    fn default() -> (r: Self)
        ensures
            r == (Limits {
                max_params: 64,
                max_properties: 256,
                max_param_info: 64,
                max_buffers: 64,
                max_metas: 64,
                max_datas: 256,
                max_pod_bytes: 1048576usize,
            }),
    {
        Limits {
            max_params: 64,
            max_properties: 256,
            max_param_info: 64,
            max_buffers: 64,
            max_metas: 64,
            max_datas: 256,
            max_pod_bytes: 1024 * 1024,
        }
    }
}

/// SPA port direction.
#[derive(Clone, Copy, Debug, PartialEq, Eq, Structural)]
pub enum Direction {
    Input,
    Output,
}

pub open spec fn direction_value(d: Direction) -> i32 {
    match d {
        Direction::Input => 0,
        Direction::Output => 1,
    }
}

/// A reference to a region of an imported Core memory object.
#[derive(Clone, Copy, Debug, PartialEq, Eq, Structural)]
pub struct RegionRef {
    pub memory_id: u32,
    pub offset: u32,
    pub size: u32,
}

/// The `SPA_ID_INVALID, 0, 0` form that clears a region.
pub open spec fn is_clear_region(r: RegionRef) -> bool {
    r.memory_id == INVALID_ID && r.offset == 0 && r.size == 0
}

/// A region that names memory: a real ID, a non-empty size, and an end
/// that fits 32 bits.
pub open spec fn region_valid(r: RegionRef) -> bool {
    r.memory_id != INVALID_ID && r.size != 0 && r.offset + r.size <= u32::MAX
}

pub open spec fn region_fields(r: RegionRef) -> Seq<PodValue> {
    seq![int_of(r.memory_id), int_of(r.offset), int_of(r.size)]
}

/// The clear region.
pub open spec fn clear_region() -> RegionRef {
    RegionRef { memory_id: INVALID_ID, offset: 0, size: 0 }
}

/// Parameter availability advertised in node or port info.
#[derive(Clone, Copy, Debug, PartialEq, Eq, Structural)]
pub struct ParamInfo {
    pub id: u32,
    pub flags: u32,
}

/// Node-info portion of `Update`.
#[derive(Clone, Debug)]
pub struct NodeInfo {
    pub max_input_ports: u32,
    pub max_output_ports: u32,
    pub change_mask: u64,
    pub flags: u64,
    pub properties: Vec<(String, String)>,
    pub params: Vec<ParamInfo>,
}

/// Port-info portion of `PortUpdate`.
#[derive(Clone, Debug)]
pub struct PortInfo {
    pub change_mask: u64,
    pub flags: u64,
    pub rate_num: u32,
    pub rate_denom: u32,
    pub properties: Vec<(String, String)>,
    pub params: Vec<ParamInfo>,
}

/// ClientNode `Update` method.
#[derive(Clone)]
pub struct Update {
    pub change_mask: u32,
    pub params: Vec<Pod>,
    /// `None` is the canonical absent form.
    pub info: Option<NodeInfo>,
}

/// ClientNode `PortUpdate` method.
#[derive(Clone)]
pub struct PortUpdate {
    pub direction: Direction,
    pub port_id: u32,
    pub change_mask: u32,
    pub params: Vec<Pod>,
    /// `None` is the canonical absent form.
    pub info: Option<PortInfo>,
}

/// ClientNode `SetActive` method.
#[derive(Clone, Copy, Debug, PartialEq, Eq, Structural)]
pub struct SetActive {
    pub active: bool,
}

/// Selected outgoing ClientNode method.
pub enum Method {
    Update(Update),
    PortUpdate(PortUpdate),
    SetActive(SetActive),
}

pub open spec fn method_opcode(m: Method) -> u8 {
    match m {
        Method::Update(_) => METHOD_UPDATE,
        Method::PortUpdate(_) => METHOD_PORT_UPDATE,
        Method::SetActive(_) => METHOD_SET_ACTIVE,
    }
}

impl Method {
    /// Native-protocol opcode for this method.
    pub fn opcode(&self) -> (op: u8)
        ensures
            op == method_opcode(*self),
    {
        match self {
            Method::Update(_) => METHOD_UPDATE,
            Method::PortUpdate(_) => METHOD_PORT_UPDATE,
            Method::SetActive(_) => METHOD_SET_ACTIVE,
        }
    }
}

/// Metadata descriptor in `PortUseBuffers`.
#[derive(Clone, Copy, Debug, PartialEq, Eq, Structural)]
pub struct MetaDescriptor {
    pub type_id: u32,
    pub size: u32,
}

/// Data-plane descriptor in `PortUseBuffers`.
#[derive(Clone, Copy, Debug, PartialEq, Eq, Structural)]
pub struct DataDescriptor {
    pub type_id: u32,
    pub data_id: u32,
    pub flags: u32,
    pub map_offset: u32,
    pub max_size: u32,
}

/// One buffer descriptor in `PortUseBuffers`.
#[derive(Clone, Debug)]
pub struct BufferDescriptor {
    pub metadata: RegionRef,
    pub metas: Vec<MetaDescriptor>,
    pub datas: Vec<DataDescriptor>,
}

/// Transport installation; `F` is a received descriptor, or its index in
/// the frame's descriptor table.
#[derive(Debug)]
pub struct Transport<F> {
    pub trigger_fd: F,
    pub completion_fd: F,
    pub activation: RegionRef,
}

/// Port parameter update; `None` clears the parameter.
#[derive(Clone)]
pub struct PortSetParam {
    pub direction: Direction,
    pub port_id: u32,
    pub param_id: u32,
    pub flags: u32,
    pub param: Option<Pod>,
}

/// Port buffer update; no buffers clears the set.
#[derive(Clone, Debug)]
pub struct PortUseBuffers {
    pub direction: Direction,
    pub port_id: u32,
    /// `None` stands for `SPA_ID_INVALID`.
    pub mix_id: Option<u32>,
    pub flags: u32,
    pub buffers: Vec<BufferDescriptor>,
}

/// Port IO update with an explicit clear form.
#[derive(Clone, Copy, Debug, PartialEq, Eq, Structural)]
pub enum PortSetIo {
    /// Installs an IO mapping.
    Install { direction: Direction, port_id: u32, mix_id: Option<u32>, io_id: u32, region: RegionRef },
    /// Clears an IO mapping using `SPA_ID_INVALID, 0, 0`.
    Clear { direction: Direction, port_id: u32, mix_id: Option<u32>, io_id: u32 },
}

/// Downstream activation update.
#[derive(Debug)]
pub enum SetActivation<F> {
    /// Installs or replaces a downstream activation target.
    Install { node_id: u32, signal_fd: F, activation: RegionRef },
    /// Removes a target using `Fd(-1), SPA_ID_INVALID, 0, 0`.
    Remove { node_id: u32 },
}

/// Node commands needed by the first output cycle and teardown.
#[derive(Clone, Copy, Debug, PartialEq, Eq, Structural)]
pub enum Command {
    Suspend,
    Pause,
    Start,
}

pub open spec fn command_value(c: Command) -> u32 {
    match c {
        Command::Suspend => 0,
        Command::Pause => 1,
        Command::Start => 2,
    }
}

/// Selected incoming ClientNode event.
pub enum Event<F> {
    Transport(Transport<F>),
    PortSetParam(PortSetParam),
    PortUseBuffers(PortUseBuffers),
    PortSetIo(PortSetIo),
    SetActivation(SetActivation<F>),
    Command(Command),
}

pub open spec fn event_opcode<F>(e: Event<F>) -> u8 {
    match e {
        Event::Transport(_) => EVENT_TRANSPORT,
        Event::PortSetParam(_) => EVENT_PORT_SET_PARAM,
        Event::PortUseBuffers(_) => EVENT_PORT_USE_BUFFERS,
        Event::PortSetIo(_) => EVENT_PORT_SET_IO,
        Event::SetActivation(_) => EVENT_SET_ACTIVATION,
        Event::Command(_) => EVENT_COMMAND,
    }
}

/// Why a ClientNode payload was refused.
#[derive(Clone, Copy, Debug, PartialEq, Eq, Structural)]
pub enum WireError {
    /// The opcode names no supported method or event.
    UnknownOpcode(u8),
    /// The payload is not the canonical encoding of an accepted message.
    InvalidPayload,
    /// The frame's descriptors do not match the ones the message names.
    InvalidDescriptors,
    /// The message has no encoding.
    Unencodable,
}

/// The I/O error kind a wire error is reported as.
#[derive(Clone, Copy, Debug, PartialEq, Eq, Structural)]
pub enum ErrorKind {
    Unsupported,
    InvalidData,
    InvalidInput,
}

impl WireError {
    pub fn kind(&self) -> (k: ErrorKind)
        ensures
            k == (match *self {
                WireError::UnknownOpcode(_) => ErrorKind::Unsupported,
                WireError::Unencodable => ErrorKind::InvalidInput,
                _ => ErrorKind::InvalidData,
            }),
    {
        match self {
            WireError::UnknownOpcode(_) => ErrorKind::Unsupported,
            WireError::Unencodable => ErrorKind::InvalidInput,
            _ => ErrorKind::InvalidData,
        }
    }
}

// ---------------------------------------------------------------------------
// Field layouts.

pub open spec fn dir_of(d: Direction) -> PodValue {
    PodValue::Int(direction_value(d))
}

/// `None` is sent as `SPA_ID_INVALID`.
pub open spec fn wire_id(m: Option<u32>) -> u32 {
    match m {
        Some(x) => x,
        None => INVALID_ID,
    }
}

/// A mix ID that can be told apart from the absent one.
pub open spec fn mix_valid(m: Option<u32>) -> bool {
    m != Some(INVALID_ID)
}

pub open spec fn property_fields(p: (String, String)) -> Seq<PodValue> {
    seq![str_of(p.0@), str_of(p.1@)]
}

pub open spec fn param_info_fields(p: ParamInfo) -> Seq<PodValue> {
    seq![PodValue::Id(p.id), int_of(p.flags)]
}

pub open spec fn info_tail(props: Seq<(String, String)>, params: Seq<ParamInfo>) -> Seq<PodValue> {
    seq![count_of(props.len())] + props.flat_map(|p: (String, String)| property_fields(p)) + seq![
        count_of(params.len()),
    ] + params.flat_map(|p: ParamInfo| param_info_fields(p))
}

pub open spec fn node_info_fields(i: NodeInfo) -> Seq<PodValue> {
    seq![
        int_of(i.max_input_ports),
        int_of(i.max_output_ports),
        long_of(i.change_mask),
        long_of(i.flags),
    ] + info_tail(i.properties@, i.params@)
}

pub open spec fn port_info_fields(i: PortInfo) -> Seq<PodValue> {
    seq![long_of(i.change_mask), long_of(i.flags), int_of(i.rate_num), int_of(i.rate_denom)]
        + info_tail(i.properties@, i.params@)
}

pub open spec fn opt_node_info(i: Option<NodeInfo>) -> PodValue {
    match i {
        Some(i) => PodValue::Struct(node_info_fields(i)),
        None => PodValue::Null,
    }
}

pub open spec fn opt_port_info(i: Option<PortInfo>) -> PodValue {
    match i {
        Some(i) => PodValue::Struct(port_info_fields(i)),
        None => PodValue::Null,
    }
}

/// The fields of a method's payload struct.
pub open spec fn method_fields(m: Method) -> Seq<PodValue> {
    match m {
        Method::Update(u) => seq![int_of(u.change_mask), count_of(u.params@.len())] + pods_view(
            u.params@,
        ) + seq![opt_node_info(u.info)],
        Method::PortUpdate(u) => seq![
            dir_of(u.direction),
            int_of(u.port_id),
            int_of(u.change_mask),
            count_of(u.params@.len()),
        ] + pods_view(u.params@) + seq![opt_port_info(u.info)],
        Method::SetActive(s) => seq![PodValue::Bool(s.active)],
    }
}

/// The payload of a method.
pub open spec fn method_payload(m: Method) -> Seq<u8> {
    struct_payload(method_fields(m))
}

/// Size of a parameter POD: header and body.
pub open spec fn pod_total_size(v: PodValue) -> int {
    8 + pod_body(v).len() as int
}

pub open spec fn count_within(n: nat, max: usize) -> bool {
    n <= max && n <= i32::MAX
}

pub open spec fn info_within(props: nat, params: nat, limits: Limits) -> bool {
    count_within(props, limits.max_properties) && count_within(params, limits.max_param_info)
}

pub open spec fn params_within(ps: Seq<Pod>, limits: Limits) -> bool {
    count_within(ps.len(), limits.max_params) && forall|i: int|
        0 <= i < ps.len() ==> pod_total_size(#[trigger] ps[i]@) <= limits.max_pod_bytes
}

/// A method that a peer bound by `limits` may send.
pub open spec fn method_within(m: Method, limits: Limits) -> bool {
    match m {
        Method::Update(u) => params_within(u.params@, limits) && match u.info {
            Some(i) => info_within(i.properties@.len(), i.params@.len(), limits),
            None => true,
        },
        Method::PortUpdate(u) => params_within(u.params@, limits) && match u.info {
            Some(i) => info_within(i.properties@.len(), i.params@.len(), limits),
            None => true,
        },
        Method::SetActive(_) => true,
    }
}

pub open spec fn meta_fields(m: MetaDescriptor) -> Seq<PodValue> {
    seq![PodValue::Id(m.type_id), int_of(m.size)]
}

pub open spec fn data_fields(d: DataDescriptor) -> Seq<PodValue> {
    seq![
        PodValue::Id(d.type_id),
        int_of(d.data_id),
        int_of(d.flags),
        int_of(d.map_offset),
        int_of(d.max_size),
    ]
}

pub open spec fn buffer_fields(b: BufferDescriptor) -> Seq<PodValue> {
    region_fields(b.metadata) + seq![count_of(b.metas@.len())] + b.metas@.flat_map(
        |m: MetaDescriptor| meta_fields(m),
    ) + seq![count_of(b.datas@.len())] + b.datas@.flat_map(|d: DataDescriptor| data_fields(d))
}

pub open spec fn data_valid(d: DataDescriptor) -> bool {
    d.max_size != 0 && d.map_offset + d.max_size <= u32::MAX
}

pub open spec fn buffer_within(b: BufferDescriptor, limits: Limits) -> bool {
    &&& region_valid(b.metadata)
    &&& count_within(b.metas@.len(), limits.max_metas)
    &&& count_within(b.datas@.len(), limits.max_datas)
    &&& forall|i: int| 0 <= i < b.datas@.len() ==> data_valid(#[trigger] b.datas@[i])
}

/// The body of a node command object.
pub open spec fn command_pod(c: Command) -> PodValue {
    PodValue::Raw(
        TYPE_OBJECT,
        crate::pod::le32(SPA_TYPE_COMMAND_NODE) + crate::pod::le32(command_value(c)),
    )
}

pub open spec fn opt_param(p: Option<Pod>) -> PodValue {
    match p {
        Some(p) => p@,
        None => PodValue::Null,
    }
}

/// The fields of an event's payload, with descriptors named by index.
pub open spec fn event_fields(e: Event<u32>) -> Seq<PodValue> {
    match e {
        Event::Transport(t) => seq![fd_of(t.trigger_fd), fd_of(t.completion_fd)] + region_fields(
            t.activation,
        ),
        Event::PortSetParam(p) => seq![
            dir_of(p.direction),
            int_of(p.port_id),
            PodValue::Id(p.param_id),
            int_of(p.flags),
            opt_param(p.param),
        ],
        Event::PortUseBuffers(u) => seq![
            dir_of(u.direction),
            int_of(u.port_id),
            int_of(wire_id(u.mix_id)),
            int_of(u.flags),
            count_of(u.buffers@.len()),
        ] + u.buffers@.flat_map(|b: BufferDescriptor| buffer_fields(b)),
        Event::PortSetIo(io) => match io {
            PortSetIo::Install { direction, port_id, mix_id, io_id, region } => seq![
                dir_of(direction),
                int_of(port_id),
                int_of(wire_id(mix_id)),
                PodValue::Id(io_id),
            ] + region_fields(region),
            PortSetIo::Clear { direction, port_id, mix_id, io_id } => seq![
                dir_of(direction),
                int_of(port_id),
                int_of(wire_id(mix_id)),
                PodValue::Id(io_id),
            ] + region_fields(clear_region()),
        },
        Event::SetActivation(a) => match a {
            SetActivation::Install { node_id, signal_fd, activation } => seq![
                int_of(node_id),
                fd_of(signal_fd),
            ] + region_fields(activation),
            SetActivation::Remove { node_id } => seq![int_of(node_id), PodValue::Fd(-1i64)]
                + region_fields(clear_region()),
        },
        Event::Command(c) => seq![command_pod(c)],
    }
}

/// The payload of an event.
pub open spec fn event_payload(e: Event<u32>) -> Seq<u8> {
    struct_payload(event_fields(e))
}

/// An event that a server bound by `limits` may send.
pub open spec fn event_within(e: Event<u32>, limits: Limits) -> bool {
    match e {
        Event::Transport(t) => t.trigger_fd <= i32::MAX && t.completion_fd <= i32::MAX
            && region_valid(t.activation),
        Event::PortSetParam(p) => p.param_id == SPA_PARAM_FORMAT && match p.param {
            Some(q) => q@ is Raw && q@->Raw_0 == TYPE_OBJECT && pod_total_size(q@)
                <= limits.max_pod_bytes,
            None => true,
        },
        Event::PortUseBuffers(u) => mix_valid(u.mix_id) && count_within(
            u.buffers@.len(),
            limits.max_buffers,
        ) && forall|i: int|
            0 <= i < u.buffers@.len() ==> buffer_within(#[trigger] u.buffers@[i], limits),
        Event::PortSetIo(io) => match io {
            PortSetIo::Install { mix_id, io_id, region, .. } => mix_valid(mix_id) && io_id
                == SPA_IO_BUFFERS && region_valid(region),
            PortSetIo::Clear { mix_id, io_id, .. } => mix_valid(mix_id) && io_id
                == SPA_IO_BUFFERS,
        },
        Event::SetActivation(a) => match a {
            SetActivation::Install { signal_fd, activation, .. } => signal_fd <= i32::MAX
                && region_valid(activation),
            SetActivation::Remove { .. } => true,
        },
        Event::Command(_) => true,
    }
}

// ---------------------------------------------------------------------------
// Encoding.

fn push_direction(out: &mut Vec<Pod>, d: Direction)
    ensures
        fields(final(out)@) == fields(old(out)@).push(dir_of(d)),
{
    let v: i32 = match d {
        Direction::Input => 0,
        Direction::Output => 1,
    };
    push_field(out, Pod::Int(v));
}

fn push_region(out: &mut Vec<Pod>, r: RegionRef)
    ensures
        fields(final(out)@) == fields(old(out)@) + region_fields(r),
{
    push_u32_field(out, r.memory_id);
    push_u32_field(out, r.offset);
    push_u32_field(out, r.size);
}

fn push_params(out: &mut Vec<Pod>, params: &Vec<Pod>)
    ensures
        fields(final(out)@) == fields(old(out)@) + pods_view(params@),
{
    let ghost start = fields(out@);
    let mut k: usize = 0;
    proof {
        crate::pod::lemma_pods_view_index(params@);
    }
    while k < params.len()
        invariant
            k <= params@.len(),
            pods_view(params@).len() == params@.len(),
            forall|i: int| 0 <= i < params@.len() ==> #[trigger] pods_view(params@)[i] == params@[i]@,
            fields(out@) == start + pods_view(params@).take(k as int),
        decreases params@.len() - k,
    {
        let p = crate::pod::pod_clone(&params[k]);
        push_field(out, p);
        k = k + 1;
        assert(pods_view(params@).take(k as int) =~= pods_view(params@).take(k - 1).push(
            params@[k - 1]@,
        ));
    }
    assert(pods_view(params@).take(k as int) =~= pods_view(params@));
}

fn push_info_tail(out: &mut Vec<Pod>, props: &Vec<(String, String)>, params: &Vec<ParamInfo>)
    ensures
        fields(final(out)@) == fields(old(out)@) + info_tail(props@, params@),
{
    let ghost start = fields(out@);
    push_count_field(out, props.len());
    let mut k: usize = 0;
    proof {
        lemma_flat_map_all(props@, |p: (String, String)| property_fields(p));
    }
    while k < props.len()
        invariant
            k <= props@.len(),
            fields(out@) == start + seq![count_of(props@.len())] + props@.take(k as int).flat_map(
                |p: (String, String)| property_fields(p),
            ),
        decreases props@.len() - k,
    {
        push_str_field(out, &props[k].0);
        push_str_field(out, &props[k].1);
        proof {
            assert(props@.take(k + 1) =~= props@.take(k as int).push(props@[k as int]));
            lemma_flat_map_push(
                props@.take(k as int),
                props@[k as int],
                |p: (String, String)| property_fields(p),
            );
        }
        k = k + 1;
    }
    assert(props@.take(k as int) =~= props@);
    push_count_field(out, params.len());
    let ghost mid = fields(out@);
    let mut j: usize = 0;
    proof {
        lemma_flat_map_all(params@, |p: ParamInfo| param_info_fields(p));
    }
    while j < params.len()
        invariant
            j <= params@.len(),
            fields(out@) == mid + params@.take(j as int).flat_map(
                |p: ParamInfo| param_info_fields(p),
            ),
        decreases params@.len() - j,
    {
        let p = params[j];
        push_field(out, Pod::Id(p.id));
        push_u32_field(out, p.flags);
        proof {
            assert(params@.take(j + 1) =~= params@.take(j as int).push(params@[j as int]));
            lemma_flat_map_push(
                params@.take(j as int),
                params@[j as int],
                |p: ParamInfo| param_info_fields(p),
            );
        }
        j = j + 1;
    }
    assert(params@.take(j as int) =~= params@);
}

fn node_info_pod(i: &NodeInfo) -> (r: Pod)
    ensures
        r@ == PodValue::Struct(node_info_fields(*i)),
{
    let mut cs: Vec<Pod> = Vec::new();
    push_u32_field(&mut cs, i.max_input_ports);
    push_u32_field(&mut cs, i.max_output_ports);
    push_u64_field(&mut cs, i.change_mask);
    push_u64_field(&mut cs, i.flags);
    push_info_tail(&mut cs, &i.properties, &i.params);
    assert(fields(cs@) =~= node_info_fields(*i));
    Pod::Struct(cs)
}

fn port_info_pod(i: &PortInfo) -> (r: Pod)
    ensures
        r@ == PodValue::Struct(port_info_fields(*i)),
{
    let mut cs: Vec<Pod> = Vec::new();
    push_u64_field(&mut cs, i.change_mask);
    push_u64_field(&mut cs, i.flags);
    push_u32_field(&mut cs, i.rate_num);
    push_u32_field(&mut cs, i.rate_denom);
    push_info_tail(&mut cs, &i.properties, &i.params);
    assert(fields(cs@) =~= port_info_fields(*i));
    Pod::Struct(cs)
}

/// Encodes one client-to-server method payload; fails exactly when the
/// method has no encoding (a string holds NUL, or a POD is unencodable).
pub fn encode_method(value: &Method) -> (r: Result<Vec<u8>, WireError>)
    ensures
        r is Ok <==> struct_wf(method_fields(*value)),
        r matches Ok(b) ==> b@ == method_payload(*value),
        r is Err ==> r == Err::<Vec<u8>, WireError>(WireError::Unencodable),
{
    let mut cs: Vec<Pod> = Vec::new();
    match value {
        Method::Update(u) => {
            push_u32_field(&mut cs, u.change_mask);
            push_count_field(&mut cs, u.params.len());
            push_params(&mut cs, &u.params);
            match &u.info {
                Some(i) => push_field(&mut cs, node_info_pod(i)),
                None => push_field(&mut cs, Pod::Null),
            }
        },
        Method::PortUpdate(u) => {
            push_direction(&mut cs, u.direction);
            push_u32_field(&mut cs, u.port_id);
            push_u32_field(&mut cs, u.change_mask);
            push_count_field(&mut cs, u.params.len());
            push_params(&mut cs, &u.params);
            match &u.info {
                Some(i) => push_field(&mut cs, port_info_pod(i)),
                None => push_field(&mut cs, Pod::Null),
            }
        },
        Method::SetActive(s) => {
            push_field(&mut cs, Pod::Bool(s.active));
        },
    }
    assert(fields(cs@) =~= method_fields(*value));
    match encode_fields(cs) {
        Ok(b) => Ok(b),
        Err(_) => Err(WireError::Unencodable),
    }
}

fn push_fd_index(out: &mut Vec<Pod>, i: u32)
    ensures
        fields(final(out)@) == fields(old(out)@).push(fd_of(i)),
{
    #[verifier::truncate]
    let v = i as i32;
    push_field(out, Pod::Fd(v as i64));
}

fn finish_event(cs: Vec<Pod>, Ghost(e): Ghost<Event<u32>>) -> (r: Result<Vec<u8>, WireError>)
    requires
        fields(cs@) == event_fields(e),
    ensures
        r is Ok <==> struct_wf(event_fields(e)),
        r matches Ok(b) ==> b@ == event_payload(e),
        r is Err ==> r == Err::<Vec<u8>, WireError>(WireError::Unencodable),
{
    match encode_fields(cs) {
        Ok(b) => Ok(b),
        Err(_) => Err(WireError::Unencodable),
    }
}

/// Encodes a Transport event naming the frame's descriptors by index.
pub fn encode_transport(trigger_index: u32, completion_index: u32, activation: RegionRef) -> (r:
    Result<Vec<u8>, WireError>)
    ensures
        r matches Ok(b) && b@ == event_payload(
            Event::Transport(
                Transport { trigger_fd: trigger_index, completion_fd: completion_index, activation },
            ),
        ),
{
    let ghost e = Event::Transport(
        Transport { trigger_fd: trigger_index, completion_fd: completion_index, activation },
    );
    let mut cs: Vec<Pod> = Vec::new();
    push_fd_index(&mut cs, trigger_index);
    push_fd_index(&mut cs, completion_index);
    push_region(&mut cs, activation);
    assert(fields(cs@) =~= event_fields(e));
    proof {
        lemma_flat_fields_wf(event_fields(e));
    }
    finish_event(cs, Ghost(e))
}

/// Encodes a PortSetParam event; fails exactly when the parameter has no
/// encoding.
pub fn encode_port_set_param(value: &PortSetParam) -> (r: Result<Vec<u8>, WireError>)
    ensures
        r is Ok <==> struct_wf(event_fields(Event::PortSetParam(*value))),
        r matches Ok(b) ==> b@ == event_payload(Event::PortSetParam(*value)),
        r is Err ==> r == Err::<Vec<u8>, WireError>(WireError::Unencodable),
{
    let ghost e = Event::<u32>::PortSetParam(*value);
    let mut cs: Vec<Pod> = Vec::new();
    push_direction(&mut cs, value.direction);
    push_u32_field(&mut cs, value.port_id);
    push_field(&mut cs, Pod::Id(value.param_id));
    push_u32_field(&mut cs, value.flags);
    match &value.param {
        Some(p) => push_field(&mut cs, crate::pod::pod_clone(p)),
        None => push_field(&mut cs, Pod::Null),
    }
    assert(fields(cs@) =~= event_fields(e));
    finish_event(cs, Ghost(e))
}

fn push_buffer(out: &mut Vec<Pod>, b: &BufferDescriptor)
    ensures
        fields(final(out)@) == fields(old(out)@) + buffer_fields(*b),
{
    let ghost start = fields(out@);
    push_region(out, b.metadata);
    push_count_field(out, b.metas.len());
    let ghost s1 = fields(out@);
    let mut k: usize = 0;
    proof {
        lemma_flat_map_all(b.metas@, |m: MetaDescriptor| meta_fields(m));
    }
    while k < b.metas.len()
        invariant
            k <= b.metas@.len(),
            fields(out@) == s1 + b.metas@.take(k as int).flat_map(|m: MetaDescriptor| meta_fields(m)),
        decreases b.metas@.len() - k,
    {
        let m = b.metas[k];
        push_field(out, Pod::Id(m.type_id));
        push_u32_field(out, m.size);
        proof {
            assert(b.metas@.take(k + 1) =~= b.metas@.take(k as int).push(m));
            lemma_flat_map_push(b.metas@.take(k as int), m, |m: MetaDescriptor| meta_fields(m));
        }
        k = k + 1;
    }
    assert(b.metas@.take(k as int) =~= b.metas@);
    push_count_field(out, b.datas.len());
    let ghost s2 = fields(out@);
    let mut j: usize = 0;
    proof {
        lemma_flat_map_all(b.datas@, |d: DataDescriptor| data_fields(d));
    }
    while j < b.datas.len()
        invariant
            j <= b.datas@.len(),
            fields(out@) == s2 + b.datas@.take(j as int).flat_map(|d: DataDescriptor| data_fields(d)),
        decreases b.datas@.len() - j,
    {
        let d = b.datas[j];
        push_field(out, Pod::Id(d.type_id));
        push_u32_field(out, d.data_id);
        push_u32_field(out, d.flags);
        push_u32_field(out, d.map_offset);
        push_u32_field(out, d.max_size);
        proof {
            assert(b.datas@.take(j + 1) =~= b.datas@.take(j as int).push(d));
            lemma_flat_map_push(b.datas@.take(j as int), d, |d: DataDescriptor| data_fields(d));
        }
        j = j + 1;
    }
    assert(b.datas@.take(j as int) =~= b.datas@);
    assert(fields(out@) =~= start + buffer_fields(*b));
}

/// Encodes a PortUseBuffers event.
pub fn encode_port_use_buffers(value: &PortUseBuffers) -> (r: Result<Vec<u8>, WireError>)
    ensures
        r is Ok <==> struct_wf(event_fields(Event::PortUseBuffers(*value))),
        r matches Ok(b) ==> b@ == event_payload(Event::PortUseBuffers(*value)),
        r is Err ==> r == Err::<Vec<u8>, WireError>(WireError::Unencodable),
{
    let ghost e = Event::<u32>::PortUseBuffers(*value);
    let mut cs: Vec<Pod> = Vec::new();
    push_direction(&mut cs, value.direction);
    push_u32_field(&mut cs, value.port_id);
    let mix = match value.mix_id {
        Some(x) => x,
        None => INVALID_ID,
    };
    push_u32_field(&mut cs, mix);
    push_u32_field(&mut cs, value.flags);
    push_count_field(&mut cs, value.buffers.len());
    let ghost s1 = fields(cs@);
    let mut k: usize = 0;
    proof {
        lemma_flat_map_all(value.buffers@, |b: BufferDescriptor| buffer_fields(b));
    }
    while k < value.buffers.len()
        invariant
            k <= value.buffers@.len(),
            fields(cs@) == s1 + value.buffers@.take(k as int).flat_map(
                |b: BufferDescriptor| buffer_fields(b),
            ),
        decreases value.buffers@.len() - k,
    {
        push_buffer(&mut cs, &value.buffers[k]);
        proof {
            assert(value.buffers@.take(k + 1) =~= value.buffers@.take(k as int).push(
                value.buffers@[k as int],
            ));
            lemma_flat_map_push(
                value.buffers@.take(k as int),
                value.buffers@[k as int],
                |b: BufferDescriptor| buffer_fields(b),
            );
        }
        k = k + 1;
    }
    assert(value.buffers@.take(k as int) =~= value.buffers@);
    assert(fields(cs@) =~= event_fields(e));
    finish_event(cs, Ghost(e))
}

/// Encodes a PortSetIo event; the clear form carries `SPA_ID_INVALID, 0, 0`.
pub fn encode_port_set_io(value: PortSetIo) -> (r: Result<Vec<u8>, WireError>)
    ensures
        r matches Ok(b) && b@ == event_payload(Event::PortSetIo(value)),
{
    let ghost e = Event::<u32>::PortSetIo(value);
    let (direction, port_id, mix_id, io_id, region) = match value {
        PortSetIo::Install { direction, port_id, mix_id, io_id, region } => (
            direction,
            port_id,
            mix_id,
            io_id,
            region,
        ),
        PortSetIo::Clear { direction, port_id, mix_id, io_id } => (
            direction,
            port_id,
            mix_id,
            io_id,
            RegionRef { memory_id: INVALID_ID, offset: 0, size: 0 },
        ),
    };
    let mut cs: Vec<Pod> = Vec::new();
    push_direction(&mut cs, direction);
    push_u32_field(&mut cs, port_id);
    let mix = match mix_id {
        Some(x) => x,
        None => INVALID_ID,
    };
    push_u32_field(&mut cs, mix);
    push_field(&mut cs, Pod::Id(io_id));
    push_region(&mut cs, region);
    assert(fields(cs@) =~= event_fields(e));
    proof {
        lemma_flat_fields_wf(event_fields(e));
    }
    finish_event(cs, Ghost(e))
}

/// Encodes a SetActivation event: `Some((index, region))` installs the
/// target signalled through descriptor `index`, `None` removes it.
pub fn encode_set_activation(node_id: u32, value: Option<(u32, RegionRef)>) -> (r: Result<
    Vec<u8>,
    WireError,
>)
    ensures
        r matches Ok(b) && b@ == event_payload(
            match value {
                Some((i, activation)) => Event::SetActivation(
                    SetActivation::Install { node_id, signal_fd: i, activation },
                ),
                None => Event::SetActivation(SetActivation::Remove { node_id }),
            },
        ),
{
    let ghost e = match value {
        Some((i, activation)) => Event::SetActivation(
            SetActivation::Install { node_id, signal_fd: i, activation },
        ),
        None => Event::SetActivation(SetActivation::Remove { node_id }),
    };
    let mut cs: Vec<Pod> = Vec::new();
    push_u32_field(&mut cs, node_id);
    match value {
        Some((i, region)) => {
            push_fd_index(&mut cs, i);
            push_region(&mut cs, region);
        },
        None => {
            push_field(&mut cs, Pod::Fd(-1));
            push_region(&mut cs, RegionRef { memory_id: INVALID_ID, offset: 0, size: 0 });
        },
    }
    assert(fields(cs@) =~= event_fields(e));
    proof {
        lemma_flat_fields_wf(event_fields(e));
    }
    finish_event(cs, Ghost(e))
}

/// Encodes a node command event.
pub fn encode_command(command: Command) -> (r: Result<Vec<u8>, WireError>)
    ensures
        r matches Ok(b) && b@ == event_payload(Event::Command(command)),
{
    let ghost e = Event::<u32>::Command(command);
    let value: u32 = match command {
        Command::Suspend => 0,
        Command::Pause => 1,
        Command::Start => 2,
    };
    let mut body: Vec<u8> = Vec::new();
    crate::pod::push_u32(&mut body, SPA_TYPE_COMMAND_NODE);
    crate::pod::push_u32(&mut body, value);
    let mut cs: Vec<Pod> = Vec::new();
    push_field(&mut cs, Pod::Raw(TYPE_OBJECT, body));
    assert(fields(cs@) =~= event_fields(e));
    proof {
        crate::pod::lemma_le32_roundtrip(SPA_TYPE_COMMAND_NODE);
        crate::pod::lemma_le32_roundtrip(value);
        assert(crate::fields::small_field(command_pod(command)));
        lemma_flat_fields_wf(event_fields(e));
    }
    finish_event(cs, Ghost(e))
}


// ---------------------------------------------------------------------------
// Decoding. Each reader consumes a run of fields starting at `pos`. When a
// ghost target says which items the fields encode, the reader is bound to
// succeed and to stop where the target's fields end.

proof fn lemma_skip_concat(vs: Seq<PodValue>, p: int, a: Seq<PodValue>, x: Seq<PodValue>)
    requires
        0 <= p <= vs.len(),
        vs.skip(p) == a + x,
    ensures
        vs.skip(p + a.len()) == x,
        forall|i: int| 0 <= i < a.len() ==> vs[p + i] == a[i],
        p + a.len() <= vs.len(),
{
    assert(vs.skip(p).len() == vs.len() - p);
    assert forall|i: int| 0 <= i < a.len() implies vs[p + i] == a[i] by {
        assert(vs.skip(p)[i] == vs[p + i]);
        assert((a + x)[i] == a[i]);
    }
    assert(vs.skip(p + a.len()) =~= (a + x).skip(a.len() as int));
    assert((a + x).skip(a.len() as int) =~= x);
}

#[verifier::spinoff_prover]
fn read_datas(
    cs: &Vec<Pod>,
    pos: usize,
    n: usize,
    Ghost(tgt): Ghost<Option<(Seq<DataDescriptor>, Seq<PodValue>)>>,
) -> (r: Option<(Vec<DataDescriptor>, usize)>)
    requires
        pos <= cs@.len(),
        tgt matches Some((t, rest)) ==> t.len() == n && (forall|i: int|
            0 <= i < t.len() ==> data_valid(#[trigger] t[i])) && fields(cs@).skip(pos as int)
            == t.flat_map(|d: DataDescriptor| data_fields(d)) + rest,
    ensures
        r matches Some((ds, end)) ==> ds@.len() == n && pos <= end <= cs@.len() && (forall|i: int|
            0 <= i < ds@.len() ==> data_valid(#[trigger] ds@[i])) && fields(cs@).subrange(
            pos as int,
            end as int,
        ) == ds@.flat_map(|d: DataDescriptor| data_fields(d)),
        tgt matches Some((t, rest)) ==> (r matches Some((ds, end)) && fields(cs@).skip(end as int)
            == rest),
{
    let ghost vs = fields(cs@);
    proof {
        lemma_pods_view_len(cs@);
    }
    let mut out: Vec<DataDescriptor> = Vec::new();
    let mut p = pos;
    let mut k: usize = 0;
    proof {
        lemma_flat_map_all(out@, |d: DataDescriptor| data_fields(d));
        if let Some((t, rest)) = tgt {
            lemma_flat_map_all(t, |d: DataDescriptor| data_fields(d));
        }
    }
    while k < n
        invariant
            vs == fields(cs@),
            vs.len() == cs@.len(),
            pos <= p <= cs@.len(),
            k <= n,
            out@.len() == k,
            forall|i: int| 0 <= i < out@.len() ==> data_valid(#[trigger] out@[i]),
            vs.subrange(pos as int, p as int) == out@.flat_map(|d: DataDescriptor| data_fields(d)),
            tgt matches Some((t, rest)) ==> t.len() == n && (forall|i: int|
                0 <= i < t.len() ==> data_valid(#[trigger] t[i])) && vs.skip(p as int) == t.skip(
                k as int,
            ).flat_map(|d: DataDescriptor| data_fields(d)) + rest,
        decreases n - k,
    {
        proof {
            if let Some((t, rest)) = tgt {
                lemma_flat_map_skip(t, k as int, |d: DataDescriptor| data_fields(d));
                let x = t.skip(k + 1).flat_map(|d: DataDescriptor| data_fields(d)) + rest;
                assert(vs.skip(p as int) =~= data_fields(t[k as int]) + x);
                lemma_skip_concat(vs, p as int, data_fields(t[k as int]), x);
                assert(data_valid(t[k as int]));
                lemma_field(cs@, p as int);
                lemma_field(cs@, p + 1);
                lemma_field(cs@, p + 2);
                lemma_field(cs@, p + 3);
                lemma_field(cs@, p + 4);
            }
        }
        if cs.len() - p < 5 {
            return None;
        }
        let type_id = id_at(cs, p);
        let data_id = u32_at(cs, p + 1);
        let flags = u32_at(cs, p + 2);
        let map_offset = u32_at(cs, p + 3);
        let max_size = u32_at(cs, p + 4);
        match (type_id, data_id, flags, map_offset, max_size) {
            (Some(type_id), Some(data_id), Some(flags), Some(map_offset), Some(max_size)) => {
                if max_size == 0 || map_offset > u32::MAX - max_size {
                    return None;
                }
                let d = DataDescriptor { type_id, data_id, flags, map_offset, max_size };
                proof {
                    lemma_field(cs@, p as int);
                    lemma_field(cs@, p + 1);
                    lemma_field(cs@, p + 2);
                    lemma_field(cs@, p + 3);
                    lemma_field(cs@, p + 4);
                    lemma_flat_map_push(out@, d, |d: DataDescriptor| data_fields(d));
                    assert(vs.subrange(pos as int, p + 5) =~= vs.subrange(pos as int, p as int)
                        + data_fields(d));
                    if let Some((t, rest)) = tgt {
                        let x = t.skip(k + 1).flat_map(|d: DataDescriptor| data_fields(d)) + rest;
                        assert(vs.skip(p + 5) == x);
                    }
                }
                out.push(d);
                p = p + 5;
                k = k + 1;
            },
            _ => {
                return None;
            },
        }
    }
    proof {
        if let Some((t, rest)) = tgt {
            lemma_flat_map_all(t, |d: DataDescriptor| data_fields(d));
            assert(t.skip(k as int).flat_map(|d: DataDescriptor| data_fields(d)) =~= Seq::<PodValue>::empty());
            assert(vs.skip(p as int) =~= rest);
        }
    }
    Some((out, p))
}

fn read_metas(
    cs: &Vec<Pod>,
    pos: usize,
    n: usize,
    Ghost(tgt): Ghost<Option<(Seq<MetaDescriptor>, Seq<PodValue>)>>,
) -> (r: Option<(Vec<MetaDescriptor>, usize)>)
    requires
        pos <= cs@.len(),
        tgt matches Some((t, rest)) ==> t.len() == n && fields(cs@).skip(pos as int) == t.flat_map(
            |d: MetaDescriptor| meta_fields(d),
        ) + rest,
    ensures
        r matches Some((ds, end)) ==> ds@.len() == n && pos <= end <= cs@.len() && fields(
            cs@,
        ).subrange(pos as int, end as int) == ds@.flat_map(|d: MetaDescriptor| meta_fields(d)),
        tgt matches Some((t, rest)) ==> (r matches Some((ds, end)) && fields(cs@).skip(end as int)
            == rest),
{
    let ghost vs = fields(cs@);
    proof {
        lemma_pods_view_len(cs@);
    }
    let mut out: Vec<MetaDescriptor> = Vec::new();
    let mut p = pos;
    let mut k: usize = 0;
    proof {
        lemma_flat_map_all(out@, |d: MetaDescriptor| meta_fields(d));
    }
    while k < n
        invariant
            vs == fields(cs@),
            vs.len() == cs@.len(),
            pos <= p <= cs@.len(),
            k <= n,
            out@.len() == k,
            vs.subrange(pos as int, p as int) == out@.flat_map(|d: MetaDescriptor| meta_fields(d)),
            tgt matches Some((t, rest)) ==> t.len() == n && vs.skip(p as int) == t.skip(
                k as int,
            ).flat_map(|d: MetaDescriptor| meta_fields(d)) + rest,
        decreases n - k,
    {
        proof {
            if let Some((t, rest)) = tgt {
                lemma_flat_map_skip(t, k as int, |d: MetaDescriptor| meta_fields(d));
                let x = t.skip(k + 1).flat_map(|d: MetaDescriptor| meta_fields(d)) + rest;
                assert(vs.skip(p as int) =~= meta_fields(t[k as int]) + x);
                lemma_skip_concat(vs, p as int, meta_fields(t[k as int]), x);
                lemma_field(cs@, p as int);
                lemma_field(cs@, p + 1);
            }
        }
        if cs.len() - p < 2 {
            return None;
        }
        let a = id_at(cs, p);
        let b = u32_at(cs, p + 1);
        match (a, b) {
            (Some(a), Some(b)) => {
                let d = MetaDescriptor { type_id: a, size: b };
                proof {
                    lemma_field(cs@, p as int);
                    lemma_field(cs@, p + 1);
                    lemma_flat_map_push(out@, d, |d: MetaDescriptor| meta_fields(d));
                    assert(vs.subrange(pos as int, p + 2) =~= vs.subrange(pos as int, p as int)
                        + meta_fields(d));
                    if let Some((t, rest)) = tgt {
                        let x = t.skip(k + 1).flat_map(|d: MetaDescriptor| meta_fields(d)) + rest;
                        assert(vs.skip(p + 2) == x);
                    }
                }
                out.push(d);
                p = p + 2;
                k = k + 1;
            },
            _ => {
                return None;
            },
        }
    }
    proof {
        if let Some((t, rest)) = tgt {
            lemma_flat_map_all(t, |d: MetaDescriptor| meta_fields(d));
            assert(t.skip(k as int).flat_map(|d: MetaDescriptor| meta_fields(d)) =~= Seq::<PodValue>::empty());
            assert(vs.skip(p as int) =~= rest);
        }
    }
    Some((out, p))
}

fn read_param_infos(
    cs: &Vec<Pod>,
    pos: usize,
    n: usize,
    Ghost(tgt): Ghost<Option<(Seq<ParamInfo>, Seq<PodValue>)>>,
) -> (r: Option<(Vec<ParamInfo>, usize)>)
    requires
        pos <= cs@.len(),
        tgt matches Some((t, rest)) ==> t.len() == n && fields(cs@).skip(pos as int) == t.flat_map(
            |d: ParamInfo| param_info_fields(d),
        ) + rest,
    ensures
        r matches Some((ds, end)) ==> ds@.len() == n && pos <= end <= cs@.len() && fields(
            cs@,
        ).subrange(pos as int, end as int) == ds@.flat_map(|d: ParamInfo| param_info_fields(d)),
        tgt matches Some((t, rest)) ==> (r matches Some((ds, end)) && fields(cs@).skip(end as int)
            == rest),
{
    let ghost vs = fields(cs@);
    proof {
        lemma_pods_view_len(cs@);
    }
    let mut out: Vec<ParamInfo> = Vec::new();
    let mut p = pos;
    let mut k: usize = 0;
    proof {
        lemma_flat_map_all(out@, |d: ParamInfo| param_info_fields(d));
    }
    while k < n
        invariant
            vs == fields(cs@),
            vs.len() == cs@.len(),
            pos <= p <= cs@.len(),
            k <= n,
            out@.len() == k,
            vs.subrange(pos as int, p as int) == out@.flat_map(|d: ParamInfo| param_info_fields(d)),
            tgt matches Some((t, rest)) ==> t.len() == n && vs.skip(p as int) == t.skip(
                k as int,
            ).flat_map(|d: ParamInfo| param_info_fields(d)) + rest,
        decreases n - k,
    {
        proof {
            if let Some((t, rest)) = tgt {
                lemma_flat_map_skip(t, k as int, |d: ParamInfo| param_info_fields(d));
                let x = t.skip(k + 1).flat_map(|d: ParamInfo| param_info_fields(d)) + rest;
                assert(vs.skip(p as int) =~= param_info_fields(t[k as int]) + x);
                lemma_skip_concat(vs, p as int, param_info_fields(t[k as int]), x);
                lemma_field(cs@, p as int);
                lemma_field(cs@, p + 1);
            }
        }
        if cs.len() - p < 2 {
            return None;
        }
        let a = id_at(cs, p);
        let b = u32_at(cs, p + 1);
        match (a, b) {
            (Some(a), Some(b)) => {
                let d = ParamInfo { id: a, flags: b };
                proof {
                    lemma_field(cs@, p as int);
                    lemma_field(cs@, p + 1);
                    lemma_flat_map_push(out@, d, |d: ParamInfo| param_info_fields(d));
                    assert(vs.subrange(pos as int, p + 2) =~= vs.subrange(pos as int, p as int)
                        + param_info_fields(d));
                    if let Some((t, rest)) = tgt {
                        let x = t.skip(k + 1).flat_map(|d: ParamInfo| param_info_fields(d)) + rest;
                        assert(vs.skip(p + 2) == x);
                    }
                }
                out.push(d);
                p = p + 2;
                k = k + 1;
            },
            _ => {
                return None;
            },
        }
    }
    proof {
        if let Some((t, rest)) = tgt {
            lemma_flat_map_all(t, |d: ParamInfo| param_info_fields(d));
            assert(t.skip(k as int).flat_map(|d: ParamInfo| param_info_fields(d)) =~= Seq::<PodValue>::empty());
            assert(vs.skip(p as int) =~= rest);
        }
    }
    Some((out, p))
}

fn read_properties(
    cs: &Vec<Pod>,
    pos: usize,
    n: usize,
    Ghost(tgt): Ghost<Option<(Seq<(String, String)>, Seq<PodValue>)>>,
) -> (r: Option<(Vec<(String, String)>, usize)>)
    requires
        pos <= cs@.len(),
        tgt matches Some((t, rest)) ==> t.len() == n && fields(cs@).skip(pos as int) == t.flat_map(
            |d: (String, String)| property_fields(d),
        ) + rest,
    ensures
        r matches Some((ds, end)) ==> ds@.len() == n && pos <= end <= cs@.len() && fields(
            cs@,
        ).subrange(pos as int, end as int) == ds@.flat_map(|d: (String, String)| property_fields(d)),
        tgt matches Some((t, rest)) ==> (r matches Some((ds, end)) && fields(cs@).skip(end as int)
            == rest),
{
    let ghost vs = fields(cs@);
    proof {
        lemma_pods_view_len(cs@);
    }
    let mut out: Vec<(String, String)> = Vec::new();
    let mut p = pos;
    let mut k: usize = 0;
    proof {
        lemma_flat_map_all(out@, |d: (String, String)| property_fields(d));
    }
    while k < n
        invariant
            vs == fields(cs@),
            vs.len() == cs@.len(),
            pos <= p <= cs@.len(),
            k <= n,
            out@.len() == k,
            vs.subrange(pos as int, p as int) == out@.flat_map(|d: (String, String)| property_fields(d)),
            tgt matches Some((t, rest)) ==> t.len() == n && vs.skip(p as int) == t.skip(
                k as int,
            ).flat_map(|d: (String, String)| property_fields(d)) + rest,
        decreases n - k,
    {
        proof {
            if let Some((t, rest)) = tgt {
                lemma_flat_map_skip(t, k as int, |d: (String, String)| property_fields(d));
                let x = t.skip(k + 1).flat_map(|d: (String, String)| property_fields(d)) + rest;
                assert(vs.skip(p as int) =~= property_fields(t[k as int]) + x);
                lemma_skip_concat(vs, p as int, property_fields(t[k as int]), x);
                lemma_field(cs@, p as int);
                lemma_field(cs@, p + 1);
            }
        }
        if cs.len() - p < 2 {
            return None;
        }
        let a = string_at(cs, p);
        let b = string_at(cs, p + 1);
        match (a, b) {
            (Some(a), Some(b)) => {
                let d = (a, b);
                proof {
                    lemma_field(cs@, p as int);
                    lemma_field(cs@, p + 1);
                    lemma_flat_map_push(out@, d, |d: (String, String)| property_fields(d));
                    assert(vs.subrange(pos as int, p + 2) =~= vs.subrange(pos as int, p as int)
                        + property_fields(d));
                    if let Some((t, rest)) = tgt {
                        let x = t.skip(k + 1).flat_map(|d: (String, String)| property_fields(d)) + rest;
                        assert(vs.skip(p + 2) == x);
                    }
                }
                out.push(d);
                p = p + 2;
                k = k + 1;
            },
            _ => {
                return None;
            },
        }
    }
    proof {
        if let Some((t, rest)) = tgt {
            lemma_flat_map_all(t, |d: (String, String)| property_fields(d));
            assert(t.skip(k as int).flat_map(|d: (String, String)| property_fields(d)) =~= Seq::<PodValue>::empty());
            assert(vs.skip(p as int) =~= rest);
        }
    }
    Some((out, p))
}

fn read_region(cs: &Vec<Pod>, p: usize) -> (r: Option<RegionRef>)
    requires
        p + 3 <= cs@.len(),
    ensures
        r matches Some(g) ==> fields(cs@).subrange(p as int, p + 3) == region_fields(g),
        forall|g: RegionRef|
            fields(cs@).subrange(p as int, p + 3) == #[trigger] region_fields(g) ==> r == Some(g),
{
    let _n = cs.len();
    proof {
        lemma_field(cs@, p as int);
        lemma_field(cs@, p + 1);
        lemma_field(cs@, p + 2);
        lemma_pods_view_len(cs@);
    }
    let a = u32_at(cs, p);
    let b = u32_at(cs, p + 1);
    let c = u32_at(cs, p + 2);
    proof {
        assert forall|g: RegionRef|
            fields(cs@).subrange(p as int, p + 3) == #[trigger] region_fields(g) implies a == Some(
                g.memory_id,
            ) && b == Some(g.offset) && c == Some(g.size) by {
            assert(fields(cs@).subrange(p as int, p + 3)[0] == fields(cs@)[p as int]);
            assert(fields(cs@).subrange(p as int, p + 3)[1] == fields(cs@)[p + 1]);
            assert(fields(cs@).subrange(p as int, p + 3)[2] == fields(cs@)[p + 2]);
        }
    }
    match (a, b, c) {
        (Some(memory_id), Some(offset), Some(size)) => {
            let g = RegionRef { memory_id, offset, size };
            assert(fields(cs@).subrange(p as int, p + 3) =~= region_fields(g));
            Some(g)
        },
        _ => None,
    }
}

fn region_is_valid(g: RegionRef) -> (b: bool)
    ensures
        b == region_valid(g),
{
    g.memory_id != INVALID_ID && g.size != 0 && g.offset <= u32::MAX - g.size
}

#[verifier::spinoff_prover]
fn read_buffers(
    cs: &Vec<Pod>,
    pos: usize,
    n: usize,
    limits: Limits,
    Ghost(tgt): Ghost<Option<(Seq<BufferDescriptor>, Seq<PodValue>)>>,
) -> (r: Option<(Vec<BufferDescriptor>, usize)>)
    requires
        pos <= cs@.len(),
        tgt matches Some((t, rest)) ==> t.len() == n && (forall|i: int|
            0 <= i < t.len() ==> buffer_within(#[trigger] t[i], limits)) && fields(cs@).skip(
            pos as int,
        ) == t.flat_map(|b: BufferDescriptor| buffer_fields(b)) + rest,
    ensures
        r matches Some((bs, end)) ==> bs@.len() == n && pos <= end <= cs@.len() && (forall|i: int|
            0 <= i < bs@.len() ==> buffer_within(#[trigger] bs@[i], limits)) && fields(
            cs@,
        ).subrange(pos as int, end as int) == bs@.flat_map(|b: BufferDescriptor| buffer_fields(b)),
        tgt matches Some((t, rest)) ==> (r matches Some((bs, end)) && fields(cs@).skip(end as int)
            == rest),
{
    let ghost vs = fields(cs@);
    proof {
        lemma_pods_view_len(cs@);
    }
    let mut out: Vec<BufferDescriptor> = Vec::new();
    let mut p = pos;
    let mut k: usize = 0;
    proof {
        lemma_flat_map_all(out@, |b: BufferDescriptor| buffer_fields(b));
    }
    while k < n
        invariant
            vs == fields(cs@),
            vs.len() == cs@.len(),
            pos <= p <= cs@.len(),
            k <= n,
            out@.len() == k,
            forall|i: int| 0 <= i < out@.len() ==> buffer_within(#[trigger] out@[i], limits),
            vs.subrange(pos as int, p as int) == out@.flat_map(|b: BufferDescriptor| buffer_fields(b)),
            tgt matches Some((t, rest)) ==> t.len() == n && (forall|i: int|
                0 <= i < t.len() ==> buffer_within(#[trigger] t[i], limits)) && vs.skip(p as int)
                == t.skip(k as int).flat_map(|b: BufferDescriptor| buffer_fields(b)) + rest,
        decreases n - k,
    {
        let ghost tb: Option<(BufferDescriptor, Seq<PodValue>)> = match tgt {
            Some((t, rest)) => Some(
                (t[k as int], t.skip(k + 1).flat_map(|b: BufferDescriptor| buffer_fields(b)) + rest),
            ),
            None => None,
        };
        proof {
            if let Some((t, rest)) = tgt {
                lemma_flat_map_skip(t, k as int, |b: BufferDescriptor| buffer_fields(b));
                let x = t.skip(k + 1).flat_map(|b: BufferDescriptor| buffer_fields(b)) + rest;
                assert(vs.skip(p as int) =~= buffer_fields(t[k as int]) + x);
                assert(buffer_within(t[k as int], limits));
            }
        }
        match read_buffer(cs, p, limits, Ghost(tb)) {
            Some((b, e)) => {
                proof {
                    lemma_flat_map_push(out@, b, |b: BufferDescriptor| buffer_fields(b));
                    assert(vs.subrange(pos as int, e as int) =~= vs.subrange(pos as int, p as int)
                        + vs.subrange(p as int, e as int));
                }
                out.push(b);
                p = e;
                k = k + 1;
            },
            None => {
                return None;
            },
        }
    }
    proof {
        if let Some((t, rest)) = tgt {
            lemma_flat_map_all(t, |b: BufferDescriptor| buffer_fields(b));
            assert(t.skip(k as int).flat_map(|b: BufferDescriptor| buffer_fields(b))
                =~= Seq::<PodValue>::empty());
            assert(vs.skip(p as int) =~= rest);
        }
    }
    Some((out, p))
}

proof fn lemma_buffer_head(vs: Seq<PodValue>, pos: int, t: BufferDescriptor, rest: Seq<PodValue>)
    requires
        0 <= pos <= vs.len(),
        vs.skip(pos) == buffer_fields(t) + rest,
    ensures
        pos + 4 <= vs.len(),
        vs.subrange(pos, pos + 3) == region_fields(t.metadata),
        vs[pos + 3] == count_of(t.metas@.len()),
        vs.skip(pos + 4) == t.metas@.flat_map(|m: MetaDescriptor| meta_fields(m)) + (seq![
            count_of(t.datas@.len()),
        ] + t.datas@.flat_map(|d: DataDescriptor| data_fields(d)) + rest),
{
    let y = t.metas@.flat_map(|m: MetaDescriptor| meta_fields(m)) + (seq![
        count_of(t.datas@.len()),
    ] + t.datas@.flat_map(|d: DataDescriptor| data_fields(d)) + rest);
    let h = region_fields(t.metadata) + seq![count_of(t.metas@.len())];
    assert(vs.skip(pos) =~= h + y);
    lemma_skip_concat(vs, pos, h, y);
    assert(vs.subrange(pos, pos + 3) =~= region_fields(t.metadata));
}

proof fn lemma_buffer_tail(vs: Seq<PodValue>, e1: int, t: BufferDescriptor, rest: Seq<PodValue>)
    requires
        0 <= e1 <= vs.len(),
        vs.skip(e1) == seq![count_of(t.datas@.len())] + t.datas@.flat_map(
            |d: DataDescriptor| data_fields(d),
        ) + rest,
    ensures
        e1 + 1 <= vs.len(),
        vs[e1] == count_of(t.datas@.len()),
        vs.skip(e1 + 1) == t.datas@.flat_map(|d: DataDescriptor| data_fields(d)) + rest,
{
    let z = t.datas@.flat_map(|d: DataDescriptor| data_fields(d)) + rest;
    assert(vs.skip(e1) =~= seq![count_of(t.datas@.len())] + z);
    lemma_skip_concat(vs, e1, seq![count_of(t.datas@.len())], z);
}

#[verifier::spinoff_prover]
fn read_buffer(
    cs: &Vec<Pod>,
    pos: usize,
    limits: Limits,
    Ghost(tgt): Ghost<Option<(BufferDescriptor, Seq<PodValue>)>>,
) -> (r: Option<(BufferDescriptor, usize)>)
    requires
        pos <= cs@.len(),
        tgt matches Some((t, rest)) ==> buffer_within(t, limits) && fields(cs@).skip(pos as int)
            == buffer_fields(t) + rest,
    ensures
        r matches Some((b, end)) ==> pos <= end <= cs@.len() && buffer_within(b, limits) && fields(
            cs@,
        ).subrange(pos as int, end as int) == buffer_fields(b),
        tgt matches Some((t, rest)) ==> (r matches Some((b, end)) && fields(cs@).skip(end as int)
            == rest),
{
    let ghost vs = fields(cs@);
    proof {
        lemma_pods_view_len(cs@);
        if let Some((t, rest)) = tgt {
            lemma_buffer_head(vs, pos as int, t, rest);
            lemma_field(cs@, pos + 3);
        }
    }
    if cs.len() - pos < 4 {
        return None;
    }
    let metadata = match read_region(cs, pos) {
        Some(g) => g,
        None => {
            return None;
        },
    };
    if !region_is_valid(metadata) {
        return None;
    }
    let nm = match count_at(cs, pos + 3, limits.max_metas) {
        Some(n) => n,
        None => {
            return None;
        },
    };
    let ghost tm: Option<(Seq<MetaDescriptor>, Seq<PodValue>)> = match tgt {
        Some((t, rest)) => Some(
            (
                t.metas@,
                seq![count_of(t.datas@.len())] + t.datas@.flat_map(|d: DataDescriptor| data_fields(d))
                    + rest,
            ),
        ),
        None => None,
    };
    let (metas, e1) = match read_metas(cs, pos + 4, nm, Ghost(tm)) {
        Some(x) => x,
        None => {
            return None;
        },
    };
    proof {
        if let Some((t, rest)) = tgt {
            lemma_buffer_tail(vs, e1 as int, t, rest);
            lemma_field(cs@, e1 as int);
        }
    }
    if e1 >= cs.len() {
        return None;
    }
    let nd = match count_at(cs, e1, limits.max_datas) {
        Some(n) => n,
        None => {
            return None;
        },
    };
    let ghost td: Option<(Seq<DataDescriptor>, Seq<PodValue>)> = match tgt {
        Some((t, rest)) => Some((t.datas@, rest)),
        None => None,
    };
    let (datas, e2) = match read_datas(cs, e1 + 1, nd, Ghost(td)) {
        Some(x) => x,
        None => {
            return None;
        },
    };
    let b = BufferDescriptor { metadata, metas, datas };
    proof {
        lemma_field(cs@, pos + 3);
        lemma_field(cs@, e1 as int);
        assert(vs.subrange(pos as int, e2 as int) =~= vs.subrange(pos as int, pos + 3) + vs.subrange(
            pos + 3,
            pos + 4,
        ) + vs.subrange(pos + 4, e1 as int) + vs.subrange(e1 as int, e1 + 1) + vs.subrange(
            e1 + 1,
            e2 as int,
        ));
        assert(vs.subrange(pos + 3, pos + 4) =~= seq![count_of(nm as nat)]);
        assert(vs.subrange(e1 as int, e1 + 1) =~= seq![count_of(nd as nat)]);
        assert(vs.subrange(pos as int, e2 as int) =~= buffer_fields(b));
    }
    Some((b, e2))
}

fn direction_at(cs: &Vec<Pod>, pos: usize) -> (r: Option<Direction>)
    ensures
        r matches Some(d) ==> field(cs@, pos as int) == Some(dir_of(d)),
        forall|d: Direction| field(cs@, pos as int) == Some(#[trigger] dir_of(d)) ==> r == Some(d),
{
    if pos < cs.len() {
        proof {
            lemma_field(cs@, pos as int);
        }
        match &cs[pos] {
            Pod::Int(0) => Some(Direction::Input),
            Pod::Int(1) => Some(Direction::Output),
            _ => None,
        }
    } else {
        None
    }
}

/// `SPA_ID_INVALID` is read as no ID.
fn optional_id(v: u32) -> (r: Option<u32>)
    ensures
        wire_id(r) == v,
        mix_valid(r),
        forall|m: Option<u32>| mix_valid(m) && wire_id(m) == v ==> r == m,
{
    if v == INVALID_ID {
        None
    } else {
        Some(v)
    }
}

proof fn lemma_fields_at(cs: Seq<Pod>, fs: Seq<PodValue>)
    requires
        fields(cs) == fs,
    ensures
        cs.len() == fs.len(),
        forall|i: int| 0 <= i < cs.len() ==> field(cs, i) == Some(#[trigger] fs[i]),
{
    lemma_pods_view_len(cs);
}

fn parse_transport(cs: &Vec<Pod>, limits: Limits) -> (r: Option<Event<u32>>)
    ensures
        r matches Some(e) ==> event_opcode(e) == EVENT_TRANSPORT && event_within(e, limits)
            && fields(cs@) == event_fields(e),
        forall|e: Event<u32>|
            event_opcode(e) == EVENT_TRANSPORT && event_within(e, limits) && fields(cs@)
                == #[trigger] event_fields(e) ==> r is Some,
{
    proof {
        assert forall|e: Event<u32>|
            event_opcode(e) == EVENT_TRANSPORT && fields(cs@) == #[trigger] event_fields(e) implies cs@.len() == 5 by {
            lemma_fields_at(cs@, event_fields(e));
        }
    }
    if cs.len() != 5 {
        return None;
    }
    let t = fd_index_at(cs, 0);
    let c = fd_index_at(cs, 1);
    let g = read_region(cs, 2);
    proof {
        assert forall|e: Event<u32>|
            event_opcode(e) == EVENT_TRANSPORT && event_within(e, limits) && fields(cs@)
                == #[trigger] event_fields(e) implies t is Some && c is Some && g is Some && region_valid(
            g->Some_0,
        ) by {
            lemma_fields_at(cs@, event_fields(e));
            let tr = e->Transport_0;
            assert(field(cs@, 0) == Some(event_fields(e)[0]));
            assert(field(cs@, 1) == Some(event_fields(e)[1]));
            assert(fields(cs@).subrange(2, 5) =~= region_fields(tr.activation));
        }
    }
    match (t, c, g) {
        (Some(t), Some(c), Some(g)) => {
            if !region_is_valid(g) {
                return None;
            }
            let e = Event::Transport(Transport { trigger_fd: t, completion_fd: c, activation: g });
            proof {
                lemma_pods_view_len(cs@);
                assert(fields(cs@) =~= fields(cs@).subrange(0, 2) + fields(cs@).subrange(2, 5));
                lemma_field(cs@, 0);
                lemma_field(cs@, 1);
                assert(fields(cs@) =~= event_fields(e));
            }
            Some(e)
        },
        _ => None,
    }
}

fn parse_port_set_param(cs: &Vec<Pod>, limits: Limits) -> (r: Option<Event<u32>>)
    ensures
        r matches Some(e) ==> event_opcode(e) == EVENT_PORT_SET_PARAM && event_within(e, limits)
            && fields(cs@) == event_fields(e),
        forall|e: Event<u32>|
            event_opcode(e) == EVENT_PORT_SET_PARAM && event_within(e, limits) && fields(cs@)
                == #[trigger] event_fields(e) ==> r is Some,
{
    proof {
        assert forall|e: Event<u32>|
            event_opcode(e) == EVENT_PORT_SET_PARAM && fields(cs@) == #[trigger] event_fields(
                e,
            ) implies cs@.len() == 5 by {
            lemma_fields_at(cs@, event_fields(e));
        }
    }
    if cs.len() != 5 {
        return None;
    }
    let d = direction_at(cs, 0);
    let port = u32_at(cs, 1);
    let pid = id_at(cs, 2);
    let flags = u32_at(cs, 3);
    proof {
        lemma_field(cs@, 4);
        assert forall|e: Event<u32>|
            event_opcode(e) == EVENT_PORT_SET_PARAM && event_within(e, limits) && fields(cs@)
                == #[trigger] event_fields(e) implies d is Some && port is Some && pid == Some(
            SPA_PARAM_FORMAT,
        ) && flags is Some && cs@[4]@ == opt_param(e->PortSetParam_0.param) by {
            lemma_fields_at(cs@, event_fields(e));
            assert(field(cs@, 0) == Some(event_fields(e)[0]));
            assert(field(cs@, 1) == Some(event_fields(e)[1]));
            assert(field(cs@, 2) == Some(event_fields(e)[2]));
            assert(field(cs@, 3) == Some(event_fields(e)[3]));
            assert(field(cs@, 4) == Some(event_fields(e)[4]));
        }
    }
    match (d, port, pid, flags) {
        (Some(direction), Some(port_id), Some(param_id), Some(flags)) => {
            if param_id != SPA_PARAM_FORMAT {
                return None;
            }
            let param = match &cs[4] {
                Pod::Null => None,
                Pod::Raw(t, b) => {
                    if *t != TYPE_OBJECT || b.len() > limits.max_pod_bytes || limits.max_pod_bytes
                        - b.len() < 8 {
                        return None;
                    }
                    Some(crate::pod::pod_clone(&cs[4]))
                },
                _ => {
                    return None;
                },
            };
            let e = Event::PortSetParam(PortSetParam { direction, port_id, param_id, flags, param });
            proof {
                lemma_pods_view_len(cs@);
                lemma_field(cs@, 0);
                lemma_field(cs@, 1);
                lemma_field(cs@, 2);
                lemma_field(cs@, 3);
                assert(fields(cs@) =~= event_fields(e));
            }
            Some(e)
        },
        _ => None,
    }
}

fn parse_port_set_io(cs: &Vec<Pod>, limits: Limits) -> (r: Option<Event<u32>>)
    ensures
        r matches Some(e) ==> event_opcode(e) == EVENT_PORT_SET_IO && event_within(e, limits)
            && fields(cs@) == event_fields(e),
        forall|e: Event<u32>|
            event_opcode(e) == EVENT_PORT_SET_IO && event_within(e, limits) && fields(cs@)
                == #[trigger] event_fields(e) ==> r is Some,
{
    proof {
        assert forall|e: Event<u32>|
            event_opcode(e) == EVENT_PORT_SET_IO && fields(cs@) == #[trigger] event_fields(
                e,
            ) implies cs@.len() == 7 by {
            lemma_fields_at(cs@, event_fields(e));
        }
    }
    if cs.len() != 7 {
        return None;
    }
    let d = direction_at(cs, 0);
    let port = u32_at(cs, 1);
    let mix = u32_at(cs, 2);
    let io = id_at(cs, 3);
    let g = read_region(cs, 4);
    proof {
        assert forall|e: Event<u32>|
            event_opcode(e) == EVENT_PORT_SET_IO && event_within(e, limits) && fields(cs@)
                == #[trigger] event_fields(e) implies d is Some && port is Some && mix is Some
            && io == Some(SPA_IO_BUFFERS) && g is Some && (is_clear_region(g->Some_0)
            || region_valid(g->Some_0)) by {
            lemma_fields_at(cs@, event_fields(e));
            assert(field(cs@, 0) == Some(event_fields(e)[0]));
            assert(field(cs@, 1) == Some(event_fields(e)[1]));
            assert(field(cs@, 2) == Some(event_fields(e)[2]));
            assert(field(cs@, 3) == Some(event_fields(e)[3]));
            match e->PortSetIo_0 {
                PortSetIo::Install { region, .. } => {
                    assert(fields(cs@).subrange(4, 7) =~= region_fields(region));
                },
                PortSetIo::Clear { .. } => {
                    assert(fields(cs@).subrange(4, 7) =~= region_fields(clear_region()));
                },
            }
        }
    }
    match (d, port, mix, io, g) {
        (Some(direction), Some(port_id), Some(mix), Some(io_id), Some(region)) => {
            if io_id != SPA_IO_BUFFERS {
                return None;
            }
            let mix_id = optional_id(mix);
            let update = if region.memory_id == INVALID_ID && region.offset == 0 && region.size
                == 0 {
                PortSetIo::Clear { direction, port_id, mix_id, io_id }
            } else {
                if !region_is_valid(region) {
                    return None;
                }
                PortSetIo::Install { direction, port_id, mix_id, io_id, region }
            };
            let e = Event::PortSetIo(update);
            proof {
                lemma_pods_view_len(cs@);
                lemma_field(cs@, 0);
                lemma_field(cs@, 1);
                lemma_field(cs@, 2);
                lemma_field(cs@, 3);
                assert(fields(cs@) =~= fields(cs@).subrange(0, 4) + fields(cs@).subrange(4, 7));
                assert(fields(cs@) =~= event_fields(e));
            }
            Some(e)
        },
        _ => None,
    }
}

fn parse_set_activation(cs: &Vec<Pod>, limits: Limits) -> (r: Option<Event<u32>>)
    ensures
        r matches Some(e) ==> event_opcode(e) == EVENT_SET_ACTIVATION && event_within(e, limits)
            && fields(cs@) == event_fields(e),
        forall|e: Event<u32>|
            event_opcode(e) == EVENT_SET_ACTIVATION && event_within(e, limits) && fields(cs@)
                == #[trigger] event_fields(e) ==> r is Some,
{
    proof {
        assert forall|e: Event<u32>|
            event_opcode(e) == EVENT_SET_ACTIVATION && fields(cs@) == #[trigger] event_fields(
                e,
            ) implies cs@.len() == 5 by {
            lemma_fields_at(cs@, event_fields(e));
        }
    }
    if cs.len() != 5 {
        return None;
    }
    let node = u32_at(cs, 0);
    let g = read_region(cs, 2);
    proof {
        lemma_field(cs@, 1);
        assert forall|e: Event<u32>|
            event_opcode(e) == EVENT_SET_ACTIVATION && event_within(e, limits) && fields(cs@)
                == #[trigger] event_fields(e) implies node is Some && g is Some && match e->SetActivation_0 {
                SetActivation::Install { signal_fd, activation, .. } => cs@[1]@ == fd_of(signal_fd)
                    && g == Some(activation),
                SetActivation::Remove { .. } => cs@[1]@ == PodValue::Fd(-1i64) && g == Some(
                    clear_region(),
                ),
            } by {
            lemma_fields_at(cs@, event_fields(e));
            assert(field(cs@, 0) == Some(event_fields(e)[0]));
            assert(field(cs@, 1) == Some(event_fields(e)[1]));
            match e->SetActivation_0 {
                SetActivation::Install { activation, .. } => {
                    assert(fields(cs@).subrange(2, 5) =~= region_fields(activation));
                },
                SetActivation::Remove { .. } => {
                    assert(fields(cs@).subrange(2, 5) =~= region_fields(clear_region()));
                },
            }
        }
    }
    match (node, g) {
        (Some(node_id), Some(region)) => {
            let clear = region.memory_id == INVALID_ID && region.offset == 0 && region.size == 0;
            let is_remove = match &cs[1] {
                Pod::Fd(v) => *v == -1,
                _ => false,
            };
            let e = if is_remove && clear {
                Event::SetActivation(SetActivation::Remove { node_id })
            } else {
                if !region_is_valid(region) {
                    return None;
                }
                let i = match fd_index_at(cs, 1) {
                    Some(i) => i,
                    None => {
                        return None;
                    },
                };
                Event::SetActivation(
                    SetActivation::Install { node_id, signal_fd: i, activation: region },
                )
            };
            proof {
                lemma_pods_view_len(cs@);
                lemma_field(cs@, 0);
                lemma_field(cs@, 1);
                assert(fields(cs@) =~= fields(cs@).subrange(0, 2) + fields(cs@).subrange(2, 5));
                assert(fields(cs@) =~= event_fields(e));
            }
            Some(e)
        },
        _ => None,
    }
}

fn parse_command(cs: &Vec<Pod>, limits: Limits) -> (r: Option<Event<u32>>)
    ensures
        r matches Some(e) ==> event_opcode(e) == EVENT_COMMAND && event_within(e, limits) && fields(
            cs@,
        ) == event_fields(e),
        forall|e: Event<u32>|
            event_opcode(e) == EVENT_COMMAND && event_within(e, limits) && fields(cs@)
                == #[trigger] event_fields(e) ==> r is Some,
{
    proof {
        assert forall|e: Event<u32>|
            event_opcode(e) == EVENT_COMMAND && fields(cs@) == #[trigger] event_fields(
                e,
            ) implies cs@.len() == 1 && cs@[0]@ == command_pod(e->Command_0) && pod_body(
            command_pod(e->Command_0),
        ).len() == 8 by {
            lemma_fields_at(cs@, event_fields(e));
            crate::pod::lemma_le32_roundtrip(SPA_TYPE_COMMAND_NODE);
            crate::pod::lemma_le32_roundtrip(command_value(e->Command_0));
            assert(field(cs@, 0) == Some(event_fields(e)[0]));
            lemma_field(cs@, 0);
        }
    }
    if cs.len() != 1 {
        return None;
    }
    match &cs[0] {
        Pod::Raw(t, b) => {
            if *t != TYPE_OBJECT || b.len() != 8 {
                return None;
            }
            let kind = crate::pod::read_u32_at(b.as_slice(), 0);
            let v = crate::pod::read_u32_at(b.as_slice(), 4);
            proof {
                vstd::bytes::lemma_auto_spec_u32_to_from_le_bytes();
                crate::pod::lemma_le32_roundtrip(SPA_TYPE_COMMAND_NODE);
                assert forall|e: Event<u32>|
                    event_opcode(e) == EVENT_COMMAND && event_within(e, limits) && fields(cs@)
                        == #[trigger] event_fields(e) implies kind == SPA_TYPE_COMMAND_NODE && v
                    == command_value(e->Command_0) by {
                    let c = e->Command_0;
                    crate::pod::lemma_le32_roundtrip(command_value(c));
                    assert(b@.subrange(0, 4) =~= crate::pod::le32(SPA_TYPE_COMMAND_NODE));
                    assert(b@.subrange(4, 8) =~= crate::pod::le32(command_value(c)));
                }
            }
            if kind != SPA_TYPE_COMMAND_NODE {
                return None;
            }
            let c = if v == 0 {
                Command::Suspend
            } else if v == 1 {
                Command::Pause
            } else if v == 2 {
                Command::Start
            } else {
                return None;
            };
            let e = Event::Command(c);
            proof {
                lemma_pods_view_len(cs@);
                lemma_field(cs@, 0);
                assert(b@ =~= b@.subrange(0, 4) + b@.subrange(4, 8));
                assert(b@ =~= crate::pod::le32(SPA_TYPE_COMMAND_NODE) + crate::pod::le32(
                    command_value(c),
                ));
                assert(fields(cs@) =~= event_fields(e));
            }
            Some(e)
        },
        _ => None,
    }
}

fn parse_port_use_buffers(cs: &Vec<Pod>, limits: Limits) -> (r: Option<Event<u32>>)
    ensures
        r matches Some(e) ==> event_opcode(e) == EVENT_PORT_USE_BUFFERS && event_within(e, limits)
            && fields(cs@) == event_fields(e),
        forall|e: Event<u32>|
            event_opcode(e) == EVENT_PORT_USE_BUFFERS && event_within(e, limits) && fields(cs@)
                == #[trigger] event_fields(e) ==> r is Some,
{
    let ghost vs = fields(cs@);
    let ghost has = exists|e: Event<u32>|
        event_opcode(e) == EVENT_PORT_USE_BUFFERS && event_within(e, limits) && fields(cs@)
            == #[trigger] event_fields(e);
    let ghost te = choose|e: Event<u32>|
        event_opcode(e) == EVENT_PORT_USE_BUFFERS && event_within(e, limits) && fields(cs@)
            == #[trigger] event_fields(e);
    proof {
        lemma_pods_view_len(cs@);
        if has {
            let u = te->PortUseBuffers_0;
            let h = seq![
                dir_of(u.direction),
                int_of(u.port_id),
                int_of(wire_id(u.mix_id)),
                int_of(u.flags),
                count_of(u.buffers@.len()),
            ];
            let x = u.buffers@.flat_map(|b: BufferDescriptor| buffer_fields(b));
            assert(vs.skip(0) =~= h + (x + Seq::<PodValue>::empty()));
            lemma_skip_concat(vs, 0, h, x + Seq::<PodValue>::empty());
            lemma_field(cs@, 0);
            lemma_field(cs@, 1);
            lemma_field(cs@, 2);
            lemma_field(cs@, 3);
            lemma_field(cs@, 4);
        }
    }
    if cs.len() < 5 {
        return None;
    }
    let d = direction_at(cs, 0);
    let port = u32_at(cs, 1);
    let mix = u32_at(cs, 2);
    let flags = u32_at(cs, 3);
    let nb = count_at(cs, 4, limits.max_buffers);
    match (d, port, mix, flags, nb) {
        (Some(direction), Some(port_id), Some(mix), Some(flags), Some(nb)) => {
            let ghost tb: Option<(Seq<BufferDescriptor>, Seq<PodValue>)> = if has {
                Some((te->PortUseBuffers_0.buffers@, Seq::<PodValue>::empty()))
            } else {
                None
            };
            let (buffers, end) = match read_buffers(cs, 5, nb, limits, Ghost(tb)) {
                Some(x) => x,
                None => {
                    return None;
                },
            };
            if end != cs.len() {
                return None;
            }
            let mix_id = optional_id(mix);
            let e = Event::PortUseBuffers(
                PortUseBuffers { direction, port_id, mix_id, flags, buffers },
            );
            proof {
                lemma_field(cs@, 0);
                lemma_field(cs@, 1);
                lemma_field(cs@, 2);
                lemma_field(cs@, 3);
                lemma_field(cs@, 4);
                assert(vs =~= vs.subrange(0, 5) + vs.subrange(5, end as int));
                assert(vs =~= event_fields(e));
            }
            Some(e)
        },
        _ => None,
    }
}

/// The event of the given opcode whose fields `cs` are, with descriptors
/// named by index.
fn parse_event(opcode: u8, cs: &Vec<Pod>, limits: Limits) -> (r: Option<Event<u32>>)
    ensures
        r matches Some(e) ==> event_opcode(e) == opcode && event_within(e, limits) && fields(cs@)
            == event_fields(e),
        forall|e: Event<u32>|
            event_opcode(e) == opcode && event_within(e, limits) && fields(cs@)
                == #[trigger] event_fields(e) ==> r is Some,
{
    if opcode == EVENT_TRANSPORT {
        parse_transport(cs, limits)
    } else if opcode == EVENT_PORT_SET_PARAM {
        parse_port_set_param(cs, limits)
    } else if opcode == EVENT_PORT_USE_BUFFERS {
        parse_port_use_buffers(cs, limits)
    } else if opcode == EVENT_PORT_SET_IO {
        parse_port_set_io(cs, limits)
    } else if opcode == EVENT_SET_ACTIVATION {
        parse_set_activation(cs, limits)
    } else if opcode == EVENT_COMMAND {
        parse_command(cs, limits)
    } else {
        None
    }
}

/// The descriptor indices an event names, in field order.
pub open spec fn fd_refs(e: Event<u32>) -> Seq<u32> {
    match e {
        Event::Transport(t) => seq![t.trigger_fd, t.completion_fd],
        Event::SetActivation(a) => match a {
            SetActivation::Install { signal_fd, .. } => seq![signal_fd],
            SetActivation::Remove { .. } => Seq::empty(),
        },
        _ => Seq::empty(),
    }
}

/// The frame carries exactly the descriptors the event names: as many as it
/// names, each named once, none taken yet.
pub open spec fn refs_match<F>(refs: Seq<u32>, table: Seq<Option<F>>) -> bool {
    &&& table.len() == refs.len()
    &&& forall|a: int|
        0 <= a < refs.len() ==> #[trigger] refs[a] < table.len() && table[refs[a] as int] is Some
    &&& forall|a: int, b: int| 0 <= a < b < refs.len() ==> refs[a] != refs[b]
}

/// The event with each descriptor index replaced by that descriptor.
pub open spec fn resolved<F>(e: Event<u32>, table: Seq<Option<F>>) -> Event<F> {
    match e {
        Event::Transport(t) => Event::Transport(
            Transport {
                trigger_fd: table[t.trigger_fd as int]->Some_0,
                completion_fd: table[t.completion_fd as int]->Some_0,
                activation: t.activation,
            },
        ),
        Event::PortSetParam(p) => Event::PortSetParam(p),
        Event::PortUseBuffers(u) => Event::PortUseBuffers(u),
        Event::PortSetIo(io) => Event::PortSetIo(io),
        Event::SetActivation(a) => Event::SetActivation(
            match a {
                SetActivation::Install { node_id, signal_fd, activation } => SetActivation::Install {
                    node_id,
                    signal_fd: table[signal_fd as int]->Some_0,
                    activation,
                },
                SetActivation::Remove { node_id } => SetActivation::Remove { node_id },
            },
        ),
        Event::Command(c) => Event::Command(c),
    }
}

/// Every slot of the table has been taken.
pub open spec fn all_taken<F>(table: Seq<Option<F>>) -> bool {
    forall|i: int| 0 <= i < table.len() ==> #[trigger] table[i] is None
}

fn resolve<F>(ix: Event<u32>, fds: &mut FrameFds<F>) -> (r: Result<Event<F>, WireError>)
    ensures
        refs_match(fd_refs(ix), old(fds)@) ==> r == Ok::<Event<F>, WireError>(
            resolved(ix, old(fds)@),
        ) && final(fds)@.len() == old(fds)@.len() && all_taken(final(fds)@),
        !refs_match(fd_refs(ix), old(fds)@) ==> r == Err::<Event<F>, WireError>(
            WireError::InvalidDescriptors,
        ) && final(fds)@ == old(fds)@,
{
    let n = fds.len();
    let ghost table = fds@;
    match ix {
        Event::Transport(t) => {
            let a = t.trigger_fd;
            let b = t.completion_fd;
            proof {
                let refs = fd_refs(ix);
                assert(refs[0] == a && refs[1] == b);
            }
            if n != 2 || a == b || a >= 2 || b >= 2 {
                return Err(WireError::InvalidDescriptors);
            }
            match fds.get(a) {
                Ok(_) => {},
                Err(_) => {
                    return Err(WireError::InvalidDescriptors);
                },
            }
            match fds.get(b) {
                Ok(_) => {},
                Err(_) => {
                    return Err(WireError::InvalidDescriptors);
                },
            }
            proof {
                let refs = fd_refs(ix);
                assert forall|x: int, y: int| 0 <= x < y < refs.len() implies refs[x] != refs[y] by {}
                assert(refs_match(refs, table));
            }
            let fa = match fds.take(a) {
                Ok(f) => f,
                Err(_) => {
                    return Err(WireError::InvalidDescriptors);
                },
            };
            let fb = match fds.take(b) {
                Ok(f) => f,
                Err(_) => {
                    return Err(WireError::InvalidDescriptors);
                },
            };
            Ok(Event::Transport(Transport { trigger_fd: fa, completion_fd: fb, activation: t.activation }))
        },
        Event::SetActivation(SetActivation::Install { node_id, signal_fd, activation }) => {
            proof {
                assert(fd_refs(ix)[0] == signal_fd);
            }
            if n != 1 || signal_fd >= 1 {
                return Err(WireError::InvalidDescriptors);
            }
            match fds.take(signal_fd) {
                Ok(f) => {
                    proof {
                        assert(refs_match(fd_refs(ix), table));
                    }
                    Ok(Event::SetActivation(SetActivation::Install { node_id, signal_fd: f, activation }))
                },
                Err(_) => Err(WireError::InvalidDescriptors),
            }
        },
        Event::SetActivation(SetActivation::Remove { node_id }) => {
            if n != 0 {
                return Err(WireError::InvalidDescriptors);
            }
            Ok(Event::SetActivation(SetActivation::Remove { node_id }))
        },
        Event::PortSetParam(p) => {
            if n != 0 {
                return Err(WireError::InvalidDescriptors);
            }
            Ok(Event::PortSetParam(p))
        },
        Event::PortUseBuffers(u) => {
            if n != 0 {
                return Err(WireError::InvalidDescriptors);
            }
            Ok(Event::PortUseBuffers(u))
        },
        Event::PortSetIo(io) => {
            if n != 0 {
                return Err(WireError::InvalidDescriptors);
            }
            Ok(Event::PortSetIo(io))
        },
        Event::Command(c) => {
            if n != 0 {
                return Err(WireError::InvalidDescriptors);
            }
            Ok(Event::Command(c))
        },
    }
}

/// Events of one opcode with the same fields name the same descriptors.
proof fn lemma_same_fields_same_refs(a: Event<u32>, b: Event<u32>, limits: Limits)
    requires
        event_opcode(a) == event_opcode(b),
        event_within(a, limits),
        event_within(b, limits),
        event_fields(a) == event_fields(b),
    ensures
        fd_refs(a) == fd_refs(b),
{
    match (a, b) {
        (Event::Transport(x), Event::Transport(y)) => {
            assert(event_fields(a)[0] == event_fields(b)[0]);
            assert(event_fields(a)[1] == event_fields(b)[1]);
            assert(event_fields(a)[0] == fd_of(x.trigger_fd));
            assert(event_fields(b)[0] == fd_of(y.trigger_fd));
            assert(event_fields(a)[1] == fd_of(x.completion_fd));
            assert(event_fields(b)[1] == fd_of(y.completion_fd));
            lemma_fd_of(x.trigger_fd);
            lemma_fd_of(y.trigger_fd);
            lemma_fd_of(x.completion_fd);
            lemma_fd_of(y.completion_fd);
            assert(fd_refs(a) =~= fd_refs(b));
        },
        (Event::SetActivation(x), Event::SetActivation(y)) => {
            assert(event_fields(a)[1] == event_fields(b)[1]);
            match (x, y) {
                (
                    SetActivation::Install { signal_fd: i, .. },
                    SetActivation::Install { signal_fd: j, .. },
                ) => {
                    assert(event_fields(a)[1] == fd_of(i));
                    assert(event_fields(b)[1] == fd_of(j));
                    lemma_fd_of(i);
                    lemma_fd_of(j);
                    assert(fd_refs(a) =~= fd_refs(b));
                },
                (SetActivation::Install { signal_fd: i, .. }, SetActivation::Remove { .. }) => {
                    assert(event_fields(a)[1] == fd_of(i));
                    assert(event_fields(b)[1] == PodValue::Fd(-1i64));
                    lemma_fd_of(i);
                },
                (SetActivation::Remove { .. }, SetActivation::Install { signal_fd: j, .. }) => {
                    assert(event_fields(b)[1] == fd_of(j));
                    assert(event_fields(a)[1] == PodValue::Fd(-1i64));
                    lemma_fd_of(j);
                },
                _ => {
                    assert(fd_refs(a) =~= fd_refs(b));
                },
            }
        },
        _ => {
            assert(fd_refs(a) =~= fd_refs(b));
        },
    }
}

proof fn lemma_fd_of(i: u32)
    requires
        i <= i32::MAX,
    ensures
        fd_of(i) == PodValue::Fd(i as i64),
{
    assert((i as i32) as i64 == i as i64) by (bit_vector)
        requires
            i <= 0x7fff_ffff,
    ;
}

pub open spec fn is_event_opcode(opcode: u8) -> bool {
    opcode == EVENT_TRANSPORT || opcode == EVENT_PORT_SET_PARAM || opcode == EVENT_PORT_USE_BUFFERS
        || opcode == EVENT_PORT_SET_IO || opcode == EVENT_SET_ACTIVATION || opcode == EVENT_COMMAND
}

/// `ix` is an event of this opcode, within `limits`, whose canonical
/// payload is `payload`.
pub open spec fn event_accepted(ix: Event<u32>, opcode: u8, payload: Seq<u8>, limits: Limits) -> bool {
    &&& event_opcode(ix) == opcode
    &&& event_within(ix, limits)
    &&& struct_wf(event_fields(ix))
    &&& payload == event_payload(ix)
}

/// Decodes one server-to-client event and takes exactly the descriptors it
/// names out of the frame's table. An unknown opcode is `UnknownOpcode`; a
/// payload that encodes no accepted event is `InvalidPayload`; a frame that
/// does not carry exactly the named descriptors is `InvalidDescriptors`. On
/// error the table is left as it was.
pub fn decode_event<F>(opcode: u8, payload: &[u8], fds: &mut FrameFds<F>, limits: Limits) -> (r:
    Result<Event<F>, WireError>)
    ensures
        !is_event_opcode(opcode) ==> r == Err::<Event<F>, WireError>(
            WireError::UnknownOpcode(opcode),
        ),
        is_event_opcode(opcode) && (forall|ix: Event<u32>|
            !#[trigger] event_accepted(ix, opcode, payload@, limits)) ==> r == Err::<
            Event<F>,
            WireError,
        >(WireError::InvalidPayload),
        forall|ix: Event<u32>|
            #[trigger] event_accepted(ix, opcode, payload@, limits) ==> (refs_match(
                fd_refs(ix),
                old(fds)@,
            ) ==> r is Ok) && (!refs_match(fd_refs(ix), old(fds)@) ==> r == Err::<
                Event<F>,
                WireError,
            >(WireError::InvalidDescriptors)),
        r matches Ok(ev) ==> exists|ix: Event<u32>|
            #[trigger] event_accepted(ix, opcode, payload@, limits) && refs_match(
                fd_refs(ix),
                old(fds)@,
            ) && ev == resolved(ix, old(fds)@),
        r is Ok ==> final(fds)@.len() == old(fds)@.len() && all_taken(final(fds)@),
        r is Err ==> final(fds)@ == old(fds)@,
{
    if !(opcode == EVENT_TRANSPORT || opcode == EVENT_PORT_SET_PARAM || opcode
        == EVENT_PORT_USE_BUFFERS || opcode == EVENT_PORT_SET_IO || opcode == EVENT_SET_ACTIVATION
        || opcode == EVENT_COMMAND) {
        return Err(WireError::UnknownOpcode(opcode));
    }
    let cs = match decode_fields(payload) {
        Some(cs) => cs,
        None => {
            proof {
                assert forall|ix: Event<u32>|
                    !#[trigger] event_accepted(ix, opcode, payload@, limits) by {}
            }
            return Err(WireError::InvalidPayload);
        },
    };
    let ix = match parse_event(opcode, &cs, limits) {
        Some(e) => e,
        None => {
            proof {
                assert forall|ix: Event<u32>|
                    !#[trigger] event_accepted(ix, opcode, payload@, limits) by {
                    if event_accepted(ix, opcode, payload@, limits) {
                        assert(fields(cs@) == event_fields(ix));
                    }
                }
            }
            return Err(WireError::InvalidPayload);
        },
    };
    proof {
        assert(event_accepted(ix, opcode, payload@, limits));
        assert forall|jx: Event<u32>| #[trigger] event_accepted(jx, opcode, payload@, limits) implies fd_refs(jx)
            == fd_refs(ix) by {
            assert(fields(cs@) == event_fields(jx));
            lemma_same_fields_same_refs(ix, jx, limits);
        }
    }
    resolve(ix, fds)
}

/// Header plus body size of a valid POD.
fn pod_total_size_of(p: &Pod) -> (r: u64)
    requires
        crate::pod::pod_wf(p@),
    ensures
        r == pod_total_size(p@),
{
    let bytes = match crate::pod::encode_pod_to_vec(p) {
        Ok(b) => b,
        Err(_) => {
            return 0;
        },
    };
    proof {
        crate::pod::lemma_body_len_bound(p@);
        crate::pod::lemma_framed_header(
            crate::pod::pod_type(p@),
            pod_body(p@),
            Seq::<u8>::empty(),
        );
        assert(bytes@ =~= crate::pod::framed(crate::pod::pod_type(p@), pod_body(p@)) + Seq::<
            u8,
        >::empty());
    }
    let body = crate::pod::read_u32_at(bytes.as_slice(), 0);
    8 + body as u64
}

#[verifier::spinoff_prover]
#[verifier::rlimit(40)]
fn read_info_tail(
    cs: &Vec<Pod>,
    pos: usize,
    limits: Limits,
    Ghost(tgt): Ghost<Option<(Seq<(String, String)>, Seq<ParamInfo>)>>,
) -> (r: Option<(Vec<(String, String)>, Vec<ParamInfo>)>)
    requires
        pos <= cs@.len(),
        tgt matches Some((ps, qs)) ==> info_within(ps.len(), qs.len(), limits) && fields(cs@).skip(
            pos as int,
        ) == info_tail(ps, qs),
    ensures
        r matches Some((ps, qs)) ==> info_within(ps@.len(), qs@.len(), limits) && fields(
            cs@,
        ).skip(pos as int) == info_tail(ps@, qs@),
        tgt is Some ==> r is Some,
{
    let ghost vs = fields(cs@);
    proof {
        lemma_pods_view_len(cs@);
        if let Some((ps, qs)) = tgt {
            let y = ps.flat_map(|p: (String, String)| property_fields(p)) + (seq![
                count_of(qs.len()),
            ] + qs.flat_map(|p: ParamInfo| param_info_fields(p)));
            assert(vs.skip(pos as int) =~= seq![count_of(ps.len())] + y);
            lemma_skip_concat(vs, pos as int, seq![count_of(ps.len())], y);
            lemma_field(cs@, pos as int);
        }
    }
    if pos >= cs.len() {
        return None;
    }
    let np = match count_at(cs, pos, limits.max_properties) {
        Some(n) => n,
        None => {
            return None;
        },
    };
    let ghost tp: Option<(Seq<(String, String)>, Seq<PodValue>)> = match tgt {
        Some((ps, qs)) => Some(
            (ps, seq![count_of(qs.len())] + qs.flat_map(|p: ParamInfo| param_info_fields(p))),
        ),
        None => None,
    };
    let (props, e1) = match read_properties(cs, pos + 1, np, Ghost(tp)) {
        Some(x) => x,
        None => {
            return None;
        },
    };
    proof {
        if let Some((ps, qs)) = tgt {
            let z = qs.flat_map(|p: ParamInfo| param_info_fields(p));
            assert(vs.skip(e1 as int) =~= seq![count_of(qs.len())] + z);
            lemma_skip_concat(vs, e1 as int, seq![count_of(qs.len())], z);
            lemma_field(cs@, e1 as int);
            assert(vs.skip(e1 + 1) =~= z + Seq::<PodValue>::empty());
        }
    }
    if e1 >= cs.len() {
        return None;
    }
    let nq = match count_at(cs, e1, limits.max_param_info) {
        Some(n) => n,
        None => {
            return None;
        },
    };
    let ghost tq: Option<(Seq<ParamInfo>, Seq<PodValue>)> = match tgt {
        Some((ps, qs)) => Some((qs, Seq::<PodValue>::empty())),
        None => None,
    };
    let (params, e2) = match read_param_infos(cs, e1 + 1, nq, Ghost(tq)) {
        Some(x) => x,
        None => {
            return None;
        },
    };
    if e2 != cs.len() {
        return None;
    }
    proof {
        lemma_field(cs@, pos as int);
        lemma_field(cs@, e1 as int);
        assert(vs.skip(pos as int) =~= vs.subrange(pos as int, pos + 1) + vs.subrange(
            pos + 1,
            e1 as int,
        ) + vs.subrange(e1 as int, e1 + 1) + vs.subrange(e1 + 1, e2 as int));
        assert(vs.subrange(pos as int, pos + 1) =~= seq![count_of(np as nat)]);
        assert(vs.subrange(e1 as int, e1 + 1) =~= seq![count_of(nq as nat)]);
        assert(vs.skip(pos as int) =~= info_tail(props@, params@));
    }
    Some((props, params))
}

fn read_node_info(p: &Pod, limits: Limits) -> (r: Option<Option<NodeInfo>>)
    ensures
        r matches Some(x) ==> p@ == opt_node_info(x) && match x {
            Some(i) => info_within(i.properties@.len(), i.params@.len(), limits),
            None => true,
        },
        forall|x: Option<NodeInfo>|
            p@ == #[trigger] opt_node_info(x) && match x {
                Some(i) => info_within(i.properties@.len(), i.params@.len(), limits),
                None => true,
            } ==> r is Some,
{
    match p {
        Pod::Null => Some(None),
        Pod::Struct(cs) => {
            let ghost has = exists|i: NodeInfo|
                p@ == #[trigger] opt_node_info(Some(i)) && info_within(
                    i.properties@.len(),
                    i.params@.len(),
                    limits,
                );
            let ghost ti = choose|i: NodeInfo|
                p@ == #[trigger] opt_node_info(Some(i)) && info_within(
                    i.properties@.len(),
                    i.params@.len(),
                    limits,
                );
            let ghost vs = fields(cs@);
            proof {
                lemma_pods_view_len(cs@);
                if has {
                    assert(vs == node_info_fields(ti));
                    let h = seq![
                        int_of(ti.max_input_ports),
                        int_of(ti.max_output_ports),
                        long_of(ti.change_mask),
                        long_of(ti.flags),
                    ];
                    assert(vs.skip(0) =~= h + info_tail(ti.properties@, ti.params@));
                    lemma_skip_concat(vs, 0, h, info_tail(ti.properties@, ti.params@));
                    lemma_field(cs@, 0);
                    lemma_field(cs@, 1);
                    lemma_field(cs@, 2);
                    lemma_field(cs@, 3);
                }
            }
            if cs.len() < 4 {
                return None;
            }
            let a = u32_at(cs, 0);
            let b = u32_at(cs, 1);
            let c = u64_at(cs, 2);
            let d = u64_at(cs, 3);
            let ghost tt: Option<(Seq<(String, String)>, Seq<ParamInfo>)> = if has {
                Some((ti.properties@, ti.params@))
            } else {
                None
            };
            match (a, b, c, d) {
                (Some(max_input_ports), Some(max_output_ports), Some(change_mask), Some(flags)) => {
                    let (properties, params) = match read_info_tail(cs, 4, limits, Ghost(tt)) {
                        Some(x) => x,
                        None => {
                            return None;
                        },
                    };
                    let i = NodeInfo {
                        max_input_ports,
                        max_output_ports,
                        change_mask,
                        flags,
                        properties,
                        params,
                    };
                    proof {
                        lemma_field(cs@, 0);
                        lemma_field(cs@, 1);
                        lemma_field(cs@, 2);
                        lemma_field(cs@, 3);
                        assert(vs =~= vs.subrange(0, 4) + vs.skip(4));
                        assert(vs =~= node_info_fields(i));
                    }
                    Some(Some(i))
                },
                _ => None,
            }
        },
        _ => None,
    }
}

fn read_port_info(p: &Pod, limits: Limits) -> (r: Option<Option<PortInfo>>)
    ensures
        r matches Some(x) ==> p@ == opt_port_info(x) && match x {
            Some(i) => info_within(i.properties@.len(), i.params@.len(), limits),
            None => true,
        },
        forall|x: Option<PortInfo>|
            p@ == #[trigger] opt_port_info(x) && match x {
                Some(i) => info_within(i.properties@.len(), i.params@.len(), limits),
                None => true,
            } ==> r is Some,
{
    match p {
        Pod::Null => Some(None),
        Pod::Struct(cs) => {
            let ghost has = exists|i: PortInfo|
                p@ == #[trigger] opt_port_info(Some(i)) && info_within(
                    i.properties@.len(),
                    i.params@.len(),
                    limits,
                );
            let ghost ti = choose|i: PortInfo|
                p@ == #[trigger] opt_port_info(Some(i)) && info_within(
                    i.properties@.len(),
                    i.params@.len(),
                    limits,
                );
            let ghost vs = fields(cs@);
            proof {
                lemma_pods_view_len(cs@);
                if has {
                    assert(vs == port_info_fields(ti));
                    let h = seq![
                        long_of(ti.change_mask),
                        long_of(ti.flags),
                        int_of(ti.rate_num),
                        int_of(ti.rate_denom),
                    ];
                    assert(vs.skip(0) =~= h + info_tail(ti.properties@, ti.params@));
                    lemma_skip_concat(vs, 0, h, info_tail(ti.properties@, ti.params@));
                    lemma_field(cs@, 0);
                    lemma_field(cs@, 1);
                    lemma_field(cs@, 2);
                    lemma_field(cs@, 3);
                }
            }
            if cs.len() < 4 {
                return None;
            }
            let a = u64_at(cs, 0);
            let b = u64_at(cs, 1);
            let c = u32_at(cs, 2);
            let d = u32_at(cs, 3);
            let ghost tt: Option<(Seq<(String, String)>, Seq<ParamInfo>)> = if has {
                Some((ti.properties@, ti.params@))
            } else {
                None
            };
            match (a, b, c, d) {
                (Some(change_mask), Some(flags), Some(rate_num), Some(rate_denom)) => {
                    let (properties, params) = match read_info_tail(cs, 4, limits, Ghost(tt)) {
                        Some(x) => x,
                        None => {
                            return None;
                        },
                    };
                    let i = PortInfo { change_mask, flags, rate_num, rate_denom, properties, params };
                    proof {
                        lemma_field(cs@, 0);
                        lemma_field(cs@, 1);
                        lemma_field(cs@, 2);
                        lemma_field(cs@, 3);
                        assert(vs =~= vs.subrange(0, 4) + vs.skip(4));
                        assert(vs =~= port_info_fields(i));
                    }
                    Some(Some(i))
                },
                _ => None,
            }
        },
        _ => None,
    }
}

/// Copies the `n` parameter PODs at `[pos, pos + n)`, each within the size
/// limit.
fn read_params(cs: &Vec<Pod>, pos: usize, n: usize, limits: Limits) -> (r: Option<Vec<Pod>>)
    requires
        pos + n <= cs@.len(),
        crate::pod::pods_wf(fields(cs@)),
    ensures
        r matches Some(ps) ==> pods_view(ps@) == fields(cs@).subrange(pos as int, pos + n)
            && params_within_bytes(ps@, limits),
        (forall|i: int|
            pos <= i < pos + n ==> pod_total_size(#[trigger] fields(cs@)[i]) <= limits.max_pod_bytes)
            ==> r is Some,
{
    let ghost vs = fields(cs@);
    proof {
        lemma_pods_view_index(cs@);
    }
    let mut out: Vec<Pod> = Vec::new();
    let mut k: usize = 0;
    let len = cs.len();
    while k < n
        invariant
            len == cs@.len(),
            pos + n <= cs@.len(),
            vs == fields(cs@),
            vs.len() == cs@.len(),
            forall|i: int| 0 <= i < cs@.len() ==> #[trigger] vs[i] == cs@[i]@,
            crate::pod::pods_wf(vs),
            k <= n,
            out@.len() == k,
            forall|i: int| 0 <= i < k ==> #[trigger] out@[i]@ == vs[pos + i],
            forall|i: int| 0 <= i < k ==> pod_total_size(#[trigger] out@[i]@) <= limits.max_pod_bytes,
        decreases n - k,
    {
        proof {
            crate::pod::lemma_pods_wf_skip(vs, pos + k);
        }
        let size = pod_total_size_of(&cs[pos + k]);
        if size > limits.max_pod_bytes as u64 {
            return None;
        }
        let p = crate::pod::pod_clone(&cs[pos + k]);
        out.push(p);
        k = k + 1;
    }
    proof {
        lemma_pods_view_index(out@);
        assert forall|i: int| 0 <= i < n implies pods_view(out@)[i] == vs.subrange(
            pos as int,
            pos + n,
        )[i] by {
            assert(out@[i]@ == vs[pos + i]);
        }
        assert(pods_view(out@) =~= vs.subrange(pos as int, pos + n));
    }
    Some(out)
}

pub open spec fn params_within_bytes(ps: Seq<Pod>, limits: Limits) -> bool {
    forall|i: int| 0 <= i < ps.len() ==> pod_total_size(#[trigger] ps[i]@) <= limits.max_pod_bytes
}

fn parse_update(cs: &Vec<Pod>, limits: Limits) -> (r: Option<Method>)
    requires
        struct_wf(fields(cs@)),
    ensures
        r matches Some(m) ==> method_opcode(m) == METHOD_UPDATE && method_within(m, limits)
            && fields(cs@) == method_fields(m),
        forall|m: Method|
            method_opcode(m) == METHOD_UPDATE && method_within(m, limits) && fields(cs@)
                == #[trigger] method_fields(m) ==> r is Some,
{
    let ghost vs = fields(cs@);
    let ghost has = exists|m: Method|
        method_opcode(m) == METHOD_UPDATE && method_within(m, limits) && fields(cs@)
            == #[trigger] method_fields(m);
    let ghost tm = choose|m: Method|
        method_opcode(m) == METHOD_UPDATE && method_within(m, limits) && fields(cs@)
            == #[trigger] method_fields(m);
    proof {
        lemma_pods_view_index(cs@);
        if has {
            let u = tm->Update_0;
            lemma_pods_view_index(u.params@);
            assert(vs.len() == u.params@.len() + 3);
            assert(vs[0] == int_of(u.change_mask));
            assert(vs[1] == count_of(u.params@.len()));
            assert forall|i: int| 0 <= i < u.params@.len() implies #[trigger] vs[2 + i]
                == u.params@[i]@ by {
                assert(vs[2 + i] == pods_view(u.params@)[i]);
            }
            assert(vs[u.params@.len() + 2int] == opt_node_info(u.info));
            lemma_field(cs@, 0);
            lemma_field(cs@, 1);
        }
    }
    if cs.len() < 3 {
        return None;
    }
    let cm = u32_at(cs, 0);
    let n = count_at(cs, 1, limits.max_params);
    match (cm, n) {
        (Some(change_mask), Some(n)) => {
            if cs.len() - 3 != n {
                return None;
            }
            proof {
                if has {
                    let u = tm->Update_0;
                    assert forall|i: int| 2 <= i < 2 + n implies pod_total_size(
                        #[trigger] fields(cs@)[i],
                    ) <= limits.max_pod_bytes by {
                        assert(vs[2 + (i - 2)] == u.params@[i - 2]@);
                    }
                }
            }
            let params = match read_params(cs, 2, n, limits) {
                Some(ps) => ps,
                None => {
                    return None;
                },
            };
            let info = match read_node_info(&cs[n + 2], limits) {
                Some(i) => i,
                None => {
                    return None;
                },
            };
            let ghost pv = params@;
            let m = Method::Update(Update { change_mask, params, info });
            proof {
                lemma_field(cs@, 0);
                lemma_field(cs@, 1);
                lemma_pods_view_len(pv);
                assert(vs.subrange(0, 2) =~= seq![int_of(change_mask), count_of(pv.len())]);
                assert(vs.subrange(2 + n, 3 + n) =~= seq![opt_node_info(info)]);
                assert(vs =~= vs.subrange(0, 2) + vs.subrange(2, 2 + n) + vs.subrange(
                    2 + n,
                    3 + n,
                ));
                assert(vs =~= method_fields(m));
                assert(params_within(params@, limits));
            }
            Some(m)
        },
        _ => None,
    }
}

fn parse_port_update(cs: &Vec<Pod>, limits: Limits) -> (r: Option<Method>)
    requires
        struct_wf(fields(cs@)),
    ensures
        r matches Some(m) ==> method_opcode(m) == METHOD_PORT_UPDATE && method_within(m, limits)
            && fields(cs@) == method_fields(m),
        forall|m: Method|
            method_opcode(m) == METHOD_PORT_UPDATE && method_within(m, limits) && fields(cs@)
                == #[trigger] method_fields(m) ==> r is Some,
{
    let ghost vs = fields(cs@);
    let ghost has = exists|m: Method|
        method_opcode(m) == METHOD_PORT_UPDATE && method_within(m, limits) && fields(cs@)
            == #[trigger] method_fields(m);
    let ghost tm = choose|m: Method|
        method_opcode(m) == METHOD_PORT_UPDATE && method_within(m, limits) && fields(cs@)
            == #[trigger] method_fields(m);
    proof {
        lemma_pods_view_index(cs@);
        if has {
            let u = tm->PortUpdate_0;
            lemma_pods_view_index(u.params@);
            assert(vs.len() == u.params@.len() + 5);
            assert(vs[0] == dir_of(u.direction));
            assert(vs[1] == int_of(u.port_id));
            assert(vs[2] == int_of(u.change_mask));
            assert(vs[3] == count_of(u.params@.len()));
            assert forall|i: int| 0 <= i < u.params@.len() implies #[trigger] vs[4 + i]
                == u.params@[i]@ by {
                assert(vs[4 + i] == pods_view(u.params@)[i]);
            }
            assert(vs[u.params@.len() + 4int] == opt_port_info(u.info));
            lemma_field(cs@, 0);
            lemma_field(cs@, 1);
            lemma_field(cs@, 2);
            lemma_field(cs@, 3);
        }
    }
    if cs.len() < 5 {
        return None;
    }
    let d = direction_at(cs, 0);
    let port = u32_at(cs, 1);
    let cm = u32_at(cs, 2);
    let n = count_at(cs, 3, limits.max_params);
    match (d, port, cm, n) {
        (Some(direction), Some(port_id), Some(change_mask), Some(n)) => {
            if cs.len() - 5 != n {
                return None;
            }
            proof {
                if has {
                    let u = tm->PortUpdate_0;
                    assert forall|i: int| 4 <= i < 4 + n implies pod_total_size(
                        #[trigger] fields(cs@)[i],
                    ) <= limits.max_pod_bytes by {
                        assert(vs[4 + (i - 4)] == u.params@[i - 4]@);
                    }
                }
            }
            let params = match read_params(cs, 4, n, limits) {
                Some(ps) => ps,
                None => {
                    return None;
                },
            };
            let info = match read_port_info(&cs[n + 4], limits) {
                Some(i) => i,
                None => {
                    return None;
                },
            };
            let ghost pv = params@;
            let m = Method::PortUpdate(PortUpdate { direction, port_id, change_mask, params, info });
            proof {
                lemma_field(cs@, 0);
                lemma_field(cs@, 1);
                lemma_field(cs@, 2);
                lemma_field(cs@, 3);
                lemma_pods_view_len(pv);
                assert(vs.subrange(0, 4) =~= seq![
                    dir_of(direction),
                    int_of(port_id),
                    int_of(change_mask),
                    count_of(pv.len()),
                ]);
                assert(vs.subrange(4 + n, 5 + n) =~= seq![opt_port_info(info)]);
                assert(vs =~= vs.subrange(0, 4) + vs.subrange(4, 4 + n) + vs.subrange(
                    4 + n,
                    5 + n,
                ));
                assert(vs =~= method_fields(m));
                assert(params_within(params@, limits));
            }
            Some(m)
        },
        _ => None,
    }
}

fn parse_set_active(cs: &Vec<Pod>) -> (r: Option<Method>)
    ensures
        r matches Some(m) ==> method_opcode(m) == METHOD_SET_ACTIVE && fields(cs@) == method_fields(
            m,
        ),
        forall|m: Method|
            method_opcode(m) == METHOD_SET_ACTIVE && fields(cs@) == #[trigger] method_fields(m)
                ==> r is Some,
{
    proof {
        lemma_pods_view_index(cs@);
    }
    if cs.len() != 1 {
        return None;
    }
    match bool_at(cs, 0) {
        Some(active) => {
            let m = Method::SetActive(SetActive { active });
            proof {
                lemma_field(cs@, 0);
                assert(fields(cs@) =~= method_fields(m));
            }
            Some(m)
        },
        None => {
            proof {
                lemma_field(cs@, 0);
                assert forall|m: Method|
                    method_opcode(m) == METHOD_SET_ACTIVE && fields(cs@) == #[trigger] method_fields(
                        m,
                    ) implies false by {
                    assert(fields(cs@)[0] == PodValue::Bool(m->SetActive_0.active));
                }
            }
            None
        },
    }
}

pub open spec fn is_method_opcode(opcode: u8) -> bool {
    opcode == METHOD_UPDATE || opcode == METHOD_PORT_UPDATE || opcode == METHOD_SET_ACTIVE
}

/// `m` is a method of this opcode, within `limits`, whose canonical payload
/// is `payload`.
pub open spec fn method_accepted(m: Method, opcode: u8, payload: Seq<u8>, limits: Limits) -> bool {
    &&& method_opcode(m) == opcode
    &&& method_within(m, limits)
    &&& struct_wf(method_fields(m))
    &&& payload == method_payload(m)
}

/// Decodes one client-to-server method payload. An unknown opcode is
/// `UnknownOpcode`; a payload that encodes no accepted method is
/// `InvalidPayload`.
pub fn decode_method(opcode: u8, payload: &[u8], limits: Limits) -> (r: Result<Method, WireError>)
    ensures
        !is_method_opcode(opcode) ==> r == Err::<Method, WireError>(
            WireError::UnknownOpcode(opcode),
        ),
        r matches Ok(m) ==> method_accepted(m, opcode, payload@, limits),
        is_method_opcode(opcode) && r is Err ==> r == Err::<Method, WireError>(
            WireError::InvalidPayload,
        ) && forall|m: Method| !#[trigger] method_accepted(m, opcode, payload@, limits),
{
    if !(opcode == METHOD_UPDATE || opcode == METHOD_PORT_UPDATE || opcode == METHOD_SET_ACTIVE) {
        return Err(WireError::UnknownOpcode(opcode));
    }
    let cs = match decode_fields(payload) {
        Some(cs) => cs,
        None => {
            proof {
                assert forall|m: Method| !#[trigger] method_accepted(m, opcode, payload@, limits) by {}
            }
            return Err(WireError::InvalidPayload);
        },
    };
    let parsed = if opcode == METHOD_UPDATE {
        parse_update(&cs, limits)
    } else if opcode == METHOD_PORT_UPDATE {
        parse_port_update(&cs, limits)
    } else {
        parse_set_active(&cs)
    };
    match parsed {
        Some(m) => Ok(m),
        None => {
            proof {
                assert forall|m: Method| !#[trigger] method_accepted(m, opcode, payload@, limits) by {
                    if method_accepted(m, opcode, payload@, limits) {
                        assert(fields(cs@) == method_fields(m));
                    }
                }
            }
            Err(WireError::InvalidPayload)
        },
    }
}

/// A method payload determines the method's wire fields: whatever method
/// `decode_method` accepts for the bytes `encode_method` produced has the
/// encoded method's fields.
pub proof fn law_method_payload_determines_fields(m1: Method, m2: Method)
    requires
        struct_wf(method_fields(m1)),
        struct_wf(method_fields(m2)),
        method_payload(m1) == method_payload(m2),
    ensures
        method_fields(m1) == method_fields(m2),
{
    crate::pod::law_pod_encoding_injective(
        PodValue::Struct(method_fields(m1)),
        PodValue::Struct(method_fields(m2)),
    );
}

/// An event payload determines the event's wire fields, descriptor
/// indices included.
pub proof fn law_event_payload_determines_fields(e1: Event<u32>, e2: Event<u32>)
    requires
        struct_wf(event_fields(e1)),
        struct_wf(event_fields(e2)),
        event_payload(e1) == event_payload(e2),
    ensures
        event_fields(e1) == event_fields(e2),
{
    crate::pod::law_pod_encoding_injective(
        PodValue::Struct(event_fields(e1)),
        PodValue::Struct(event_fields(e2)),
    );
}

/// A method within `limits` comes back from its own payload: the bytes
/// `encode_method` produces are accepted under the method's opcode, and
/// every method accepted for them has the encoded method's wire fields.
pub proof fn law_method_decode_after_encode(m: Method, limits: Limits)
    requires
        method_within(m, limits),
        struct_wf(method_fields(m)),
    ensures
        is_method_opcode(method_opcode(m)),
        method_accepted(m, method_opcode(m), method_payload(m), limits),
        forall|m2: Method|
            #[trigger] method_accepted(m2, method_opcode(m), method_payload(m), limits) ==> method_fields(m2)
                == method_fields(m),
{
    assert forall|m2: Method|
        #[trigger] method_accepted(m2, method_opcode(m), method_payload(m), limits) implies method_fields(m2)
        == method_fields(m) by {
        law_method_payload_determines_fields(m2, m);
    }
}

/// An event within `limits` comes back from its own payload: the bytes the
/// encoders produce are accepted under the event's opcode, and every event
/// accepted for them has the encoded event's wire fields, descriptor
/// indices included.
pub proof fn law_event_decode_after_encode(e: Event<u32>, limits: Limits)
    requires
        event_within(e, limits),
        struct_wf(event_fields(e)),
    ensures
        is_event_opcode(event_opcode(e)),
        event_accepted(e, event_opcode(e), event_payload(e), limits),
        forall|e2: Event<u32>|
            #[trigger] event_accepted(e2, event_opcode(e), event_payload(e), limits) ==> event_fields(e2)
                == event_fields(e),
{
    assert forall|e2: Event<u32>|
        #[trigger] event_accepted(e2, event_opcode(e), event_payload(e), limits) implies event_fields(e2)
        == event_fields(e) by {
        law_event_payload_determines_fields(e2, e);
    }
}

} // verus!
