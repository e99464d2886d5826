//! Semantic configuration accepted by the output session: the one output
//! port, its S16LE format, its buffers, its synchronous IO and downstream
//! activations, converted from and checked against the ClientNode wire
//! events.

use vstd::prelude::*;

use crate::error::SessionError;
use crate::format::{
    format_object, parse_format_object, summary, summary_of, FormatSummary, Prop,
    MEDIA_SUBTYPE_RAW, MEDIA_TYPE_AUDIO,
};
use crate::pod::{Pod, PodValue, TYPE_OBJECT};
use crate::wire;

verus! {

/// ID of the only output port supported by the session.
pub const OUTPUT_PORT_ID: u32 = 0;
/// Maximum retained buffers per output generation.
pub const MAX_SESSION_BUFFERS: usize = 64;
/// Maximum retained metadata descriptors per buffer.
pub const MAX_SESSION_METAS: usize = 64;
/// Maximum retained data descriptors per buffer.
pub const MAX_SESSION_DATAS: usize = 1;
/// `SPA_AUDIO_FORMAT_S16_LE`.
pub const SPA_AUDIO_FORMAT_S16_LE: u32 = 0x103;
/// `SPA_DATA_MemPtr`.
pub const DATA_TYPE_MEM_PTR: u32 = 1;
/// `SPA_DATA_MemFd`.
pub const DATA_TYPE_MEM_FD: u32 = 2;
/// `SPA_DATA_DmaBuf`.
pub const DATA_TYPE_DMA_BUF: u32 = 3;
/// `SPA_DATA_MemId`.
pub const DATA_TYPE_MEM_ID: u32 = 4;

/// PipeWire node identifier.
#[derive(Clone, Copy, Debug, PartialEq, Eq, Structural, Hash, PartialOrd, Ord)]
pub struct NodeId(pub u32);

/// PipeWire port identifier.
#[derive(Clone, Copy, Debug, PartialEq, Eq, Structural, Hash)]
pub struct PortId(pub u32);

/// PipeWire mix identifier. The output slice accepts no mix.
#[derive(Clone, Copy, Debug, PartialEq, Eq, Structural, Hash)]
pub struct MixId(pub u32);

/// Raw SPA audio-channel identifier retained from the negotiated format.
#[derive(Clone, Copy, Debug, PartialEq, Eq, Structural)]
pub struct AudioChannel(pub u32);

/// Connection-local identifier from `Core::AddMem`.
#[derive(Clone, Copy, Debug, PartialEq, Eq, Structural, Hash)]
pub struct MemoryId(pub u32);

/// A checked byte range of an imported memory object.
#[derive(Clone, Copy, Debug, PartialEq, Eq, Structural)]
pub struct RegionRef {
    pub memory: MemoryId,
    pub offset: usize,
    pub len: usize,
}

/// Supported audio sample encoding.
#[derive(Clone, Copy, Debug, PartialEq, Eq, Structural)]
pub enum AudioSampleFormat {
    /// Signed 16-bit little-endian interleaved PCM.
    S16Le,
}

/// Fixed audio format used to validate and size output cycles. The rate,
/// the channel count and the strides are never zero.
#[derive(Clone, Debug)]
pub struct NegotiatedAudioFormat {
    pub sample_format: AudioSampleFormat,
    /// Samples per second.
    pub rate: u32,
    /// Ordered channel positions, or unknown (zero) positions when the peer
    /// gave none.
    pub channels: Vec<AudioChannel>,
    /// Bytes in one sample.
    pub bytes_per_sample: usize,
    /// Bytes in one interleaved frame.
    pub frame_stride: usize,
}

/// A format with a rate, at least one channel, and S16 strides.
pub open spec fn format_wf(f: NegotiatedAudioFormat) -> bool {
    &&& f.rate != 0
    &&& f.channels@.len() > 0
    &&& f.bytes_per_sample == 2
    &&& f.frame_stride == 2 * f.channels@.len()
}

/// Two formats with the same fields.
pub open spec fn same_format(a: NegotiatedAudioFormat, b: NegotiatedAudioFormat) -> bool {
    &&& a.sample_format == b.sample_format
    &&& a.rate == b.rate
    &&& a.channels@ == b.channels@
    &&& a.bytes_per_sample == b.bytes_per_sample
    &&& a.frame_stride == b.frame_stride
}

/// The S16LE format with `rate` and `channels` unknown positions.
pub open spec fn pcm_s16le_spec(f: NegotiatedAudioFormat, rate: u32, channels: u32) -> bool {
    &&& f.sample_format == AudioSampleFormat::S16Le
    &&& f.rate == rate
    &&& f.channels@ == Seq::new(channels as nat, |i: int| AudioChannel(0))
    &&& f.bytes_per_sample == 2
    &&& f.frame_stride == 2 * channels
}

/// Features outside the output session.
#[derive(Clone, Copy, Debug, PartialEq, Eq, Structural)]
pub enum UnsupportedFeature {
    /// Input/capture ports.
    InputDirection,
    /// Explicit mix IDs.
    Mix(MixId),
    /// Port other than output port zero.
    Port(PortId),
    /// Double-buffered asynchronous IO.
    AsyncIo,
    /// Client-allocated buffer reversal.
    ClientAllocatedBuffers,
    /// Multiple planes or a non-MemId plane.
    DataPlane,
    /// Data-plane flags outside the writable mapping policy.
    DataFlags(u32),
    /// Non-audio/non-raw media.
    MediaFormat,
    /// Non-S16LE sample encoding.
    SampleFormat(u32),
    /// Parameter outside Format.
    Parameter(u32),
    /// IO kind outside synchronous Buffers.
    IoType(u32),
}

impl NegotiatedAudioFormat {
    /// The S16LE format with `rate` samples per second and `channels`
    /// unknown channel positions.
    pub fn pcm_s16le(rate: u32, channels: u32) -> (r: Result<Self, SessionError>)
        ensures
            rate == 0 ==> r == Err::<Self, SessionError>(
                SessionError::InvalidFormat("zero sample rate"),
            ),
            rate != 0 && channels == 0 ==> r == Err::<Self, SessionError>(
                SessionError::InvalidFormat("zero channel count"),
            ),
            rate != 0 && channels != 0 && 2 * channels > usize::MAX ==> r == Err::<Self, SessionError>(
                SessionError::Overflow("PCM frame stride"),
            ),
            rate != 0 && channels != 0 && 2 * channels <= usize::MAX ==> (r matches Ok(f)
                && pcm_s16le_spec(f, rate, channels) && format_wf(f)),
    {
        if rate == 0 {
            return Err(SessionError::InvalidFormat("zero sample rate"));
        }
        if channels == 0 {
            return Err(SessionError::InvalidFormat("zero channel count"));
        }
        let mut positions: Vec<AudioChannel> = Vec::new();
        let mut k: u32 = 0;
        while k < channels
            invariant
                k <= channels,
                positions@ == Seq::new(k as nat, |i: int| AudioChannel(0)),
            decreases channels - k,
        {
            positions.push(AudioChannel(0));
            k = k + 1;
            assert(positions@ =~= Seq::new(k as nat, |i: int| AudioChannel(0)));
        }
        let frame_stride = match (channels as usize).checked_mul(2) {
            Some(n) => n,
            None => {
                return Err(SessionError::Overflow("PCM frame stride"));
            },
        };
        Ok(
            NegotiatedAudioFormat {
                sample_format: AudioSampleFormat::S16Le,
                rate,
                channels: positions,
                bytes_per_sample: 2,
                frame_stride,
            },
        )
    }

    /// Whether the format has a rate, at least one channel and S16 strides.
    pub fn is_consistent(&self) -> (b: bool)
        ensures
            b == format_wf(*self),
    {
        self.rate != 0 && self.channels.len() > 0 && self.bytes_per_sample == 2
            && self.channels.len() <= usize::MAX / 2 && self.frame_stride == 2 * self.channels.len()
    }

    /// Whether `other` has the same fields.
    pub fn same_as(&self, other: &Self) -> (b: bool)
        ensures
            b == same_format(*self, *other),
    {
        if self.sample_format != other.sample_format || self.rate != other.rate
            || self.bytes_per_sample != other.bytes_per_sample || self.frame_stride
            != other.frame_stride || self.channels.len() != other.channels.len() {
            return false;
        }
        let n = self.channels.len();
        let mut i: usize = 0;
        while i < n
            invariant
                n == self.channels@.len(),
                n == other.channels@.len(),
                i <= n,
                forall|k: int| 0 <= k < i ==> self.channels@[k] == other.channels@[k],
            decreases n - i,
        {
            if self.channels[i] != other.channels[i] {
                return false;
            }
            i = i + 1;
        }
        assert(self.channels@ =~= other.channels@);
        true
    }

    /// Converts a port's Format parameter to the S16LE format it describes.
    pub fn from_wire(value: &wire::PortSetParam) -> (r: Result<Self, SessionError>)
        ensures
            validate_port_spec(value.direction, value.port_id, None) matches Err(e) ==> r == Err::<
                Self,
                SessionError,
            >(e),
            validate_port_spec(value.direction, value.port_id, None) is Ok && value.param_id
                != wire::SPA_PARAM_FORMAT ==> r == Err::<Self, SessionError>(
                SessionError::Unsupported(UnsupportedFeature::Parameter(value.param_id)),
            ),
            validate_port_spec(value.direction, value.port_id, None) is Ok && value.param_id
                == wire::SPA_PARAM_FORMAT && value.param is None ==> r == Err::<Self, SessionError>(
                SessionError::InvalidFormat("format was cleared"),
            ),
            validate_port_spec(value.direction, value.port_id, None) is Ok && value.param_id
                == wire::SPA_PARAM_FORMAT ==> (value.param matches Some(p) ==> format_param_outcome(
                p@,
                r,
            )),
    {
        match validate_port(value.direction, value.port_id, None) {
            Err(e) => {
                return Err(e);
            },
            Ok(_) => {},
        }
        if value.param_id != wire::SPA_PARAM_FORMAT {
            return Err(SessionError::Unsupported(UnsupportedFeature::Parameter(value.param_id)));
        }
        let pod = match &value.param {
            None => {
                return Err(SessionError::InvalidFormat("format was cleared"));
            },
            Some(p) => p,
        };
        if let Pod::Raw(t, b) = pod {
            if *t == TYPE_OBJECT {
                if let Some(fields) = parse_format_object(b.as_slice()) {
                    proof {
                        let ps = choose|ps: Seq<Prop>|
                            format_object(b@, ps) && summary(fields) == summary_of(ps);
                        assert(format_param(pod@, ps));
                        assert forall|qs: Seq<Prop>| #[trigger] format_param(pod@, qs) implies summary_of(
                            qs,
                        ) == summary(fields) by {
                            assert(format_object(b@, qs));
                        }
                    }
                    return Self::from_summary(fields);
                }
            }
        }
        Err(SessionError::InvalidFormat("malformed Format POD"))
    }

    /// The format that properties read as `fields` describe.
    fn from_summary(fields: crate::format::FormatFields) -> (r: Result<Self, SessionError>)
        ensures
            format_outcome(summary(fields), r),
    {
        if fields.media_type != Some(MEDIA_TYPE_AUDIO) || fields.media_subtype != Some(
            MEDIA_SUBTYPE_RAW,
        ) {
            return Err(SessionError::Unsupported(UnsupportedFeature::MediaFormat));
        }
        if fields.sample_format != Some(SPA_AUDIO_FORMAT_S16_LE) {
            let code = match fields.sample_format {
                Some(x) => x,
                None => 0,
            };
            return Err(SessionError::Unsupported(UnsupportedFeature::SampleFormat(code)));
        }
        let rate = match fields.rate {
            None => {
                return Err(SessionError::InvalidFormat("missing sample rate"));
            },
            Some(x) => {
                if x < 0 {
                    return Err(SessionError::InvalidFormat("invalid sample rate"));
                }
                x as u32
            },
        };
        let count = match fields.channels {
            None => {
                return Err(SessionError::InvalidFormat("missing channel count"));
            },
            Some(x) => {
                if x < 0 {
                    return Err(SessionError::InvalidFormat("invalid channel count"));
                }
                x as u32
            },
        };
        let mut format = match Self::pcm_s16le(rate, count) {
            Err(e) => {
                return Err(e);
            },
            Ok(f) => f,
        };
        match fields.positions {
            None => Ok(format),
            Some(ids) => {
                if ids.len() != format.channels.len() {
                    return Err(SessionError::InvalidFormat("channel position count mismatch"));
                }
                let mut channels: Vec<AudioChannel> = Vec::new();
                let mut i: usize = 0;
                while i < ids.len()
                    invariant
                        i <= ids@.len(),
                        channels@ == ids@.take(i as int).map_values(|x: u32| AudioChannel(x)),
                    decreases ids@.len() - i,
                {
                    channels.push(AudioChannel(ids[i]));
                    i = i + 1;
                    assert(channels@ =~= ids@.take(i as int).map_values(|x: u32| AudioChannel(x)));
                }
                assert(ids@.take(ids@.len() as int) =~= ids@);
                format.channels = channels;
                Ok(format)
            },
        }
    }
}

/// `v` is a Format object POD with properties `ps`.
pub open spec fn format_param(v: PodValue, ps: Seq<Prop>) -> bool {
    v matches PodValue::Raw(t, b) && t == TYPE_OBJECT && format_object(b, ps)
}

pub open spec fn some_or_zero(o: Option<u32>) -> u32 {
    match o {
        Some(x) => x,
        None => 0,
    }
}

pub open spec fn int_or_zero(o: Option<i32>) -> i32 {
    match o {
        Some(x) => x,
        None => 0,
    }
}

/// The channel positions of a format with `count` channels: those given,
/// or `count` unknown positions.
pub open spec fn positions_spec(given: Option<Seq<u32>>, count: u32) -> Seq<AudioChannel> {
    match given {
        Some(p) => p.map_values(|x: u32| AudioChannel(x)),
        None => Seq::new(count as nat, |i: int| AudioChannel(0)),
    }
}

/// What a Format object whose properties read as `s` converts to.
pub open spec fn format_outcome(s: FormatSummary, r: Result<NegotiatedAudioFormat, SessionError>) -> bool {
    if s.0 != Some(MEDIA_TYPE_AUDIO) || s.1 != Some(MEDIA_SUBTYPE_RAW) {
        r == Err::<NegotiatedAudioFormat, SessionError>(
            SessionError::Unsupported(UnsupportedFeature::MediaFormat),
        )
    } else if s.2 != Some(SPA_AUDIO_FORMAT_S16_LE) {
        r == Err::<NegotiatedAudioFormat, SessionError>(
            SessionError::Unsupported(UnsupportedFeature::SampleFormat(some_or_zero(s.2))),
        )
    } else if s.3 is None {
        r == Err::<NegotiatedAudioFormat, SessionError>(
            SessionError::InvalidFormat("missing sample rate"),
        )
    } else if int_or_zero(s.3) < 0 {
        r == Err::<NegotiatedAudioFormat, SessionError>(
            SessionError::InvalidFormat("invalid sample rate"),
        )
    } else if s.4 is None {
        r == Err::<NegotiatedAudioFormat, SessionError>(
            SessionError::InvalidFormat("missing channel count"),
        )
    } else if int_or_zero(s.4) < 0 {
        r == Err::<NegotiatedAudioFormat, SessionError>(
            SessionError::InvalidFormat("invalid channel count"),
        )
    } else {
        let rate = int_or_zero(s.3) as u32;
        let count = int_or_zero(s.4) as u32;
        if rate == 0 {
            r == Err::<NegotiatedAudioFormat, SessionError>(
                SessionError::InvalidFormat("zero sample rate"),
            )
        } else if count == 0 {
            r == Err::<NegotiatedAudioFormat, SessionError>(
                SessionError::InvalidFormat("zero channel count"),
            )
        } else if 2 * count > usize::MAX {
            r == Err::<NegotiatedAudioFormat, SessionError>(
                SessionError::Overflow("PCM frame stride"),
            )
        } else if s.5 matches Some(p) && p.len() != count {
            r == Err::<NegotiatedAudioFormat, SessionError>(
                SessionError::InvalidFormat("channel position count mismatch"),
            )
        } else {
            &&& r matches Ok(f)
            &&& f.sample_format == AudioSampleFormat::S16Le
            &&& f.rate == rate
            &&& f.channels@ == positions_spec(s.5, count)
            &&& f.bytes_per_sample == 2
            &&& f.frame_stride == 2 * count
            &&& format_wf(f)
        }
    }
}

/// What a Format parameter value converts to: the format its properties
/// describe, or `InvalidFormat` when it is no Format object.
pub open spec fn format_param_outcome(v: PodValue, r: Result<NegotiatedAudioFormat, SessionError>) -> bool {
    &&& forall|ps: Seq<Prop>| #[trigger] format_param(v, ps) ==> format_outcome(summary_of(ps), r)
    &&& (forall|ps: Seq<Prop>| !#[trigger] format_param(v, ps)) ==> r
        == Err::<NegotiatedAudioFormat, SessionError>(
        SessionError::InvalidFormat("malformed Format POD"),
    )
}

/// The port a wire direction, port and mix select, when the session
/// supports it: output port zero without a mix.
pub open spec fn validate_port_spec(direction: wire::Direction, port_id: u32, mix_id: Option<u32>) -> Result<
    PortId,
    SessionError,
> {
    if direction != wire::Direction::Output {
        Err(SessionError::Unsupported(UnsupportedFeature::InputDirection))
    } else if port_id != 0 {
        Err(SessionError::Unsupported(UnsupportedFeature::Port(PortId(port_id))))
    } else {
        match mix_id {
            Some(m) => Err(SessionError::Unsupported(UnsupportedFeature::Mix(MixId(m)))),
            None => Ok(PortId(OUTPUT_PORT_ID)),
        }
    }
}

pub fn validate_port(direction: wire::Direction, port_id: u32, mix_id: Option<u32>) -> (r: Result<
    PortId,
    SessionError,
>)
    ensures
        r == validate_port_spec(direction, port_id, mix_id),
{
    if direction != wire::Direction::Output {
        return Err(SessionError::Unsupported(UnsupportedFeature::InputDirection));
    }
    if port_id != 0 {
        return Err(SessionError::Unsupported(UnsupportedFeature::Port(PortId(port_id))));
    }
    match mix_id {
        Some(m) => Err(SessionError::Unsupported(UnsupportedFeature::Mix(MixId(m)))),
        None => Ok(PortId(OUTPUT_PORT_ID)),
    }
}

/// The checked region a wire region names: non-empty, with an end that fits.
pub open spec fn region_spec(r: wire::RegionRef) -> Result<RegionRef, SessionError> {
    if r.size == 0 || r.offset + r.size > usize::MAX {
        Err(SessionError::Overflow("memory region"))
    } else {
        Ok(RegionRef { memory: MemoryId(r.memory_id), offset: r.offset as usize, len: r.size as usize })
    }
}

impl RegionRef {
    pub fn try_from_wire(value: wire::RegionRef) -> (r: Result<RegionRef, SessionError>)
        ensures
            r == region_spec(value),
    {
        let len = value.size as usize;
        let offset = value.offset as usize;
        if len == 0 || offset > usize::MAX - len {
            return Err(SessionError::Overflow("memory region"));
        }
        Ok(RegionRef { memory: MemoryId(value.memory_id), offset, len })
    }
}

/// Transport resources after the frame's descriptors were resolved.
pub struct TransportDescriptor<F> {
    /// Process-wake eventfd.
    pub trigger_fd: F,
    /// Completion eventfd, retained for the generation's lifetime only.
    pub completion_fd: F,
    /// Own activation region.
    pub activation: RegionRef,
}

impl<F> TransportDescriptor<F> {
    /// Checks the activation region of a wire Transport event.
    pub fn try_from_wire(value: wire::Transport<F>) -> (r: Result<Self, SessionError>)
        ensures
            region_spec(value.activation) matches Err(e) ==> r == Err::<Self, SessionError>(e),
            region_spec(value.activation) matches Ok(a) ==> (r matches Ok(d) && d.activation == a
                && d.trigger_fd == value.trigger_fd && d.completion_fd == value.completion_fd),
    {
        match RegionRef::try_from_wire(value.activation) {
            Err(e) => Err(e),
            Ok(activation) => Ok(
                TransportDescriptor {
                    trigger_fd: value.trigger_fd,
                    completion_fd: value.completion_fd,
                    activation,
                },
            ),
        }
    }
}

/// Downstream activation resources.
pub struct PeerActivationDescriptor<F> {
    /// Downstream node identity.
    pub node: NodeId,
    /// Downstream wake eventfd.
    pub signal_fd: F,
    /// Downstream activation region.
    pub activation: RegionRef,
}

/// Install or remove a downstream activation.
pub enum PeerActivationUpdate<F> {
    /// Install a new generation.
    Install(PeerActivationDescriptor<F>),
    /// Idempotently remove one node's target.
    Remove(NodeId),
}

impl<F> PeerActivationUpdate<F> {
    /// Converts a wire SetActivation event, checking its region.
    pub fn try_from_wire(value: wire::SetActivation<F>) -> (r: Result<Self, SessionError>)
        ensures
            value matches wire::SetActivation::Remove { node_id } ==> r == Ok::<Self, SessionError>(
                PeerActivationUpdate::Remove(NodeId(node_id)),
            ),
            value matches wire::SetActivation::Install { node_id, signal_fd, activation } ==> (
            match region_spec(activation) {
                Err(e) => r == Err::<Self, SessionError>(e),
                Ok(a) => r == Ok::<Self, SessionError>(
                    PeerActivationUpdate::Install(
                        PeerActivationDescriptor { node: NodeId(node_id), signal_fd, activation: a },
                    ),
                ),
            }),
    {
        match value {
            wire::SetActivation::Install { node_id, signal_fd, activation } => {
                match RegionRef::try_from_wire(activation) {
                    Err(e) => Err(e),
                    Ok(a) => Ok(
                        PeerActivationUpdate::Install(
                            PeerActivationDescriptor {
                                node: NodeId(node_id),
                                signal_fd,
                                activation: a,
                            },
                        ),
                    ),
                }
            },
            wire::SetActivation::Remove { node_id } => Ok(PeerActivationUpdate::Remove(NodeId(node_id))),
        }
    }
}

/// Synchronous port-IO descriptor.
#[derive(Clone, Copy, Debug, PartialEq, Eq, Structural)]
pub struct PortIoDescriptor {
    pub port: PortId,
    pub region: RegionRef,
}

/// Set or clear operation for synchronous output IO.
#[derive(Clone, Copy, Debug, PartialEq, Eq, Structural)]
pub enum PortIoUpdate {
    /// Install a checked descriptor.
    Install(PortIoDescriptor),
    /// Clear the current mapping.
    Clear,
}

/// The IO update a wire PortSetIo event asks for, when supported.
pub open spec fn port_io_update_spec(value: wire::PortSetIo) -> Result<PortIoUpdate, SessionError> {
    match value {
        wire::PortSetIo::Install { direction, port_id, mix_id, io_id, region } => match validate_port_spec(
            direction,
            port_id,
            mix_id,
        ) {
            Err(e) => Err(e),
            Ok(port) => if io_id == wire::SPA_IO_BUFFERS {
                match region_spec(region) {
                    Ok(region) => Ok(PortIoUpdate::Install(PortIoDescriptor { port, region })),
                    Err(e) => Err(e),
                }
            } else if io_id == wire::SPA_IO_ASYNC_BUFFERS {
                Err(SessionError::Unsupported(UnsupportedFeature::AsyncIo))
            } else {
                Err(SessionError::Unsupported(UnsupportedFeature::IoType(io_id)))
            },
        },
        wire::PortSetIo::Clear { direction, port_id, mix_id, io_id } => match validate_port_spec(
            direction,
            port_id,
            mix_id,
        ) {
            Err(e) => Err(e),
            Ok(_) => if io_id != wire::SPA_IO_BUFFERS {
                Err(SessionError::Unsupported(UnsupportedFeature::IoType(io_id)))
            } else {
                Ok(PortIoUpdate::Clear)
            },
        },
    }
}

impl PortIoUpdate {
    pub fn try_from_wire(value: wire::PortSetIo) -> (r: Result<PortIoUpdate, SessionError>)
        ensures
            r == port_io_update_spec(value),
    {
        match value {
            wire::PortSetIo::Install { direction, port_id, mix_id, io_id, region } => {
                let port = match validate_port(direction, port_id, mix_id) {
                    Ok(p) => p,
                    Err(e) => {
                        return Err(e);
                    },
                };
                if io_id == wire::SPA_IO_BUFFERS {
                    match RegionRef::try_from_wire(region) {
                        Ok(region) => Ok(PortIoUpdate::Install(PortIoDescriptor { port, region })),
                        Err(e) => Err(e),
                    }
                } else if io_id == wire::SPA_IO_ASYNC_BUFFERS {
                    Err(SessionError::Unsupported(UnsupportedFeature::AsyncIo))
                } else {
                    Err(SessionError::Unsupported(UnsupportedFeature::IoType(io_id)))
                }
            },
            wire::PortSetIo::Clear { direction, port_id, mix_id, io_id } => {
                match validate_port(direction, port_id, mix_id) {
                    Ok(_) => {},
                    Err(e) => {
                        return Err(e);
                    },
                }
                if io_id != wire::SPA_IO_BUFFERS {
                    return Err(SessionError::Unsupported(UnsupportedFeature::IoType(io_id)));
                }
                Ok(PortIoUpdate::Clear)
            },
        }
    }
}

/// Checked metadata payload shape.
#[derive(Clone, Copy, Debug, PartialEq, Eq, Structural)]
pub struct MetaDescriptor {
    pub type_id: u32,
    /// Payload size before 8-byte alignment.
    pub size: usize,
}

/// Metadata/chunk and media description for one output buffer.
#[derive(Clone, Debug)]
pub struct BufferDescriptor {
    /// Metadata and trailing chunk mapping.
    pub metadata: RegionRef,
    /// Metadata payloads preceding the data chunk.
    pub metas: Vec<MetaDescriptor>,
    /// Imported media memory.
    pub media_memory: MemoryId,
    /// Media plane offset in the imported memory.
    pub map_offset: usize,
    /// Writable plane capacity.
    pub max_size: usize,
}

/// One output buffer set.
#[derive(Clone, Debug)]
pub struct BufferSetDescriptor {
    pub port: PortId,
    pub buffers: Vec<BufferDescriptor>,
}

/// The session's buffer for one wire buffer: the wire buffer's metas, its
/// one MemId plane and its checked metadata region.
pub open spec fn buffer_converted(w: wire::BufferDescriptor, b: BufferDescriptor) -> bool {
    &&& region_spec(w.metadata) == Ok::<RegionRef, SessionError>(b.metadata)
    &&& b.metas@.len() == w.metas@.len()
    &&& forall|i: int|
        0 <= i < w.metas@.len() ==> #[trigger] b.metas@[i] == (MetaDescriptor {
            type_id: w.metas@[i].type_id,
            size: w.metas@[i].size as usize,
        })
    &&& b.media_memory == MemoryId(w.datas@[0].data_id)
    &&& b.map_offset == w.datas@[0].map_offset as usize
    &&& b.max_size == w.datas@[0].max_size as usize
}

/// The first reason, in buffer order, that a wire buffer is refused.
pub open spec fn buffer_refusal(w: wire::BufferDescriptor) -> Option<SessionError> {
    if w.metas@.len() > MAX_SESSION_METAS {
        Some(SessionError::TooManyDescriptors("metadata"))
    } else if w.datas@.len() != MAX_SESSION_DATAS {
        Some(SessionError::Unsupported(UnsupportedFeature::DataPlane))
    } else if w.datas@[0].type_id != DATA_TYPE_MEM_ID {
        Some(SessionError::Unsupported(UnsupportedFeature::DataPlane))
    } else if w.datas@[0].flags != 0 {
        Some(SessionError::Unsupported(UnsupportedFeature::DataFlags(w.datas@[0].flags)))
    } else {
        match region_spec(w.metadata) {
            Err(e) => Some(e),
            Ok(_) => None,
        }
    }
}

/// The first refusal among the first `n` wire buffers.
pub open spec fn first_refusal(ws: Seq<wire::BufferDescriptor>, n: int) -> Option<SessionError>
    decreases n,
{
    if n <= 0 {
        None
    } else {
        match first_refusal(ws, n - 1) {
            Some(e) => Some(e),
            None => buffer_refusal(ws[n - 1]),
        }
    }
}

/// The error a wire buffer set is refused with, if any.
pub open spec fn buffer_set_refusal(value: wire::PortUseBuffers) -> Option<SessionError> {
    match validate_port_spec(value.direction, value.port_id, value.mix_id) {
        Err(e) => Some(e),
        Ok(_) => if value.flags & wire::SPA_NODE_BUFFERS_FLAG_ALLOC != 0 {
            Some(SessionError::Unsupported(UnsupportedFeature::ClientAllocatedBuffers))
        } else if value.buffers@.len() > MAX_SESSION_BUFFERS {
            Some(SessionError::TooManyDescriptors("buffers"))
        } else {
            first_refusal(value.buffers@, value.buffers@.len() as int)
        },
    }
}

fn convert_buffer(w: &wire::BufferDescriptor) -> (r: Result<BufferDescriptor, SessionError>)
    ensures
        buffer_refusal(*w) matches Some(e) ==> r == Err::<BufferDescriptor, SessionError>(e),
        buffer_refusal(*w) is None ==> (r matches Ok(b) && buffer_converted(*w, b)),
{
    if w.metas.len() > MAX_SESSION_METAS {
        return Err(SessionError::TooManyDescriptors("metadata"));
    }
    if w.datas.len() != MAX_SESSION_DATAS {
        return Err(SessionError::Unsupported(UnsupportedFeature::DataPlane));
    }
    let data = w.datas[0];
    if data.type_id != DATA_TYPE_MEM_ID {
        return Err(SessionError::Unsupported(UnsupportedFeature::DataPlane));
    }
    if data.flags != 0 {
        return Err(SessionError::Unsupported(UnsupportedFeature::DataFlags(data.flags)));
    }
    let metadata = match RegionRef::try_from_wire(w.metadata) {
        Ok(r) => r,
        Err(e) => {
            return Err(e);
        },
    };
    let mut metas: Vec<MetaDescriptor> = Vec::new();
    let mut k: usize = 0;
    while k < w.metas.len()
        invariant
            k <= w.metas@.len(),
            metas@.len() == k,
            forall|i: int|
                0 <= i < k ==> #[trigger] metas@[i] == (MetaDescriptor {
                    type_id: w.metas@[i].type_id,
                    size: w.metas@[i].size as usize,
                }),
        decreases w.metas@.len() - k,
    {
        let m = w.metas[k];
        metas.push(MetaDescriptor { type_id: m.type_id, size: m.size as usize });
        k = k + 1;
    }
    Ok(
        BufferDescriptor {
            metadata,
            metas,
            media_memory: MemoryId(data.data_id),
            map_offset: data.map_offset as usize,
            max_size: data.max_size as usize,
        },
    )
}

/// Two buffer descriptors with the same fields.
pub open spec fn same_buffer(a: BufferDescriptor, b: BufferDescriptor) -> bool {
    &&& a.metadata == b.metadata
    &&& a.metas@ == b.metas@
    &&& a.media_memory == b.media_memory
    &&& a.map_offset == b.map_offset
    &&& a.max_size == b.max_size
}

/// Two buffer sets with the same fields.
pub open spec fn same_buffer_set(a: BufferSetDescriptor, b: BufferSetDescriptor) -> bool {
    &&& a.port == b.port
    &&& a.buffers@.len() == b.buffers@.len()
    &&& forall|i: int| 0 <= i < a.buffers@.len() ==> same_buffer(#[trigger] a.buffers@[i], b.buffers@[i])
}

impl BufferDescriptor {
    /// Whether `other` has the same fields.
    pub fn same_as(&self, other: &Self) -> (b: bool)
        ensures
            b == same_buffer(*self, *other),
    {
        if self.metadata != other.metadata || self.media_memory != other.media_memory
            || self.map_offset != other.map_offset || self.max_size != other.max_size
            || self.metas.len() != other.metas.len() {
            return false;
        }
        let n = self.metas.len();
        let mut i: usize = 0;
        while i < n
            invariant
                n == self.metas@.len(),
                n == other.metas@.len(),
                i <= n,
                forall|k: int| 0 <= k < i ==> self.metas@[k] == other.metas@[k],
            decreases n - i,
        {
            if self.metas[i] != other.metas[i] {
                return false;
            }
            i = i + 1;
        }
        assert(self.metas@ =~= other.metas@);
        true
    }
}

impl BufferSetDescriptor {
    /// Whether `other` has the same fields.
    pub fn same_as(&self, other: &Self) -> (b: bool)
        ensures
            b == same_buffer_set(*self, *other),
    {
        if self.port != other.port || self.buffers.len() != other.buffers.len() {
            return false;
        }
        let n = self.buffers.len();
        let mut i: usize = 0;
        while i < n
            invariant
                n == self.buffers@.len(),
                n == other.buffers@.len(),
                i <= n,
                forall|k: int| 0 <= k < i ==> same_buffer(#[trigger] self.buffers@[k], other.buffers@[k]),
            decreases n - i,
        {
            if !self.buffers[i].same_as(&other.buffers[i]) {
                return false;
            }
            i = i + 1;
        }
        true
    }

    /// Checks and converts a wire buffer set: output port zero, no mix,
    /// server-allocated, at most the session's bound of buffers, each with
    /// at most the bound of metas and exactly one unflagged MemId plane.
    pub fn try_from_wire(value: wire::PortUseBuffers) -> (r: Result<BufferSetDescriptor, SessionError>)
        ensures
            buffer_set_refusal(value) matches Some(e) ==> r == Err::<BufferSetDescriptor, SessionError>(e),
            buffer_set_refusal(value) is None ==> (r matches Ok(d) && d.port == PortId(OUTPUT_PORT_ID)
                && d.buffers@.len() == value.buffers@.len() && forall|i: int|
                0 <= i < value.buffers@.len() ==> buffer_converted(
                    value.buffers@[i],
                    #[trigger] d.buffers@[i],
                )),
    {
        let port = match validate_port(value.direction, value.port_id, value.mix_id) {
            Ok(p) => p,
            Err(e) => {
                return Err(e);
            },
        };
        if value.flags & wire::SPA_NODE_BUFFERS_FLAG_ALLOC != 0 {
            return Err(SessionError::Unsupported(UnsupportedFeature::ClientAllocatedBuffers));
        }
        if value.buffers.len() > MAX_SESSION_BUFFERS {
            return Err(SessionError::TooManyDescriptors("buffers"));
        }
        let mut buffers: Vec<BufferDescriptor> = Vec::new();
        let mut k: usize = 0;
        while k < value.buffers.len()
            invariant
                k <= value.buffers@.len(),
                buffers@.len() == k,
                validate_port_spec(value.direction, value.port_id, value.mix_id) == Ok::<
                    PortId,
                    SessionError,
                >(port),
                value.flags & wire::SPA_NODE_BUFFERS_FLAG_ALLOC == 0,
                value.buffers@.len() <= MAX_SESSION_BUFFERS,
                first_refusal(value.buffers@, k as int) is None,
                forall|i: int|
                    0 <= i < k ==> buffer_converted(value.buffers@[i], #[trigger] buffers@[i]),
            decreases value.buffers@.len() - k,
        {
            match convert_buffer(&value.buffers[k]) {
                Ok(b) => {
                    buffers.push(b);
                    k = k + 1;
                },
                Err(e) => {
                    proof {
                        assert(buffer_refusal(value.buffers@[k as int]) == Some(e));
                        assert(first_refusal(value.buffers@, k + 1) == Some(e));
                        lemma_first_refusal_stays(value.buffers@, k + 1, value.buffers@.len() as int);
                    }
                    return Err(e);
                },
            }
        }
        Ok(BufferSetDescriptor { port, buffers })
    }
}

proof fn lemma_first_refusal_stays(ws: Seq<wire::BufferDescriptor>, k: int, n: int)
    requires
        0 <= k <= n,
        first_refusal(ws, k) is Some,
    ensures
        first_refusal(ws, n) == first_refusal(ws, k),
    decreases n - k,
{
    if k < n {
        lemma_first_refusal_stays(ws, k, n - 1);
    }
}

} // verus!
