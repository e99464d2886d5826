//! PCM WAV files: the RIFF container's `fmt ` and `data` chunks, and a
//! playback cursor that loops over the samples.

use vstd::prelude::*;
use vstd::slice::slice_subrange;
use vstd::slice::slice_to_vec;

use crate::pod::read_u32_at;
use crate::record::u32_field;

verus! {

/// The `fmt ` fields a player needs.
#[derive(Clone, Copy, Debug, PartialEq, Eq, Structural)]
pub struct WavFormat {
    pub channels: u16,
    pub sample_rate: u32,
    pub bits_per_sample: u16,
    pub block_align: u16,
}

/// A parsed PCM WAV file.
#[derive(Clone, Debug)]
pub struct WavFile {
    pub format: WavFormat,
    pub data: Vec<u8>,
}

/// Why a buffer is not a PCM WAV file.
#[derive(Clone, Copy, Debug, PartialEq, Eq, Structural)]
pub enum WavError {
    /// Shorter than the 44-byte canonical header.
    TooShort,
    /// The container is not RIFF.
    NotRiff,
    /// The RIFF form is not WAVE.
    NotWave,
    /// A `fmt ` chunk is shorter than 16 bytes.
    FmtTooSmall,
    /// The audio format is not PCM (1).
    UnsupportedFormat(u16),
    /// No `fmt ` chunk lies inside the buffer.
    MissingFmt,
    /// No `data` chunk lies inside the buffer.
    MissingData,
}

/// How a refusal is reported as an I/O error.
#[derive(Clone, Copy, Debug, PartialEq, Eq, Structural)]
pub enum WavErrorKind {
    InvalidData,
    Unsupported,
}

impl WavError {
    /// The I/O error kind of the refusal.
    pub fn kind(&self) -> (k: WavErrorKind)
        ensures
            k == (if *self is UnsupportedFormat {
                WavErrorKind::Unsupported
            } else {
                WavErrorKind::InvalidData
            }),
    {
        match self {
            WavError::UnsupportedFormat(_) => WavErrorKind::Unsupported,
            _ => WavErrorKind::InvalidData,
        }
    }
}

/// The little-endian 16-bit field at `off`.
pub open spec fn u16_field(b: Seq<u8>, off: int) -> u16 {
    (b[off] as int + 256 * (b[off + 1] as int)) as u16
}

/// `b` holds the four bytes `tag` at `off`.
pub open spec fn tag_at(b: Seq<u8>, off: int, tag: Seq<u8>) -> bool {
    b.subrange(off, off + 4) == tag
}

pub open spec fn riff_tag() -> Seq<u8> {
    seq![0x52u8, 0x49u8, 0x46u8, 0x46u8]
}

pub open spec fn wave_tag() -> Seq<u8> {
    seq![0x57u8, 0x41u8, 0x56u8, 0x45u8]
}

pub open spec fn fmt_tag() -> Seq<u8> {
    seq![0x66u8, 0x6du8, 0x74u8, 0x20u8]
}

pub open spec fn data_tag() -> Seq<u8> {
    seq![0x64u8, 0x61u8, 0x74u8, 0x61u8]
}

/// The format a `fmt ` chunk whose payload starts at `p` describes.
pub open spec fn format_at(b: Seq<u8>, p: int) -> WavFormat {
    WavFormat {
        channels: u16_field(b, p + 2),
        sample_rate: u32_field(b, p + 4),
        block_align: u16_field(b, p + 12),
        bits_per_sample: u16_field(b, p + 14),
    }
}

/// The last `fmt ` and `data` chunks found from `offset` on, chunk by
/// chunk, until a chunk runs past the end; a bad `fmt ` chunk stops the
/// scan with its error.
pub open spec fn chunks_from(b: Seq<u8>, offset: int) -> Result<
    (Option<WavFormat>, Option<Seq<u8>>),
    WavError,
>
    decreases (if offset < b.len() {
        b.len() - offset
    } else {
        0
    }),
{
    if offset < 0 || offset + 8 > b.len() {
        Ok((None, None))
    } else {
        let size = u32_field(b, offset + 4);
        let start = offset + 8;
        let end = start + size;
        let next = if size % 2 == 1 {
            end + 1
        } else {
            end
        };
        if end > b.len() {
            Ok((None, None))
        } else if tag_at(b, offset, fmt_tag()) && size < 16 {
            Err(WavError::FmtTooSmall)
        } else if tag_at(b, offset, fmt_tag()) && u16_field(b, start) != 1 {
            Err(WavError::UnsupportedFormat(u16_field(b, start)))
        } else {
            let this_fmt = if tag_at(b, offset, fmt_tag()) {
                Some(format_at(b, start))
            } else {
                None
            };
            let this_data = if tag_at(b, offset, data_tag()) {
                Some(b.subrange(start, end))
            } else {
                None
            };
            later_wins(this_fmt, this_data, chunks_from(b, next))
        }
    }
}

/// Chunks found later replace the ones `fmt` and `data` found earlier.
pub open spec fn later_wins(
    fmt: Option<WavFormat>,
    data: Option<Seq<u8>>,
    rest: Result<(Option<WavFormat>, Option<Seq<u8>>), WavError>,
) -> Result<(Option<WavFormat>, Option<Seq<u8>>), WavError> {
    match rest {
        Err(e) => Err(e),
        Ok((f, d)) => Ok(
            (
                if f is Some {
                    f
                } else {
                    fmt
                },
                if d is Some {
                    d
                } else {
                    data
                },
            ),
        ),
    }
}

/// What parsing `b` gives: its format and samples, or the refusal.
pub open spec fn wav_parse(b: Seq<u8>) -> Result<(WavFormat, Seq<u8>), WavError> {
    if b.len() < 44 {
        Err(WavError::TooShort)
    } else if !tag_at(b, 0, riff_tag()) {
        Err(WavError::NotRiff)
    } else if !tag_at(b, 8, wave_tag()) {
        Err(WavError::NotWave)
    } else {
        match chunks_from(b, 12) {
            Err(e) => Err(e),
            Ok((None, _)) => Err(WavError::MissingFmt),
            Ok((Some(_), None)) => Err(WavError::MissingData),
            Ok((Some(f), Some(d))) => Ok((f, d)),
        }
    }
}

/// The bytes a collected chunk holds, if any.
pub open spec fn opt_bytes(o: &Option<Vec<u8>>) -> Option<Seq<u8>> {
    match o {
        Some(v) => Some(v@),
        None => None,
    }
}

fn read_u16_at(b: &[u8], off: usize) -> (r: u16)
    requires
        off + 2 <= b@.len(),
    ensures
        r == u16_field(b@, off as int),
{
    let lo = b[off] as u16;
    let hi = b[off + 1] as u16;
    (lo + 256 * hi) as u16
}

fn tag_is(b: &[u8], off: usize, t0: u8, t1: u8, t2: u8, t3: u8) -> (r: bool)
    requires
        off + 4 <= b@.len(),
    ensures
        r == tag_at(b@, off as int, seq![t0, t1, t2, t3]),
{
    let r = b[off] == t0 && b[off + 1] == t1 && b[off + 2] == t2 && b[off + 3] == t3;
    assert(r == (b@.subrange(off as int, off + 4) =~= seq![t0, t1, t2, t3]));
    r
}

impl WavFile {
    /// Parses a RIFF/WAVE buffer: the canonical header, then every chunk
    /// that lies inside the buffer, the last `fmt ` and `data` chunks
    /// winning; odd-sized chunks are padded to even length.
    pub fn parse(buf: &[u8]) -> (r: Result<WavFile, WavError>)
        ensures
            match wav_parse(buf@) {
                Ok((f, d)) => r matches Ok(w) && w.format == f && w.data@ == d,
                Err(e) => r == Err::<WavFile, WavError>(e),
            },
    {
        let len = buf.len();
        if len < 44 {
            return Err(WavError::TooShort);
        }
        if !tag_is(buf, 0, 0x52, 0x49, 0x46, 0x46) {
            return Err(WavError::NotRiff);
        }
        if !tag_is(buf, 8, 0x57, 0x41, 0x56, 0x45) {
            return Err(WavError::NotWave);
        }
        let mut offset: usize = 12;
        let mut format: Option<WavFormat> = None;
        let mut data: Option<Vec<u8>> = None;
        let ghost total = chunks_from(buf@, 12);
        proof {
            assert(seq![0x52u8, 0x49u8, 0x46u8, 0x46u8] == riff_tag());
            assert(seq![0x57u8, 0x41u8, 0x56u8, 0x45u8] == wave_tag());
        }
        while offset <= len && len - offset >= 8
            invariant
                len == buf@.len(),
                len >= 44,
                tag_at(buf@, 0, riff_tag()),
                tag_at(buf@, 8, wave_tag()),
                12 <= offset <= len,
                total == chunks_from(buf@, 12),
                total == later_wins(
                    format,
                    opt_bytes(&data),
                    chunks_from(buf@, offset as int),
                ),
            decreases len - offset,
        {
            let ghost b = buf@;
            let ghost before_data = opt_bytes(&data);
            let size = read_u32_at(buf, offset + 4);
            assert(u32_field(b, offset + 4) == size) by {
                assert(b.subrange(offset + 4, offset + 8) =~= buf@.subrange(offset + 4, offset + 8));
            }
            let start = offset + 8;
            if size as usize > len - start {
                return match format {
                    None => Err(WavError::MissingFmt),
                    Some(f) => match data {
                        None => Err(WavError::MissingData),
                        Some(d) => Ok(WavFile { format: f, data: d }),
                    },
                };
            }
            let end = start + size as usize;
            let is_fmt = tag_is(buf, offset, 0x66, 0x6d, 0x74, 0x20);
            let is_data = tag_is(buf, offset, 0x64, 0x61, 0x74, 0x61);
            if is_fmt {
                if size < 16 {
                    return Err(WavError::FmtTooSmall);
                }
                let audio_format = read_u16_at(buf, start);
                if audio_format != 1 {
                    return Err(WavError::UnsupportedFormat(audio_format));
                }
                let channels = read_u16_at(buf, start + 2);
                let sample_rate = read_u32_at(buf, start + 4);
                let block_align = read_u16_at(buf, start + 12);
                let bits_per_sample = read_u16_at(buf, start + 14);
                assert(u32_field(b, start + 4) == sample_rate) by {
                    assert(b.subrange(start + 4, start + 8) =~= buf@.subrange(start + 4, start + 8));
                }
                format = Some(WavFormat { channels, sample_rate, bits_per_sample, block_align });
            } else if is_data {
                data = Some(slice_to_vec(slice_subrange(buf, start, end)));
            }
            proof {
                let next: int = if size % 2 == 1 {
                    end + 1
                } else {
                    end as int
                };
                let rest = chunks_from(b, next);
                let after_data = opt_bytes(&data);
                assert(chunks_from(b, offset as int) == later_wins(
                    if is_fmt { Some(format_at(b, start as int)) } else { None },
                    if is_data && !is_fmt { Some(b.subrange(start as int, end as int)) } else { None },
                    rest,
                )) by {
                    if is_fmt {
                        assert(!tag_at(b, offset as int, data_tag())) by {
                            assert(b.subrange(offset as int, offset + 4)[0] == 0x66u8);
                        }
                    }
                }
            }
            offset = if size % 2 == 1 && end < len {
                end + 1
            } else {
                end
            };
        }
        match format {
            None => Err(WavError::MissingFmt),
            Some(f) => match data {
                None => Err(WavError::MissingData),
                Some(d) => Ok(WavFile { format: f, data: d }),
            },
        }
    }

    /// Bytes in one sample.
    pub fn bytes_per_sample(&self) -> (n: usize)
        ensures
            n == self.format.bits_per_sample / 8,
    {
        (self.format.bits_per_sample / 8) as usize
    }

    /// Bytes in one interleaved frame.
    pub fn frame_size(&self) -> (n: usize)
        ensures
            n == (self.format.bits_per_sample / 8) * self.format.channels,
    {
        let b = self.bytes_per_sample();
        let c = self.format.channels as usize;
        assert(b * c <= 8192 * 65535) by (nonlinear_arith)
            requires
                b <= 8192,
                c <= 65535,
        ;
        b * c
    }

    /// Whole frames in the samples; none when a frame has no bytes.
    pub fn num_frames(&self) -> (n: usize)
        ensures
            n == (if (self.format.bits_per_sample / 8) * self.format.channels == 0 {
                0
            } else {
                self.data@.len() as int / ((self.format.bits_per_sample / 8) * self.format.channels)
            }),
    {
        let frame = self.frame_size();
        if frame == 0 {
            return 0;
        }
        self.data.len() / frame
    }
}

/// A WAV file being played in a loop, and where playback stands.
pub struct PlayerState {
    pub wav: WavFile,
    pub position: usize,
}

impl PlayerState {
    /// Fills `buf` with the samples from the current position on, starting
    /// over at the end of the file. Nothing happens when the file has no
    /// samples, a frame has no bytes or `buf` is empty.
    pub fn read_frames(&mut self, buf: &mut Vec<u8>, frame_size: usize)
        requires
            old(self).position <= old(self).wav.data@.len(),
        ensures
            final(self).wav.data@ == old(self).wav.data@,
            final(buf)@.len() == old(buf)@.len(),
            old(self).wav.data@.len() == 0 || frame_size == 0 || old(buf)@.len() == 0
                ==> final(buf)@ == old(buf)@ && final(self).position == old(self).position,
            old(self).wav.data@.len() > 0 && frame_size > 0 && old(buf)@.len() > 0 ==> {
                &&& final(self).position == (old(self).position + old(buf)@.len()) % (old(
                    self,
                ).wav.data@.len() as int)
                &&& forall|k: int|
                    0 <= k < old(buf)@.len() ==> #[trigger] final(buf)@[k] == old(self).wav.data@[(
                    old(self).position + k) % (old(self).wav.data@.len() as int)]
            },
    {
        let total = self.wav.data.len();
        let n = buf.len();
        if total == 0 || frame_size == 0 || n == 0 {
            return;
        }
        let ghost p0 = self.position as int;
        if self.position == total {
            self.position = 0;
            proof {
                vstd::arithmetic::div_mod::lemma_mod_self_0(total as int);
            }
        } else {
            proof {
                vstd::arithmetic::div_mod::lemma_small_mod(self.position as nat, total as nat);
            }
        }
        let mut k: usize = 0;
        while k < n
            invariant
                total == self.wav.data@.len(),
                total > 0,
                n == buf@.len(),
                k <= n,
                p0 >= 0,
                self.wav.data@ == old(self).wav.data@,
                self.position < total,
                self.position as int == (p0 + k) % (total as int),
                forall|j: int| 0 <= j < k ==> #[trigger] buf@[j] == self.wav.data@[(p0 + j) % (total as int)],
            decreases n - k,
        {
            let byte = self.wav.data[self.position];
            buf.set(k, byte);
            self.position = self.position + 1;
            if self.position == total {
                self.position = 0;
            }
            proof {
                lemma_mod_step(p0 + k, total as int);
            }
            k = k + 1;
        }
    }
}

/// Stepping one past `x` moves `x % m` one forward, wrapping at `m`.
proof fn lemma_mod_step(x: int, m: int)
    requires
        x >= 0,
        m > 0,
    ensures
        (x + 1) % m == (if x % m + 1 == m {
            0
        } else {
            x % m + 1
        }),
{
    vstd::arithmetic::div_mod::lemma_fundamental_div_mod(x, m);
    vstd::arithmetic::div_mod::lemma_mod_bound(x, m);
    let q = x / m;
    let r = x % m;
    assert(x == m * q + r);
    if r + 1 == m {
        assert(x + 1 == (q + 1) * m + 0) by (nonlinear_arith)
            requires
                x == m * q + r,
                r + 1 == m,
        ;
        vstd::arithmetic::div_mod::lemma_fundamental_div_mod_converse(x + 1, m, q + 1, 0);
    } else {
        assert(x + 1 == q * m + (r + 1)) by (nonlinear_arith)
            requires
                x == m * q + r,
        ;
        vstd::arithmetic::div_mod::lemma_fundamental_div_mod_converse(x + 1, m, q, r + 1);
    }
}

/// The bytes of a RIFF chunk tagged `tag` that holds `body`: the tag, the
/// body's length, the body, and a pad byte after an odd-sized body.
pub open spec fn chunk_bytes(tag: Seq<u8>, body: Seq<u8>) -> Seq<u8> {
    tag + crate::pod::le32(body.len() as u32) + body + (if body.len() % 2 == 1 {
        seq![0u8]
    } else {
        Seq::<u8>::empty()
    })
}

/// What the chunk scan finds from the `k`-th byte of `x` on does not depend
/// on what precedes `x`.
proof fn lemma_chunks_shift(p: Seq<u8>, q: Seq<u8>, x: Seq<u8>, k: int)
    requires
        0 <= k,
    ensures
        chunks_from(p + x, p.len() + k) == chunks_from(q + x, q.len() + k),
    decreases (if k < x.len() {
        x.len() - k
    } else {
        0
    }),
{
    let a = p + x;
    let c = q + x;
    let o = p.len() + k;
    let o2 = q.len() + k;
    if k + 8 <= x.len() {
        assert forall|i: int, j: int| k <= i <= j <= x.len() implies a.subrange(p.len() + i, p.len() + j)
            == #[trigger] x.subrange(i, j) && c.subrange(q.len() + i, q.len() + j) == x.subrange(i, j) by {
            assert(a.subrange(p.len() + i, p.len() + j) =~= x.subrange(i, j));
            assert(c.subrange(q.len() + i, q.len() + j) =~= x.subrange(i, j));
        }
        assert(x.subrange(k + 4, k + 8) == x.subrange(k + 4, k + 8));
        let size = u32_field(x, k + 4);
        assert(u32_field(a, o + 4) == size);
        assert(u32_field(c, o2 + 4) == size);
        let end = k + 8 + size;
        if end <= x.len() {
            assert(x.subrange(k, k + 4) == x.subrange(k, k + 4));
            assert(x.subrange(k + 8, end) == x.subrange(k + 8, end));
            if k + 8 + 16 <= end {
                assert(x.subrange(k + 12, k + 16) == x.subrange(k + 12, k + 16));
            }
            let next = if size % 2 == 1 {
                end + 1
            } else {
                end
            };
            lemma_chunks_shift(p, q, x, next);
        }
    }
}

/// A chunk inside the buffer whose tag is neither `fmt ` nor `data` is
/// skipped: the scan finds from it exactly what it finds from the next
/// chunk on.
pub proof fn law_unknown_chunk_skipped(b: Seq<u8>, offset: int)
    requires
        0 <= offset,
        offset + 8 <= b.len(),
        offset + 8 + u32_field(b, offset + 4) <= b.len(),
        !tag_at(b, offset, fmt_tag()),
        !tag_at(b, offset, data_tag()),
    ensures
        chunks_from(b, offset) == chunks_from(
            b,
            offset + 8 + u32_field(b, offset + 4) + u32_field(b, offset + 4) % 2,
        ),
{
}

/// Parsing skips every chunk it does not read: inserting a well-formed
/// chunk with any tag but `fmt ` and `data` right after the RIFF/WAVE
/// header, ahead of the file's chunks, leaves what parsing gives unchanged,
/// format and samples or refusal alike.
pub proof fn law_unknown_chunk_inserted(head: Seq<u8>, tag: Seq<u8>, body: Seq<u8>, rest: Seq<u8>)
    requires
        head.len() == 12,
        tag.len() == 4,
        tag != fmt_tag(),
        tag != data_tag(),
        body.len() <= u32::MAX,
        head.len() + rest.len() >= 44,
    ensures
        wav_parse(head + chunk_bytes(tag, body) + rest) == wav_parse(head + rest),
{
    let c = chunk_bytes(tag, body);
    let b1 = head + c + rest;
    let b0 = head + rest;
    crate::pod::lemma_le32_roundtrip(body.len() as u32);
    assert(b1.subrange(0, 4) =~= b0.subrange(0, 4));
    assert(b1.subrange(8, 12) =~= b0.subrange(8, 12));
    assert(b1.subrange(12, 16) =~= tag);
    assert(b1.subrange(16, 20) =~= crate::pod::le32(body.len() as u32));
    assert(u32_field(b1, 16) == body.len());
    law_unknown_chunk_skipped(b1, 12);
    assert(b1 =~= (head + c) + rest);
    lemma_chunks_shift(head + c, head, rest, 0);
}

/// A 16-bit value as two little-endian bytes.
pub open spec fn le16(x: u16) -> Seq<u8> {
    seq![(x % 256) as u8, (x / 256) as u8]
}

/// The 16-byte body of a PCM `fmt ` chunk for `f`, whose byte rate field
/// is `byte_rate`.
pub open spec fn pcm_fmt_body(f: WavFormat, byte_rate: u32) -> Seq<u8> {
    le16(1) + le16(f.channels) + crate::pod::le32(f.sample_rate) + crate::pod::le32(byte_rate) + le16(
        f.block_align,
    ) + le16(f.bits_per_sample)
}

/// A canonical PCM WAV file: the RIFF/WAVE header with any declared size,
/// a `fmt ` chunk for `f`, then a `data` chunk holding `samples`.
pub open spec fn canonical_wav(riff_size: u32, f: WavFormat, byte_rate: u32, samples: Seq<u8>) -> Seq<u8> {
    riff_tag() + crate::pod::le32(riff_size) + wave_tag() + chunk_bytes(fmt_tag(), pcm_fmt_body(f, byte_rate))
        + chunk_bytes(data_tag(), samples)
}

proof fn lemma_le16(b: Seq<u8>, off: int, x: u16)
    requires
        0 <= off,
        off + 2 <= b.len(),
        b.subrange(off, off + 2) == le16(x),
    ensures
        u16_field(b, off) == x,
{
    assert(b[off] == le16(x)[0]);
    assert(b[off + 1] == le16(x)[1]);
}

/// Parsing reads back what a canonical file writes: the format of its
/// `fmt ` chunk, field for field, and exactly the samples of its `data`
/// chunk.
pub proof fn law_canonical_wav_round_trip(riff_size: u32, f: WavFormat, byte_rate: u32, samples: Seq<u8>)
    requires
        samples.len() + 44 <= u32::MAX,
    ensures
        wav_parse(canonical_wav(riff_size, f, byte_rate, samples)) == Ok::<(WavFormat, Seq<u8>), WavError>(
            (f, samples),
        ),
{
    let body = pcm_fmt_body(f, byte_rate);
    let b = canonical_wav(riff_size, f, byte_rate, samples);
    crate::pod::lemma_le32_roundtrip(riff_size);
    crate::pod::lemma_le32_roundtrip(16);
    crate::pod::lemma_le32_roundtrip(f.sample_rate);
    crate::pod::lemma_le32_roundtrip(byte_rate);
    crate::pod::lemma_le32_roundtrip(samples.len() as u32);
    assert(body.len() == 16);
    let fc = chunk_bytes(fmt_tag(), body);
    let dc = chunk_bytes(data_tag(), samples);
    assert(fc =~= fmt_tag() + crate::pod::le32(16) + body);
    let pad: int = if samples.len() % 2 == 1 { 1 } else { 0 };
    assert(b.len() == 44 + samples.len() + pad);
    assert(b.subrange(0, 4) =~= riff_tag());
    assert(b.subrange(8, 12) =~= wave_tag());
    assert(b.subrange(12, 16) =~= fmt_tag());
    assert(b.subrange(16, 20) =~= crate::pod::le32(16));
    assert(b.subrange(20, 36) =~= body);
    assert(b.subrange(20, 22) =~= le16(1));
    lemma_le16(b, 20, 1);
    assert(b.subrange(22, 24) =~= le16(f.channels));
    lemma_le16(b, 22, f.channels);
    assert(b.subrange(24, 28) =~= crate::pod::le32(f.sample_rate));
    assert(b.subrange(32, 34) =~= le16(f.block_align));
    lemma_le16(b, 32, f.block_align);
    assert(b.subrange(34, 36) =~= le16(f.bits_per_sample));
    lemma_le16(b, 34, f.bits_per_sample);
    assert(format_at(b, 20) == f);
    assert(b.subrange(36, 40) =~= data_tag());
    assert(b.subrange(40, 44) =~= crate::pod::le32(samples.len() as u32));
    assert(b.subrange(44, 44 + samples.len() as int) =~= samples);
    assert(!tag_at(b, 12, data_tag())) by {
        assert(b.subrange(12, 16)[0] == 0x66u8);
    }
    assert(!tag_at(b, 36, fmt_tag())) by {
        assert(b.subrange(36, 40)[0] == 0x64u8);
    }
    let next = 44 + samples.len() + pad;
    assert(chunks_from(b, next) == Ok::<(Option<WavFormat>, Option<Seq<u8>>), WavError>((None, None)));
    assert(chunks_from(b, 36) == Ok::<(Option<WavFormat>, Option<Seq<u8>>), WavError>(
        (None, Some(samples)),
    ));
    assert(chunks_from(b, 12) == Ok::<(Option<WavFormat>, Option<Seq<u8>>), WavError>(
        (Some(f), Some(samples)),
    ));
}

} // verus!
