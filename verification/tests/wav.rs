use pipewire_native::wav::{PlayerState, WavError, WavErrorKind, WavFile};

fn make_wav(channels: u16, sample_rate: u32, bits: u16, samples: &[u8]) -> Vec<u8> {
    let data_size = samples.len() as u32;
    let fmt_size = 16u32;
    let file_size = 4 + (8 + fmt_size) + (8 + data_size);

    let mut buf = Vec::new();
    buf.extend_from_slice(b"RIFF");
    buf.extend_from_slice(&file_size.to_le_bytes());
    buf.extend_from_slice(b"WAVE");

    buf.extend_from_slice(b"fmt ");
    buf.extend_from_slice(&fmt_size.to_le_bytes());
    buf.extend_from_slice(&1u16.to_le_bytes());
    buf.extend_from_slice(&channels.to_le_bytes());
    buf.extend_from_slice(&sample_rate.to_le_bytes());
    let byte_rate = sample_rate * channels as u32 * (bits / 8) as u32;
    buf.extend_from_slice(&byte_rate.to_le_bytes());
    let block_align = channels * (bits / 8);
    buf.extend_from_slice(&block_align.to_le_bytes());
    buf.extend_from_slice(&bits.to_le_bytes());

    buf.extend_from_slice(b"data");
    buf.extend_from_slice(&data_size.to_le_bytes());
    buf.extend_from_slice(samples);

    buf
}

#[test]
fn parse_stereo_16bit() {
    let samples: &[u8] = &[0x01, 0x00, 0x02, 0x00, 0x03, 0x00, 0x04, 0x00];
    let wav_buf = make_wav(2, 44100, 16, samples);
    let wav = WavFile::parse(&wav_buf).unwrap();

    assert_eq!(wav.format.channels, 2);
    assert_eq!(wav.format.sample_rate, 44100);
    assert_eq!(wav.format.bits_per_sample, 16);
    assert_eq!(wav.data, samples);
    assert_eq!(wav.frame_size(), 4);
    assert_eq!(wav.num_frames(), 2);
}

#[test]
fn reject_non_pcm() {
    let mut wav_buf = make_wav(1, 44100, 16, &[0x00, 0x00]);
    wav_buf[20] = 0xFF;
    wav_buf[21] = 0xFF;
    assert!(WavFile::parse(&wav_buf).is_err());
}

#[test]
fn non_pcm_is_reported_as_unsupported() {
    let mut wav_buf = make_wav(1, 44100, 16, &[0x00, 0x00]);
    wav_buf[20] = 0x03;
    wav_buf[21] = 0x00;
    let err = WavFile::parse(&wav_buf).unwrap_err();
    assert_eq!(err, WavError::UnsupportedFormat(3));
    assert_eq!(err.kind(), WavErrorKind::Unsupported);
}

#[test]
fn short_or_foreign_containers_are_refused() {
    assert_eq!(WavFile::parse(&[0u8; 43]).unwrap_err(), WavError::TooShort);
    let mut wav_buf = make_wav(1, 8000, 8, &[1, 2]);
    wav_buf[0] = b'X';
    assert_eq!(WavFile::parse(&wav_buf).unwrap_err(), WavError::NotRiff);
    let mut wav_buf = make_wav(1, 8000, 8, &[1, 2]);
    wav_buf[8] = b'X';
    let err = WavFile::parse(&wav_buf).unwrap_err();
    assert_eq!(err, WavError::NotWave);
    assert_eq!(err.kind(), WavErrorKind::InvalidData);
}

#[test]
fn small_fmt_chunk_is_refused() {
    let mut wav_buf = make_wav(1, 8000, 8, &[1, 2]);
    wav_buf[16] = 14;
    assert_eq!(WavFile::parse(&wav_buf).unwrap_err(), WavError::FmtTooSmall);
}

#[test]
fn missing_chunks_are_reported() {
    // The data chunk renamed: only the fmt chunk is left.
    let mut wav_buf = make_wav(1, 8000, 8, &[1, 2, 3, 4, 5, 6, 7, 8]);
    wav_buf[36..40].copy_from_slice(b"junk");
    assert_eq!(WavFile::parse(&wav_buf).unwrap_err(), WavError::MissingData);
    // The fmt chunk renamed: only the data chunk is left.
    let mut wav_buf = make_wav(1, 8000, 8, &[1, 2, 3, 4, 5, 6, 7, 8]);
    wav_buf[12..16].copy_from_slice(b"junk");
    assert_eq!(WavFile::parse(&wav_buf).unwrap_err(), WavError::MissingFmt);
}

#[test]
fn truncated_data_chunk_stops_the_scan() {
    let mut wav_buf = make_wav(1, 8000, 8, &[1, 2, 3, 4, 5, 6, 7, 8]);
    // Claim more samples than the buffer holds: the chunk is not taken.
    wav_buf[40] = 200;
    assert_eq!(WavFile::parse(&wav_buf).unwrap_err(), WavError::MissingData);
}

#[test]
fn odd_chunks_are_padded_and_later_chunks_win() {
    let mut wav_buf = make_wav(1, 8000, 8, &[1, 2, 3]);
    // Pad byte after the odd data chunk, then a second data chunk.
    wav_buf.push(0);
    wav_buf.extend_from_slice(b"data");
    wav_buf.extend_from_slice(&2u32.to_le_bytes());
    wav_buf.extend_from_slice(&[9, 10]);
    let wav = WavFile::parse(&wav_buf).unwrap();
    assert_eq!(wav.data, vec![9, 10]);
    assert_eq!(wav.format.sample_rate, 8000);
    assert_eq!(wav.format.block_align, 1);
}

#[test]
fn frames_of_an_empty_format_are_none() {
    let wav = WavFile::parse(&make_wav(0, 8000, 16, &[1, 2, 3, 4])).unwrap();
    assert_eq!(wav.bytes_per_sample(), 2);
    assert_eq!(wav.frame_size(), 0);
    assert_eq!(wav.num_frames(), 0);
}

#[test]
fn read_frames_loops_over_the_samples() {
    let wav = WavFile::parse(&make_wav(1, 8000, 8, &[1, 2, 3])).unwrap();
    let mut player = PlayerState { wav, position: 2 };
    let mut buf = vec![0u8; 7];
    player.read_frames(&mut buf, 1);
    assert_eq!(buf, vec![3, 1, 2, 3, 1, 2, 3]);
    assert_eq!(player.position, (2 + 7) % 3);
}

#[test]
fn read_frames_at_the_end_starts_over() {
    let wav = WavFile::parse(&make_wav(1, 8000, 8, &[1, 2, 3])).unwrap();
    let mut player = PlayerState { wav, position: 3 };
    let mut buf = vec![0u8; 2];
    player.read_frames(&mut buf, 1);
    assert_eq!(buf, vec![1, 2]);
    assert_eq!(player.position, 2);
}

#[test]
fn read_frames_without_frames_leaves_the_buffer() {
    let wav = WavFile::parse(&make_wav(1, 8000, 8, &[1, 2, 3])).unwrap();
    let mut player = PlayerState { wav, position: 1 };
    let mut buf = vec![7u8; 4];
    player.read_frames(&mut buf, 0);
    assert_eq!(buf, vec![7, 7, 7, 7]);
    assert_eq!(player.position, 1);
}
