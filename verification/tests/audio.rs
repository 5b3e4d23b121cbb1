//! Audio: WAV files and reconstructed sample rates.

use snemu::audio::{encode_wav_mono_16, reconstruct_sample_rate};

fn u16_at(wav: &[u8], off: usize) -> u16 {
    u16::from_le_bytes(wav[off..off + 2].try_into().expect("2 bytes"))
}

fn u32_at(wav: &[u8], off: usize) -> u32 {
    u32::from_le_bytes(wav[off..off + 4].try_into().expect("4 bytes"))
}

#[test]
fn header_only_for_empty_samples_is_44_bytes() {
    assert_eq!(encode_wav_mono_16(8000, &[]).len(), 44);
}

#[test]
fn total_length_is_header_plus_two_bytes_per_sample() {
    let wav = encode_wav_mono_16(8000, &[0, 0, 0]);
    assert_eq!(wav.len(), 44 + 3 * 2);
}

#[test]
fn riff_wave_fmt_and_data_tags_are_at_the_canonical_offsets() {
    let wav = encode_wav_mono_16(8000, &[0]);
    assert_eq!(&wav[0..4], b"RIFF");
    assert_eq!(&wav[8..12], b"WAVE");
    assert_eq!(&wav[12..16], b"fmt ");
    assert_eq!(&wav[36..40], b"data");
}

#[test]
fn fmt_chunk_declares_mono_16bit_pcm() {
    let wav = encode_wav_mono_16(8000, &[]);
    assert_eq!(u32_at(&wav, 16), 16, "fmt chunk size = 16 for PCM");
    assert_eq!(u16_at(&wav, 20), 1, "audio format 1 = PCM");
    assert_eq!(u16_at(&wav, 22), 1, "1 channel = mono");
    assert_eq!(u16_at(&wav, 32), 2, "block align = channels * bytes/sample");
    assert_eq!(u16_at(&wav, 34), 16, "16 bits per sample");
}

#[test]
fn encodes_sample_rate_and_derived_byte_rate() {
    let wav = encode_wav_mono_16(44_100, &[]);
    assert_eq!(u32_at(&wav, 24), 44_100, "sample rate");
    assert_eq!(u32_at(&wav, 28), 44_100 * 2, "byte rate = rate * blockalign");
}

#[test]
fn riff_chunk_size_is_36_plus_data_length() {
    let wav = encode_wav_mono_16(8000, &[1, 2, 3, 4]);
    assert_eq!(u32_at(&wav, 4), 36 + 4 * 2);
}

#[test]
fn data_chunk_size_and_samples_are_little_endian() {
    let wav = encode_wav_mono_16(8000, &[-1, 256]);
    assert_eq!(u32_at(&wav, 40), 2 * 2, "data size = 2 samples * 2 bytes");
    assert_eq!(&wav[44..48], &[0xFF, 0xFF, 0x00, 0x01]);
}

#[test]
fn evenly_paced_writes_recover_the_source_rate() {
    let ts = [0, 500, 1000, 1500];
    assert_eq!(reconstruct_sample_rate(&ts, 4_000_000), Some(8000));
}

#[test]
fn two_writes_are_enough() {
    assert_eq!(reconstruct_sample_rate(&[0, 250], 4_000_000), Some(16_000));
}

#[test]
fn fewer_than_two_writes_has_no_rate() {
    assert!(reconstruct_sample_rate(&[], 4_000_000).is_none());
    assert!(reconstruct_sample_rate(&[42], 4_000_000).is_none());
}

#[test]
fn zero_or_non_increasing_span_has_no_rate() {
    assert!(reconstruct_sample_rate(&[10, 10], 4_000_000).is_none(), "zero span");
    assert!(reconstruct_sample_rate(&[10, 5], 4_000_000).is_none(), "goes backwards");
}

#[test]
fn rate_rounds_to_nearest() {
    assert_eq!(reconstruct_sample_rate(&[0, 3], 20), Some(7));
    assert_eq!(reconstruct_sample_rate(&[0, 4], 10), Some(3));
}
