//! Render a captured sample stream as a WAV file: a fixed 44-byte canonical-PCM header,
//! then raw little-endian samples.

use vstd::prelude::*;
use crate::alu::{to_word, word};
use crate::bytes::{le_bytes, lemma_le_of_le_bytes, push_le};
use crate::isa::memory::{lemma_number, number};

verus! {

/// The canonical header of a mono 16-bit PCM file at `rate` samples a second with `count`
/// samples. Sizes are 32-bit, modulo 2^32.
pub open spec fn wav_header(rate: u32, count: nat) -> Seq<u8> {
    let data_len = (2 * count) % 0x1_0000_0000;
    seq![0x52u8, 0x49, 0x46, 0x46] + le_bytes((36 + data_len) % 0x1_0000_0000, 4) + seq![
        0x57u8,
        0x41,
        0x56,
        0x45,
        0x66,
        0x6d,
        0x74,
        0x20,
    ] + le_bytes(16, 4) + le_bytes(1, 2) + le_bytes(1, 2) + le_bytes(rate as nat, 4) + le_bytes(
        (2 * rate as nat) % 0x1_0000_0000,
        4,
    ) + le_bytes(2, 2) + le_bytes(16, 2) + seq![0x64u8, 0x61, 0x74, 0x61] + le_bytes(data_len, 4)
}

/// The first `n` samples, each as the two bytes of its two's complement.
pub open spec fn sample_bytes(samples: Seq<i16>, n: int) -> Seq<u8>
    decreases n,
{
    if n <= 0 {
        Seq::empty()
    } else {
        sample_bytes(samples, n - 1) + le_bytes(word(samples[n - 1] as int) as nat, 2)
    }
}

/// Encode `samples` (signed 16-bit PCM) as a canonical mono WAV byte stream at
/// `sample_rate_hz`. No samples give a valid header-only file.
pub fn encode_wav_mono_16(sample_rate_hz: u32, samples: &[i16]) -> (r: Vec<u8>)
    ensures
        r@ == wav_header(sample_rate_hz, samples@.len()) + sample_bytes(
            samples@,
            samples@.len() as int,
        ),
{
    let data_len: u64 = ((samples.len() as u128 * 2) % 0x1_0000_0000u128) as u64;
    let byte_rate: u64 = (sample_rate_hz as u64 * 2) % 0x1_0000_0000;
    let riff_len: u64 = (36 + data_len) % 0x1_0000_0000;
    let mut out: Vec<u8> = vec![0x52, 0x49, 0x46, 0x46];
    push_le(&mut out, riff_len, 4);
    let mut tags: Vec<u8> = vec![0x57, 0x41, 0x56, 0x45, 0x66, 0x6d, 0x74, 0x20];
    out.append(&mut tags);
    // The size of the format chunk, PCM, one channel.
    push_le(&mut out, 16, 4);
    push_le(&mut out, 1, 2);
    push_le(&mut out, 1, 2);
    push_le(&mut out, sample_rate_hz as u64, 4);
    push_le(&mut out, byte_rate, 4);
    // Bytes of a sample over all channels, bits of a sample.
    push_le(&mut out, 2, 2);
    push_le(&mut out, 16, 2);
    let mut data: Vec<u8> = vec![0x64, 0x61, 0x74, 0x61];
    out.append(&mut data);
    push_le(&mut out, data_len, 4);
    let ghost header = wav_header(sample_rate_hz, samples@.len());
    proof {
        assert(out@ =~= header);
        assert(out@ =~= header + sample_bytes(samples@, 0));
    }
    let mut i: usize = 0;
    while i < samples.len()
        invariant
            i <= samples@.len(),
            out@ == header + sample_bytes(samples@, i as int),
        decreases samples@.len() - i,
    {
        push_le(&mut out, to_word(samples[i] as i64), 2);
        i += 1;
        proof {
            assert(out@ =~= header + sample_bytes(samples@, i as int));
        }
    }
    out
}

/// Recover the effective sample rate (Hz) from the guest-clock `timestamps` of consecutive
/// writes, given the guest `timer_hz`: `n` writes span `n - 1` intervals over `last - first`
/// ticks, rounded to nearest. `None` if there are fewer than two writes, or if the clock did
/// not advance between them.
pub fn reconstruct_sample_rate(timestamps: &[u64], timer_hz: u64) -> (r: Option<u32>)
    ensures
        ({
            let n = timestamps@.len();
            let defined = n >= 2 && timestamps@[n - 1] > timestamps@[0];
            &&& r is Some <==> defined
            &&& defined ==> {
                let span = timestamps@[n - 1] - timestamps@[0];
                r->0 == ((n - 1) * timer_hz + span / 2) / span % 0x1_0000_0000
            }
        }),
        match rate_of(timestamps@, timer_hz) {
            Some(rate) => r is Some && r->0 == rate % 0x1_0000_0000,
            None => r is None,
        },
{
    let n: usize = timestamps.len();
    if n < 2 {
        return None;
    }
    let first: u64 = timestamps[0];
    let last: u64 = timestamps[n - 1];
    if last <= first {
        return None;
    }
    let span: u128 = (last - first) as u128;
    let intervals: u128 = (n - 1) as u128;
    proof {
        assert(0 <= intervals * timer_hz <= 0xffff_ffff_ffff_ffff * 0xffff_ffff_ffff_ffff)
            by (nonlinear_arith)
            requires
                0 <= intervals <= 0xffff_ffff_ffff_ffff,
                0 <= timer_hz <= 0xffff_ffff_ffff_ffff,
        ;
    }
    let rate: u128 = (intervals * timer_hz as u128 + span / 2) / span;
    Some((rate % 0x1_0000_0000u128) as u32)
}

/// A file is its 44-byte header and two bytes a sample.
pub proof fn law_a_file_has_two_bytes_a_sample(rate: u32, samples: Seq<i16>, n: int)
    requires
        0 <= n <= samples.len(),
    ensures
        wav_header(rate, samples.len()).len() == 44,
        sample_bytes(samples, n).len() == 2 * n,
    decreases n,
{
    let data_len = (2 * samples.len()) % 0x1_0000_0000;
    lemma_le_of_le_bytes((36 + data_len) % 0x1_0000_0000, 4);
    lemma_le_of_le_bytes(16, 4);
    lemma_le_of_le_bytes(1, 2);
    lemma_le_of_le_bytes(rate as nat, 4);
    lemma_le_of_le_bytes((2 * rate as nat) % 0x1_0000_0000, 4);
    lemma_le_of_le_bytes(2, 2);
    lemma_le_of_le_bytes(16, 2);
    lemma_le_of_le_bytes(data_len, 4);
    if n > 0 {
        law_a_file_has_two_bytes_a_sample(rate, samples, n - 1);
        lemma_le_of_le_bytes(word(samples[n - 1] as int) as nat, 2);
    }
}

/// The rate at which samples were written: the intervals between them times the clock's rate,
/// over the ticks that they took, to the nearest.
pub open spec fn rate_of(timestamps: Seq<u64>, timer_hz: u64) -> Option<int> {
    let n = timestamps.len() as int;
    if n < 2 || timestamps[n - 1] <= timestamps[0] {
        None
    } else {
        let span = timestamps[n - 1] - timestamps[0];
        Some(((n - 1) * timer_hz + span / 2) / span)
    }
}

/// A rate is the nearest to the true one: over the ticks that the samples took, it differs from
/// the clock's ticks for as many intervals by half of them at most. There is one where there are
/// two samples and time went by.
pub proof fn law_a_rate_is_the_nearest(timestamps: Seq<u64>, timer_hz: u64)
    ensures
        rate_of(timestamps, timer_hz) is Some <==> timestamps.len() >= 2 && timestamps[0]
            < timestamps.last(),
        match rate_of(timestamps, timer_hz) {
            Some(rate) => {
                let span = timestamps.last() - timestamps[0];
                let ticks = (timestamps.len() - 1) * timer_hz;
                -span <= 2 * (rate * span - ticks) <= span
            },
            None => true,
        },
{
    if let Some(rate) = rate_of(timestamps, timer_hz) {
        let span = timestamps.last() - timestamps[0];
        let ticks = (timestamps.len() - 1) * timer_hz;
        let t = ticks + span / 2;
        vstd::arithmetic::div_mod::lemma_fundamental_div_mod(t, span);
        vstd::arithmetic::div_mod::lemma_mod_bound(t, span);
        assert(span * rate == rate * span) by (nonlinear_arith);
    }
}

proof fn lemma_le(v: nat, n: nat, s: Seq<u8>, at: int)
    requires
        n == 2 || n == 4,
        n == 2 ==> v < 0x1_0000,
        n == 4 ==> v < 0x1_0000_0000,
        0 <= at,
        at + n <= s.len(),
        s.subrange(at, at + n) == le_bytes(v, n),
    ensures
        number(s, at, n as int) == v,
{
    crate::bytes::lemma_span_of_widths();
    lemma_le_of_le_bytes(v, n);
    lemma_number(s, at, n as int);
}

/// The header says that the file is a RIFF of the size that follows, a WAVE whose format is plain
/// samples, on one channel, at the rate, of two bytes and sixteen bits each, and how many bytes of
/// them there are.
#[verifier::spinoff_prover]
#[verifier::rlimit(60)]
pub proof fn law_the_header_tells_of_the_samples(rate: u32, count: nat)
    requires
        36 + 2 * count < 0x1_0000_0000,
        rate < 0x8000_0000,
    ensures
        ({
            let h = wav_header(rate, count);
            &&& h.len() == 44
            &&& h.subrange(0, 4) == seq![0x52u8, 0x49, 0x46, 0x46]
            &&& number(h, 4, 4) == 36 + 2 * count
            &&& h.subrange(8, 16) == seq![0x57u8, 0x41, 0x56, 0x45, 0x66, 0x6d, 0x74, 0x20]
            &&& number(h, 16, 4) == 16
            &&& number(h, 20, 2) == 1
            &&& number(h, 22, 2) == 1
            &&& number(h, 24, 4) == rate
            &&& number(h, 28, 4) == 2 * rate
            &&& number(h, 32, 2) == 2
            &&& number(h, 34, 2) == 16
            &&& h.subrange(36, 40) == seq![0x64u8, 0x61, 0x74, 0x61]
            &&& number(h, 40, 4) == 2 * count
        }),
{
    let h = wav_header(rate, count);
    let (size, sixteen, one) = (le_bytes(36 + 2 * count, 4), le_bytes(16, 4), le_bytes(1, 2));
    let (rate_bytes, byte_rate) = (le_bytes(rate as nat, 4), le_bytes(2 * rate as nat, 4));
    let (two, bits, data) = (le_bytes(2, 2), le_bytes(16, 2), le_bytes(2 * count, 4));
    lemma_le_of_le_bytes(36 + 2 * count, 4);
    lemma_le_of_le_bytes(16, 4);
    lemma_le_of_le_bytes(1, 2);
    lemma_le_of_le_bytes(rate as nat, 4);
    lemma_le_of_le_bytes(2 * rate as nat, 4);
    lemma_le_of_le_bytes(2, 2);
    lemma_le_of_le_bytes(16, 2);
    lemma_le_of_le_bytes(2 * count, 4);
    let riff = seq![0x52u8, 0x49, 0x46, 0x46];
    let wave = seq![0x57u8, 0x41, 0x56, 0x45, 0x66, 0x6d, 0x74, 0x20];
    let tag = seq![0x64u8, 0x61, 0x74, 0x61];
    lemma_header_parts(riff, size, wave, sixteen, one, rate_bytes, byte_rate, two, bits, tag, data);
    assert(h == riff + size + wave + sixteen + one + one + rate_bytes + byte_rate + two + bits
        + tag + data);
    lemma_le(36 + 2 * count, 4, h, 4);
    lemma_le(16, 4, h, 16);
    lemma_le(1, 2, h, 20);
    lemma_le(1, 2, h, 22);
    lemma_le(rate as nat, 4, h, 24);
    lemma_le(2 * rate as nat, 4, h, 28);
    lemma_le(2, 2, h, 32);
    lemma_le(16, 2, h, 34);
    lemma_le(2 * count, 4, h, 40);
}

proof fn lemma_header_parts(
    riff: Seq<u8>,
    size: Seq<u8>,
    wave: Seq<u8>,
    sixteen: Seq<u8>,
    one: Seq<u8>,
    rate: Seq<u8>,
    byte_rate: Seq<u8>,
    two: Seq<u8>,
    bits: Seq<u8>,
    tag: Seq<u8>,
    data: Seq<u8>,
)
    requires
        riff.len() == 4 && size.len() == 4 && wave.len() == 8 && sixteen.len() == 4,
        one.len() == 2 && rate.len() == 4 && byte_rate.len() == 4 && two.len() == 2,
        bits.len() == 2 && tag.len() == 4 && data.len() == 4,
    ensures
        ({
            let h = riff + size + wave + sixteen + one + one + rate + byte_rate + two + bits + tag
                + data;
            &&& h.len() == 44
            &&& h.subrange(0, 4) == riff
            &&& h.subrange(4, 8) == size
            &&& h.subrange(8, 16) == wave
            &&& h.subrange(16, 20) == sixteen
            &&& h.subrange(20, 22) == one
            &&& h.subrange(22, 24) == one
            &&& h.subrange(24, 28) == rate
            &&& h.subrange(28, 32) == byte_rate
            &&& h.subrange(32, 34) == two
            &&& h.subrange(34, 36) == bits
            &&& h.subrange(36, 40) == tag
            &&& h.subrange(40, 44) == data
        }),
{
    let h = riff + size + wave + sixteen + one + one + rate + byte_rate + two + bits + tag + data;
    assert(h.subrange(0, 4) =~= riff);
    assert(h.subrange(4, 8) =~= size);
    assert(h.subrange(8, 16) =~= wave);
    assert(h.subrange(16, 20) =~= sixteen);
    assert(h.subrange(20, 22) =~= one);
    assert(h.subrange(22, 24) =~= one);
    assert(h.subrange(24, 28) =~= rate);
    assert(h.subrange(28, 32) =~= byte_rate);
    assert(h.subrange(32, 34) =~= two);
    assert(h.subrange(34, 36) =~= bits);
    assert(h.subrange(36, 40) =~= tag);
    assert(h.subrange(40, 44) =~= data);
}

/// Each sample is two bytes, the low one first, in two's complement.
pub proof fn law_every_sample_is_in_the_file(samples: Seq<i16>, n: int, i: int)
    requires
        0 <= i < n <= samples.len(),
    ensures
        ({
            let b = sample_bytes(samples, n);
            &&& b.len() == 2 * n
            &&& number(b, 2 * i, 2) == if samples[i] < 0 {
                samples[i] + 0x1_0000
            } else {
                samples[i] as int
            }
        }),
    decreases n,
{
    let b = sample_bytes(samples, n);
    let rest = sample_bytes(samples, n - 1);
    let v = word(samples[n - 1] as int) as nat;
    let low = v % 0x1_0000;
    law_a_file_has_two_bytes_a_sample(0, samples, n - 1);
    lemma_le_of_le_bytes(v, 2);
    lemma_le_of_le_bytes(low, 2);
    if i < n - 1 {
        law_every_sample_is_in_the_file(samples, n - 1, i);
        assert(b[2 * i] == rest[2 * i] && b[2 * i + 1] == rest[2 * i + 1]);
        reveal_with_fuel(number, 3);
    } else {
        lemma_low_bytes(v);
        assert(b.subrange(2 * i, 2 * i + 2) =~= le_bytes(low, 2));
        lemma_le(low, 2, b, 2 * i);
    }
}

/// The low two bytes of a number are those of what it leaves.
proof fn lemma_low_bytes(v: nat)
    ensures
        le_bytes(v, 2) == le_bytes(v % 0x1_0000, 2),
{
    reveal_with_fuel(le_bytes, 3);
    assert(v % 0x1_0000 % 256 == v % 256);
    assert(v % 0x1_0000 / 256 % 256 == v / 256 % 256);
    assert(le_bytes(v, 2) =~= le_bytes(v % 0x1_0000, 2));
}

} // verus!
