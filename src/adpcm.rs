//! IMA-ADPCM audio: two 4-bit codes per byte, the first in the high nibble.
//! A mono stream runs both codes of a byte through one channel state; a
//! stereo stream gives the high nibble to the first channel and the low
//! nibble to the second.

use vstd::prelude::*;

use crate::bytes::{le16, push_u16, read_u16, u16_at};
use crate::riff::{samples_spec, header_spec, wav_bytes, Riff, FORMAT_ADPCM, FORMAT_PCM};

verus! {

/// The running predictor and step index of one channel.
#[derive(Debug, Clone, Copy, PartialEq, Eq, Structural)]
pub struct ChannelState {
    pub predictor: i16,
    pub step_index: u8,
}

impl ChannelState {
    /// The state a stream starts from: both values zero.
    pub fn new() -> (r: ChannelState)
        ensures
            r == initial_state(),
    {
        ChannelState { predictor: 0, step_index: 0 }
    }
}

/// Both values zero.
pub open spec fn initial_state() -> ChannelState {
    ChannelState { predictor: 0, step_index: 0 }
}

/// The predictor and step index after `audio_codec_algorithms::decode_adpcm_ima`
/// decodes `nibble` from the given state. The decoded sample is the new
/// predictor.
pub uninterp spec fn ima_decode(predictor: i16, step_index: u8, nibble: u8) -> (i16, u8);

/// The code that `audio_codec_algorithms::encode_adpcm_ima` gives `sample`
/// from the given state.
pub uninterp spec fn ima_encode(predictor: i16, step_index: u8, sample: i16) -> u8;

/// The state after decoding `nibble` from `s`.
pub open spec fn decode_step(s: ChannelState, nibble: u8) -> ChannelState {
    ChannelState {
        predictor: ima_decode(s.predictor, s.step_index, nibble).0,
        step_index: ima_decode(s.predictor, s.step_index, nibble).1,
    }
}

/// The code for `sample` from `s`: the encoder's result, which holds no
/// more than four bits.
pub open spec fn encode_code(s: ChannelState, sample: i16) -> u8 {
    (ima_encode(s.predictor, s.step_index, sample) % 16) as u8
}

/// Relies on `audio_codec_algorithms::decode_adpcm_ima`: decodes one code,
/// moves the channel to its next state, and returns the new predictor as the
/// sample.
#[verifier::external_body]
fn decode_nibble(nibble: u8, state: &mut ChannelState) -> (r: i16)
    ensures
        final(state).predictor == ima_decode(old(state).predictor, old(state).step_index, nibble).0,
        final(state).step_index == ima_decode(old(state).predictor, old(state).step_index, nibble).1,
        r == ima_decode(old(state).predictor, old(state).step_index, nibble).0,
{
    let mut s = audio_codec_algorithms::AdpcmImaState {
        predictor: state.predictor,
        step_index: state.step_index,
    };
    let r = audio_codec_algorithms::decode_adpcm_ima(nibble, &mut s);
    state.predictor = s.predictor;
    state.step_index = s.step_index;
    r
}

/// Relies on `audio_codec_algorithms::encode_adpcm_ima`: returns a 4-bit
/// code, and moves the channel to the state that decoding that code gives
/// (the encoder updates predictor and step index by the decoder's own rule).
#[verifier::external_body]
fn encode_sample(sample: i16, state: &mut ChannelState) -> (r: u8)
    ensures
        r == ima_encode(old(state).predictor, old(state).step_index, sample),
        r < 16,
        final(state).predictor == ima_decode(old(state).predictor, old(state).step_index, r).0,
        final(state).step_index == ima_decode(old(state).predictor, old(state).step_index, r).1,
{
    let mut s = audio_codec_algorithms::AdpcmImaState {
        predictor: state.predictor,
        step_index: state.step_index,
    };
    let r = audio_codec_algorithms::encode_adpcm_ima(sample, &mut s);
    state.predictor = s.predictor;
    state.step_index = s.step_index;
    r
}

/// A stream decoder part way through: the samples so far and both channels.
pub struct DecodeRun {
    pub samples: Seq<i16>,
    pub first: ChannelState,
    pub second: ChannelState,
}

/// Decoding `data` from the initial state.
pub open spec fn decode_run(data: Seq<u8>, stereo: bool) -> DecodeRun
    decreases data.len(),
{
    if data.len() == 0 {
        DecodeRun { samples: Seq::empty(), first: initial_state(), second: initial_state() }
    } else {
        let prev = decode_run(data.drop_last(), stereo);
        let b = data.last();
        let a = decode_step(prev.first, b >> 4u8);
        if stereo {
            let c = decode_step(prev.second, b & 0xfu8);
            DecodeRun {
                samples: prev.samples + seq![a.predictor, c.predictor],
                first: a,
                second: c,
            }
        } else {
            let c = decode_step(a, b & 0xfu8);
            DecodeRun {
                samples: prev.samples + seq![a.predictor, c.predictor],
                first: c,
                second: prev.second,
            }
        }
    }
}

/// A stream encoder part way through: the bytes so far, the samples that a
/// decoder will rebuild from them, and both channels.
pub struct EncodeRun {
    pub bytes: Seq<u8>,
    pub rebuilt: Seq<i16>,
    pub first: ChannelState,
    pub second: ChannelState,
}

/// Encoding the first `k` pairs of `samples` from the initial state.
pub open spec fn encode_run(samples: Seq<i16>, stereo: bool, k: nat) -> EncodeRun
    decreases k,
{
    if k == 0 {
        EncodeRun {
            bytes: Seq::empty(),
            rebuilt: Seq::empty(),
            first: initial_state(),
            second: initial_state(),
        }
    } else {
        let prev = encode_run(samples, stereo, (k - 1) as nat);
        let x = samples[2 * k - 2];
        let y = samples[2 * k - 1];
        let hi = encode_code(prev.first, x);
        let a = decode_step(prev.first, hi);
        let (lo, c) = if stereo {
            let lo = encode_code(prev.second, y);
            (lo, decode_step(prev.second, lo))
        } else {
            let lo = encode_code(a, y);
            (lo, decode_step(a, lo))
        };
        EncodeRun {
            bytes: prev.bytes + seq![(hi * 16 + lo) as u8],
            rebuilt: prev.rebuilt + seq![a.predictor, c.predictor],
            first: if stereo {
                a
            } else {
                c
            },
            second: if stereo {
                c
            } else {
                prev.second
            },
        }
    }
}

/// Why an audio payload was not transcoded.
#[derive(Debug, Clone, Copy, PartialEq, Eq, Structural)]
pub enum AudioError {
    /// Too short for a WAV header.
    TruncatedHeader,
    /// The header's format tag is not the one this direction reads.
    UnsupportedFormatTag(u16),
    /// Neither one channel nor two.
    UnsupportedChannelLayout(u16),
    /// The result would not fit the header's 32-bit sizes.
    TooLarge,
}

/// Decodes an ADPCM stream of one or two channels into 16-bit samples, two
/// per byte.
pub fn decode_samples(data: &[u8], channels: u16) -> (r: Result<Vec<i16>, AudioError>)
    ensures
        r is Err <==> channels != 1 && channels != 2,
        r is Err ==> r == Err::<Vec<i16>, AudioError>(AudioError::UnsupportedChannelLayout(channels)),
        r matches Ok(s) ==> s@ == decode_run(data@, channels == 2).samples,
{
    if channels != 1 && channels != 2 {
        return Err(AudioError::UnsupportedChannelLayout(channels));
    }
    let stereo = channels == 2;
    let mut first = ChannelState::new();
    let mut second = ChannelState::new();
    let mut out: Vec<i16> = Vec::new();
    let mut i: usize = 0;
    while i < data.len()
        invariant
            i <= data@.len(),
            out@ == decode_run(data@.take(i as int), stereo).samples,
            first == decode_run(data@.take(i as int), stereo).first,
            second == decode_run(data@.take(i as int), stereo).second,
        decreases data@.len() - i,
    {
        let b = data[i];
        assert(data@.take(i + 1).drop_last() =~= data@.take(i as int));
        let hi = decode_nibble(b >> 4u8, &mut first);
        out.push(hi);
        if stereo {
            let lo = decode_nibble(b & 0xfu8, &mut second);
            out.push(lo);
        } else {
            let lo = decode_nibble(b & 0xfu8, &mut first);
            out.push(lo);
        }
        i = i + 1;
    }
    assert(data@.take(data@.len() as int) =~= data@);
    Ok(out)
}

/// Encodes 16-bit samples of one or two channels into ADPCM, a pair of
/// samples to a byte. A last sample without a partner gives no byte.
pub fn encode_samples(samples: &Vec<i16>, channels: u16) -> (r: Result<Vec<u8>, AudioError>)
    ensures
        r is Err <==> channels != 1 && channels != 2,
        r is Err ==> r == Err::<Vec<u8>, AudioError>(AudioError::UnsupportedChannelLayout(channels)),
        r matches Ok(b) ==> b@ == encode_run(
            samples@,
            channels == 2,
            (samples@.len() / 2) as nat,
        ).bytes,
{
    if channels != 1 && channels != 2 {
        return Err(AudioError::UnsupportedChannelLayout(channels));
    }
    let stereo = channels == 2;
    let mut first = ChannelState::new();
    let mut second = ChannelState::new();
    let mut out: Vec<u8> = Vec::new();
    let n = samples.len();
    let pairs = n / 2;
    let mut k: usize = 0;
    while k < pairs
        invariant
            n == samples@.len(),
            pairs == n / 2,
            k <= pairs,
            out@ == encode_run(samples@, stereo, k as nat).bytes,
            first == encode_run(samples@, stereo, k as nat).first,
            second == encode_run(samples@, stereo, k as nat).second,
        decreases pairs - k,
    {
        let hi = encode_sample(samples[2 * k], &mut first);
        let lo = if stereo {
            encode_sample(samples[2 * k + 1], &mut second)
        } else {
            encode_sample(samples[2 * k + 1], &mut first)
        };
        assert((hi << 4u8) | lo == (hi * 16 + lo) as u8) by (bit_vector)
            requires
                hi < 16,
                lo < 16,
        ;
        out.push((hi << 4u8) | lo);
        k = k + 1;
    }
    Ok(out)
}


/// The bytes of 16-bit samples, little-endian.
pub open spec fn pcm_bytes(s: Seq<i16>) -> Seq<u8>
    decreases s.len(),
{
    if s.len() == 0 {
        Seq::empty()
    } else {
        pcm_bytes(s.drop_last()) + le16(s.last() as u16)
    }
}

/// The 16-bit samples of a byte sequence; an odd last byte is dropped.
pub open spec fn pcm_samples(d: Seq<u8>) -> Seq<i16> {
    Seq::new(d.len() / 2, |i: int| u16_at(d, 2 * i) as i16)
}

/// `h` with another format tag.
pub open spec fn with_format(h: Riff, format: u16) -> Riff {
    Riff { format, ..h }
}

/// What turning an ADPCM payload into a PCM WAV file gives.
pub open spec fn adpcm_to_wav_spec(b: Seq<u8>) -> Result<Seq<u8>, AudioError> {
    let h = header_spec(b);
    let data = samples_spec(b);
    if b.len() < 40 {
        Err(AudioError::TruncatedHeader)
    } else if h.format != FORMAT_ADPCM {
        Err(AudioError::UnsupportedFormatTag(h.format))
    } else if h.channels != 1 && h.channels != 2 {
        Err(AudioError::UnsupportedChannelLayout(h.channels))
    } else if 4 * data.len() + 40 > u32::MAX {
        Err(AudioError::TooLarge)
    } else {
        Ok(
            wav_bytes(
                with_format(h, FORMAT_PCM),
                pcm_bytes(decode_run(data, h.channels == 2).samples),
            ),
        )
    }
}

/// What turning a PCM WAV file back into an ADPCM payload gives.
pub open spec fn wav_to_adpcm_spec(b: Seq<u8>) -> Result<Seq<u8>, AudioError> {
    let h = header_spec(b);
    let samples = pcm_samples(samples_spec(b));
    if b.len() < 40 {
        Err(AudioError::TruncatedHeader)
    } else if h.format != FORMAT_PCM {
        Err(AudioError::UnsupportedFormatTag(h.format))
    } else if h.channels != 1 && h.channels != 2 {
        Err(AudioError::UnsupportedChannelLayout(h.channels))
    } else if samples.len() / 2 + 40 > u32::MAX {
        Err(AudioError::TooLarge)
    } else {
        Ok(
            wav_bytes(
                with_format(h, FORMAT_ADPCM),
                encode_run(samples, h.channels == 2, (samples.len() / 2) as nat).bytes,
            ),
        )
    }
}

/// The samples of a WAV buffer, from `off` on.
fn tail(buffer: &[u8], off: usize) -> (r: Vec<u8>)
    ensures
        off <= buffer@.len() ==> r@ == buffer@.subrange(off as int, buffer@.len() as int),
        off > buffer@.len() ==> r@.len() == 0,
{
    let mut r: Vec<u8> = Vec::new();
    if off > buffer.len() {
        return r;
    }
    let mut j: usize = off;
    while j < buffer.len()
        invariant
            off <= j <= buffer@.len(),
            r@ == buffer@.subrange(off as int, j as int),
        decreases buffer@.len() - j,
    {
        r.push(buffer[j]);
        j = j + 1;
        assert(r@ =~= buffer@.subrange(off as int, j as int));
    }
    r
}

/// The little-endian bytes of `samples`.
fn to_pcm_bytes(samples: &Vec<i16>) -> (r: Vec<u8>)
    ensures
        r@ == pcm_bytes(samples@),
{
    let mut r: Vec<u8> = Vec::new();
    let mut i: usize = 0;
    while i < samples.len()
        invariant
            i <= samples@.len(),
            r@ == pcm_bytes(samples@.take(i as int)),
        decreases samples@.len() - i,
    {
        assert(samples@.take(i + 1).drop_last() =~= samples@.take(i as int));
        push_u16(&mut r, #[verifier::truncate] (samples[i] as u16));
        i = i + 1;
    }
    assert(samples@.take(samples@.len() as int) =~= samples@);
    r
}

/// The 16-bit samples in `data`.
fn from_pcm_bytes(data: &Vec<u8>) -> (r: Vec<i16>)
    ensures
        r@ == pcm_samples(data@),
{
    let mut r: Vec<i16> = Vec::new();
    let len = data.len();
    let n = len / 2;
    let mut i: usize = 0;
    while i < n
        invariant
            len == data@.len(),
            n == len / 2,
            i <= n,
            r@ == pcm_samples(data@).take(i as int),
        decreases n - i,
    {
        let v = #[verifier::truncate] (read_u16(data.as_slice(), 2 * i) as i16);
        r.push(v);
        i = i + 1;
        assert(r@ =~= pcm_samples(data@).take(i as int));
    }
    assert(pcm_samples(data@).take(n as int) =~= pcm_samples(data@));
    r
}

/// Turns an ADPCM WAV payload into a PCM WAV file: the header with the PCM
/// tag, and the decoded samples.
pub fn convert_adpcm_to_wav(buffer: &[u8]) -> (r: Result<Vec<u8>, AudioError>)
    ensures
        match adpcm_to_wav_spec(buffer@) {
            Ok(w) => r matches Ok(v) && v@ == w,
            Err(e) => r == Err::<Vec<u8>, AudioError>(e),
        },
{
    let (mut riff, off) = match Riff::new(buffer) {
        None => {
            return Err(AudioError::TruncatedHeader);
        },
        Some(p) => p,
    };
    if riff.format != FORMAT_ADPCM {
        return Err(AudioError::UnsupportedFormatTag(riff.format));
    }
    if riff.channels != 1 && riff.channels != 2 {
        return Err(AudioError::UnsupportedChannelLayout(riff.channels));
    }
    let data = tail(buffer, off);
    if data.len() > (u32::MAX as usize - 40) / 4 {
        return Err(AudioError::TooLarge);
    }
    let samples = match decode_samples(data.as_slice(), riff.channels) {
        Ok(s) => s,
        Err(e) => {
            return Err(e);
        },
    };
    let pcm = to_pcm_bytes(&samples);
    proof {
        lemma_pcm_bytes_len(samples@);
        lemma_decode_run_len(data@, riff.channels == 2);
    }
    riff.format = FORMAT_PCM;
    Ok(riff.as_bytes(pcm))
}

/// Turns a PCM WAV file into an ADPCM payload: the header with the ADPCM
/// tag, and the encoded samples.
pub fn convert_wav_to_adpcm(buffer: &[u8]) -> (r: Result<Vec<u8>, AudioError>)
    ensures
        match wav_to_adpcm_spec(buffer@) {
            Ok(w) => r matches Ok(v) && v@ == w,
            Err(e) => r == Err::<Vec<u8>, AudioError>(e),
        },
{
    let (mut riff, off) = match Riff::new(buffer) {
        None => {
            return Err(AudioError::TruncatedHeader);
        },
        Some(p) => p,
    };
    if riff.format != FORMAT_PCM {
        return Err(AudioError::UnsupportedFormatTag(riff.format));
    }
    if riff.channels != 1 && riff.channels != 2 {
        return Err(AudioError::UnsupportedChannelLayout(riff.channels));
    }
    let data = tail(buffer, off);
    let samples = from_pcm_bytes(&data);
    if samples.len() / 2 > u32::MAX as usize - 40 {
        return Err(AudioError::TooLarge);
    }
    let encoded = match encode_samples(&samples, riff.channels) {
        Ok(b) => b,
        Err(e) => {
            return Err(e);
        },
    };
    proof {
        lemma_encode_run_len(samples@, riff.channels == 2, (samples@.len() / 2) as nat);
    }
    riff.format = FORMAT_ADPCM;
    Ok(riff.as_bytes(encoded))
}

pub proof fn lemma_pcm_bytes_len(s: Seq<i16>)
    ensures
        pcm_bytes(s).len() == 2 * s.len(),
    decreases s.len(),
{
    if s.len() > 0 {
        lemma_pcm_bytes_len(s.drop_last());
    }
}

pub proof fn lemma_decode_run_len(data: Seq<u8>, stereo: bool)
    ensures
        decode_run(data, stereo).samples.len() == 2 * data.len(),
    decreases data.len(),
{
    if data.len() > 0 {
        lemma_decode_run_len(data.drop_last(), stereo);
    }
}

pub proof fn lemma_encode_run_len(samples: Seq<i16>, stereo: bool, k: nat)
    ensures
        encode_run(samples, stereo, k).bytes.len() == k,
        encode_run(samples, stereo, k).rebuilt.len() == 2 * k,
    decreases k,
{
    if k > 0 {
        lemma_encode_run_len(samples, stereo, (k - 1) as nat);
    }
}

/// Decoding what the encoder wrote rebuilds, sample for sample, the encoder's
/// own reconstruction of its input (its predictor after each sample): the
/// decoder passes through the same channel states as the encoder did.
pub proof fn lemma_decode_of_encode(samples: Seq<i16>, stereo: bool, k: nat)
    requires
        2 * k <= samples.len(),
    ensures
        decode_run(encode_run(samples, stereo, k).bytes, stereo).samples == encode_run(
            samples,
            stereo,
            k,
        ).rebuilt,
        decode_run(encode_run(samples, stereo, k).bytes, stereo).first == encode_run(
            samples,
            stereo,
            k,
        ).first,
        decode_run(encode_run(samples, stereo, k).bytes, stereo).second == encode_run(
            samples,
            stereo,
            k,
        ).second,
    decreases k,
{
    if k > 0 {
        let prev = encode_run(samples, stereo, (k - 1) as nat);
        lemma_decode_of_encode(samples, stereo, (k - 1) as nat);
        let cur = encode_run(samples, stereo, k);
        assert(cur.bytes.drop_last() =~= prev.bytes);
        let hi = encode_code(prev.first, samples[2 * k - 2]);
        let a = decode_step(prev.first, hi);
        let lo = if stereo {
            encode_code(prev.second, samples[2 * k - 1])
        } else {
            encode_code(a, samples[2 * k - 1])
        };
        let b = (hi * 16 + lo) as u8;
        assert(cur.bytes.last() == b);
        assert(b >> 4u8 == hi && b & 0xfu8 == lo) by (bit_vector)
            requires
                b == (hi * 16 + lo) as u8,
                hi < 16,
                lo < 16,
        ;
    }
}

} // verus!
