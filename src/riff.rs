//! The few fields of a WAV header that the audio payloads carry.

use vstd::prelude::*;

use crate::bytes::{
    le16, le32, lemma_le16_len, lemma_le32_len, lemma_u16_at_le16, lemma_u32_at_le32, push_u16,
    push_u32, read_u16, read_u32, u16_at, u32_at,
};

verus! {

/// The filler word written between the format body and the data chunk.
pub const FILLER: u32 = 4194304;

/// Format tag of plain 16-bit PCM.
pub const FORMAT_PCM: u16 = 1;

/// Format tag of the ADPCM variant that the archives carry.
pub const FORMAT_ADPCM: u16 = 2;

/// A WAV header.
#[derive(Debug, Clone, Copy, PartialEq, Eq, Structural)]
pub struct Riff {
    pub chunk_size: u32,
    pub format: u16,
    pub channels: u16,
    pub sample_rate: u32,
    pub byte_rate: u32,
    pub block_align: u16,
    pub bits_per_sample: u16,
}

/// The four bytes of `data`.
pub open spec fn data_tag() -> Seq<u8> {
    seq![0x64u8, 0x61, 0x74, 0x61]
}

/// The header fields of a buffer, read at their fixed places.
pub open spec fn header_spec(b: Seq<u8>) -> Riff {
    Riff {
        chunk_size: u32_at(b, 16),
        format: u16_at(b, 20),
        channels: u16_at(b, 22),
        sample_rate: u32_at(b, 24),
        byte_rate: u32_at(b, 28),
        block_align: u16_at(b, 32),
        bits_per_sample: u16_at(b, 34),
    }
}

/// Where the samples start: right after the `data` chunk's length, which
/// follows either the format body or a four-byte filler after it.
pub open spec fn data_offset_spec(b: Seq<u8>) -> int {
    if b.subrange(36, 40) == data_tag() {
        44
    } else {
        48
    }
}

/// The samples of a buffer: everything after the data offset.
pub open spec fn samples_spec(b: Seq<u8>) -> Seq<u8> {
    if data_offset_spec(b) <= b.len() {
        b.subrange(data_offset_spec(b), b.len() as int)
    } else {
        Seq::empty()
    }
}

/// The WAV file for a header and its data.
pub open spec fn wav_bytes(h: Riff, data: Seq<u8>) -> Seq<u8> {
    seq![0x52u8, 0x49, 0x46, 0x46] + le32((data.len() + 40) as u32) + seq![
        0x57u8,
        0x41,
        0x56,
        0x45,
        0x66,
        0x6d,
        0x74,
        0x20,
    ] + le32(h.chunk_size) + le16(h.format) + le16(h.channels) + le32(h.sample_rate) + le32(
        h.byte_rate,
    ) + le16(h.block_align) + le16(h.bits_per_sample) + le32(FILLER) + data_tag() + le32(
        data.len() as u32,
    ) + data
}

impl Riff {
    /// Writes this header in front of `data`: the RIFF and format chunks, the
    /// filler word, and the data chunk.
    pub fn as_bytes(&self, data: Vec<u8>) -> (r: Vec<u8>)
        requires
            data@.len() + 40 <= u32::MAX,
        ensures
            r@ == wav_bytes(*self, data@),
    {
        let size = data.len() as u32;
        let mut bytes: Vec<u8> = Vec::new();
        bytes.push(0x52u8);
        bytes.push(0x49u8);
        bytes.push(0x46u8);
        bytes.push(0x46u8);
        push_u32(&mut bytes, size + 40);
        bytes.push(0x57u8);
        bytes.push(0x41u8);
        bytes.push(0x56u8);
        bytes.push(0x45u8);
        bytes.push(0x66u8);
        bytes.push(0x6du8);
        bytes.push(0x74u8);
        bytes.push(0x20u8);
        push_u32(&mut bytes, self.chunk_size);
        push_u16(&mut bytes, self.format);
        push_u16(&mut bytes, self.channels);
        push_u32(&mut bytes, self.sample_rate);
        push_u32(&mut bytes, self.byte_rate);
        push_u16(&mut bytes, self.block_align);
        push_u16(&mut bytes, self.bits_per_sample);
        push_u32(&mut bytes, FILLER);
        bytes.push(0x64u8);
        bytes.push(0x61u8);
        bytes.push(0x74u8);
        bytes.push(0x61u8);
        push_u32(&mut bytes, size);
        let ghost head = bytes@;
        let mut j: usize = 0;
        while j < data.len()
            invariant
                j <= data@.len(),
                bytes@ == head + data@.take(j as int),
            decreases data@.len() - j,
        {
            bytes.push(data[j]);
            j = j + 1;
            assert(bytes@ =~= head + data@.take(j as int));
        }
        assert(data@.take(data@.len() as int) =~= data@);
        assert(bytes@ =~= wav_bytes(*self, data@));
        bytes
    }

    /// Reads the header of a WAV buffer, and where its samples start. `None`
    /// when the buffer is too short to hold the header.
    pub fn new(buffer: &[u8]) -> (r: Option<(Riff, usize)>)
        ensures
            r is None <==> buffer@.len() < 40,
            r matches Some((h, off)) ==> h == header_spec(buffer@) && off == data_offset_spec(
                buffer@,
            ),
    {
        if buffer.len() < 40 {
            return None;
        }
        let h = Riff {
            chunk_size: read_u32(buffer, 16),
            format: read_u16(buffer, 20),
            channels: read_u16(buffer, 22),
            sample_rate: read_u32(buffer, 24),
            byte_rate: read_u32(buffer, 28),
            block_align: read_u16(buffer, 32),
            bits_per_sample: read_u16(buffer, 34),
        };
        let is_data = buffer[36] == 0x64u8 && buffer[37] == 0x61u8 && buffer[38] == 0x74u8
            && buffer[39] == 0x61u8;
        assert(is_data <==> buffer@.subrange(36, 40) =~= data_tag());
        let off: usize = if is_data {
            44
        } else {
            48
        };
        Some((h, off))
    }
}


/// Reading a WAV file that `as_bytes` wrote gives back its header, a data
/// offset after the filler word, and its samples.
pub proof fn lemma_header_round_trip(h: Riff, data: Seq<u8>)
    ensures
        wav_bytes(h, data).len() >= 40,
        header_spec(wav_bytes(h, data)) == h,
        data_offset_spec(wav_bytes(h, data)) == 48,
        samples_spec(wav_bytes(h, data)) == data,
{
    let w = wav_bytes(h, data);
    lemma_le32_len((data.len() + 40) as u32);
    lemma_le32_len(h.chunk_size);
    lemma_le16_len(h.format);
    lemma_le16_len(h.channels);
    lemma_le32_len(h.sample_rate);
    lemma_le32_len(h.byte_rate);
    lemma_le16_len(h.block_align);
    lemma_le16_len(h.bits_per_sample);
    lemma_le32_len(FILLER);
    lemma_le32_len(data.len() as u32);
    assert(w.len() == 48 + data.len());
    assert(w.subrange(16, 20) =~= le32(h.chunk_size));
    lemma_u32_at_le32(w, 16, h.chunk_size);
    assert(w.subrange(20, 22) =~= le16(h.format));
    lemma_u16_at_le16(w, 20, h.format);
    assert(w.subrange(22, 24) =~= le16(h.channels));
    lemma_u16_at_le16(w, 22, h.channels);
    assert(w.subrange(24, 28) =~= le32(h.sample_rate));
    lemma_u32_at_le32(w, 24, h.sample_rate);
    assert(w.subrange(28, 32) =~= le32(h.byte_rate));
    lemma_u32_at_le32(w, 28, h.byte_rate);
    assert(w.subrange(32, 34) =~= le16(h.block_align));
    lemma_u16_at_le16(w, 32, h.block_align);
    assert(w.subrange(34, 36) =~= le16(h.bits_per_sample));
    lemma_u16_at_le16(w, 34, h.bits_per_sample);
    assert(w.subrange(36, 40) =~= le32(FILLER));
    assert((FILLER & 0xff) as u8 == 0u8) by (bit_vector);
    assert(w.subrange(36, 40)[0] != data_tag()[0]);
    assert(w.subrange(48, w.len() as int) =~= data);
}

} // verus!
