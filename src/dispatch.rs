//! Which transcoder a member goes through, by its extension, and what is
//! written when a transcoder refuses it.

use vstd::prelude::*;

use crate::adpcm::{adpcm_to_wav_spec, convert_adpcm_to_wav, convert_wav_to_adpcm, wav_to_adpcm_spec};

verus! {

/// The kinds of payload that members carry.
#[derive(Debug, Clone, Copy, PartialEq, Eq, Structural)]
pub enum PayloadKind {
    /// A block-compressed texture (`.dxt`).
    Texture,
    /// A WAV-shaped audio payload (`.wav`).
    Audio,
    /// Anything else, copied as it is.
    Plain,
}

/// `name` ends in `.` and `ext`, and the dot does not open its last path
/// component.
pub open spec fn has_extension(name: Seq<u8>, ext: Seq<u8>) -> bool {
    let n = name.len() as int;
    let e = ext.len() as int;
    &&& n >= e + 2
    &&& name[n - e - 1] == 0x2eu8
    &&& name[n - e - 2] != 0x2fu8
    &&& name.subrange(n - e, n) == ext
}

/// The bytes of `dxt`.
pub open spec fn dxt() -> Seq<u8> {
    seq![0x64u8, 0x78, 0x74]
}

/// The bytes of `wav`.
pub open spec fn wav() -> Seq<u8> {
    seq![0x77u8, 0x61, 0x76]
}

/// The kind of payload a member of this name carries.
pub open spec fn kind_of(name: Seq<u8>) -> PayloadKind {
    if has_extension(name, dxt()) {
        PayloadKind::Texture
    } else if has_extension(name, wav()) {
        PayloadKind::Audio
    } else {
        PayloadKind::Plain
    }
}

/// Whether `name` ends in `.` and the three bytes `a`, `b`, `c`, with the
/// dot not opening its last path component.
fn ends_with_extension(name: &[u8], a: u8, b: u8, c: u8) -> (r: bool)
    ensures
        r == has_extension(name@, seq![a, b, c]),
{
    let n = name.len();
    if n < 5 {
        return false;
    }
    let r = name[n - 4] == 0x2eu8 && name[n - 5] != 0x2fu8 && name[n - 3] == a && name[n - 2]
        == b && name[n - 1] == c;
    assert(r ==> name@.subrange(n - 3, n as int) =~= seq![a, b, c]);
    assert(name@.subrange(n - 3, n as int) == seq![a, b, c] ==> name@.subrange(
        n - 3,
        n as int,
    )[0] == a && name@.subrange(n - 3, n as int)[1] == b && name@.subrange(n - 3, n as int)[2]
        == c);
    r
}

/// The kind of payload a member of this name carries.
pub fn payload_kind(name: &[u8]) -> (r: PayloadKind)
    ensures
        r == kind_of(name@),
{
    if ends_with_extension(name, 0x64u8, 0x78u8, 0x74u8) {
        PayloadKind::Texture
    } else if ends_with_extension(name, 0x77u8, 0x61u8, 0x76u8) {
        PayloadKind::Audio
    } else {
        PayloadKind::Plain
    }
}

/// What unpacking writes for an audio member: the PCM WAV file, or, where
/// the payload is not ADPCM audio after all, its bytes unchanged.
pub fn unpacked_audio(payload: &[u8]) -> (r: Vec<u8>)
    ensures
        match adpcm_to_wav_spec(payload@) {
            Ok(w) => r@ == w,
            Err(_) => r@ == payload@,
        },
{
    match convert_adpcm_to_wav(payload) {
        Ok(w) => w,
        Err(_) => copy_all(payload),
    }
}

/// What packing stores for an audio file: the ADPCM payload, or, where the
/// file is not PCM audio, its bytes unchanged.
pub fn packed_audio(file: &[u8]) -> (r: Vec<u8>)
    ensures
        match wav_to_adpcm_spec(file@) {
            Ok(w) => r@ == w,
            Err(_) => r@ == file@,
        },
{
    match convert_wav_to_adpcm(file) {
        Ok(w) => w,
        Err(_) => copy_all(file),
    }
}

/// A copy of `b`.
fn copy_all(b: &[u8]) -> (r: Vec<u8>)
    ensures
        r@ == b@,
{
    let mut r: Vec<u8> = Vec::new();
    let mut j: usize = 0;
    while j < b.len()
        invariant
            j <= b@.len(),
            r@ == b@.take(j as int),
        decreases b@.len() - j,
    {
        r.push(b[j]);
        j = j + 1;
        assert(r@ =~= b@.take(j as int));
    }
    assert(b@.take(b@.len() as int) =~= b@);
    r
}

} // verus!
