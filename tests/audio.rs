use cars_pak::adpcm::{
    convert_adpcm_to_wav, convert_wav_to_adpcm, decode_samples, encode_samples, AudioError,
};
use cars_pak::dispatch::{packed_audio, unpacked_audio};
use cars_pak::riff::Riff;

fn header(format: u16, channels: u16) -> Riff {
    Riff {
        chunk_size: 16,
        format,
        channels,
        sample_rate: 22050,
        byte_rate: 44100,
        block_align: 2,
        bits_per_sample: 16,
    }
}

#[test]
fn decodes_known_codes() {
    assert_eq!(decode_samples(&[0x70], 1).unwrap(), vec![11, 13]);
    assert_eq!(decode_samples(&[0x70], 2).unwrap(), vec![11, 0]);
    assert_eq!(decode_samples(&[0x00, 0x00], 1).unwrap(), vec![0, 0, 0, 0]);
    assert_eq!(decode_samples(&[0x0f], 2).unwrap(), vec![0, -11]);
    assert_eq!(decode_samples(&[], 1).unwrap(), Vec::<i16>::new());
}

#[test]
fn encodes_known_samples() {
    assert_eq!(encode_samples(&vec![11, 13], 1).unwrap(), vec![0x70]);
    assert_eq!(encode_samples(&vec![11, 0], 2).unwrap(), vec![0x70]);
    assert_eq!(encode_samples(&vec![11, 13, 5], 1).unwrap(), vec![0x70]);
}

#[test]
fn decode_of_encode_matches_samples() {
    let samples: Vec<i16> = vec![0, 100, 250, 300, 120, -40, -500, -600, 0, 30];
    for channels in [1u16, 2] {
        let bytes = encode_samples(&samples, channels).unwrap();
        assert_eq!(bytes.len(), samples.len() / 2);
        let back = decode_samples(&bytes, channels).unwrap();
        assert_eq!(back.len(), samples.len());
        let again = encode_samples(&back, channels).unwrap();
        assert_eq!(again, bytes);
        let stream: Vec<u8> = (0..=255u8).collect();
        let decoded = decode_samples(&stream, channels).unwrap();
        assert_eq!(decoded.len(), 512);
    }
}

#[test]
fn odd_channel_counts_are_refused() {
    assert_eq!(decode_samples(&[1, 2], 3).unwrap_err(), AudioError::UnsupportedChannelLayout(3));
    assert_eq!(decode_samples(&[], 0).unwrap_err(), AudioError::UnsupportedChannelLayout(0));
    assert_eq!(encode_samples(&vec![1, 2], 6).unwrap_err(), AudioError::UnsupportedChannelLayout(6));
}

#[test]
fn riff_round_trip() {
    let h = header(2, 1);
    let bytes = h.as_bytes(vec![1, 2, 3]);
    assert_eq!(bytes.len(), 51);
    assert_eq!(&bytes[0..4], b"RIFF");
    assert_eq!(&bytes[4..8], &[43, 0, 0, 0]);
    assert_eq!(&bytes[8..16], b"WAVEfmt ");
    assert_eq!(&bytes[36..40], &[0, 0, 0x40, 0]);
    assert_eq!(&bytes[40..44], b"data");
    assert_eq!(&bytes[44..48], &[3, 0, 0, 0]);
    let (back, off) = Riff::new(&bytes).unwrap();
    assert_eq!(back, h);
    assert_eq!(off, 48);
    assert_eq!(&bytes[off..], &[1, 2, 3]);
}

#[test]
fn riff_with_data_right_after_format() {
    let mut bytes = header(1, 2).as_bytes(vec![]);
    bytes.drain(36..40);
    let (h, off) = Riff::new(&bytes).unwrap();
    assert_eq!(h, header(1, 2));
    assert_eq!(off, 44);
    assert!(Riff::new(&bytes[..39]).is_none());
}

#[test]
fn adpcm_to_wav_and_back() {
    let adpcm = header(2, 1).as_bytes(vec![0x70]);
    let wav = convert_adpcm_to_wav(&adpcm).unwrap();
    let mut expected_header = header(2, 1);
    expected_header.format = 1;
    assert_eq!(wav, expected_header.as_bytes(vec![11, 0, 13, 0]));
    assert_eq!(convert_wav_to_adpcm(&wav).unwrap(), adpcm);
}

#[test]
fn wrong_format_tag_is_refused() {
    let pcm = header(1, 1).as_bytes(vec![5, 6, 7, 8]);
    assert_eq!(convert_adpcm_to_wav(&pcm).unwrap_err(), AudioError::UnsupportedFormatTag(1));
    let adpcm = header(2, 1).as_bytes(vec![5, 6]);
    assert_eq!(convert_wav_to_adpcm(&adpcm).unwrap_err(), AudioError::UnsupportedFormatTag(2));
    assert_eq!(convert_adpcm_to_wav(&[0; 10]).unwrap_err(), AudioError::TruncatedHeader);
    let stereo3 = header(2, 3).as_bytes(vec![5, 6]);
    assert_eq!(convert_adpcm_to_wav(&stereo3).unwrap_err(), AudioError::UnsupportedChannelLayout(3));
}

#[test]
fn refused_audio_passes_through_unchanged() {
    let pcm = header(1, 1).as_bytes(vec![5, 6, 7, 8]);
    assert_eq!(unpacked_audio(&pcm), pcm);
    let not_audio = b"just text, not a wave".to_vec();
    assert_eq!(unpacked_audio(&not_audio), not_audio);
    let adpcm = header(2, 1).as_bytes(vec![0x70]);
    assert_eq!(packed_audio(&adpcm), adpcm);
    let converted = unpacked_audio(&adpcm);
    assert_ne!(converted, adpcm);
    assert_eq!(packed_audio(&converted), adpcm);
}

#[test]
fn negative_zero_code_reencodes_as_zero() {
    // From the initial state the code 8 decodes to no change at all, which
    // the encoder writes as code 0: re-encoding is not always bit-exact.
    let samples = decode_samples(&[0x80], 1).unwrap();
    assert_eq!(samples, vec![0, 0]);
    assert_eq!(encode_samples(&samples, 1).unwrap(), vec![0x00]);
}
