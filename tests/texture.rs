use cars_pak::dispatch::{payload_kind, PayloadKind};
use cars_pak::texture::{convert_image, decode_image, BlockFormat, TextureError, TextureLayout};

fn u32s(words: &[u32]) -> Vec<u8> {
    words.iter().flat_map(|w| w.to_le_bytes()).collect()
}

const WHITE_BC1: [u8; 8] = [0xff, 0xff, 0x00, 0x00, 0, 0, 0, 0];

#[test]
fn one_bc1_record_decodes_to_four_by_four() {
    let mut payload = u32s(&[0, 38, 0, 1, 4, 4, 4, 4, 8]);
    payload.extend_from_slice(&WHITE_BC1);
    let images = convert_image(&payload, TextureLayout::Multi).unwrap();
    assert_eq!(images.len(), 1);
    let image = images[0].as_ref().unwrap();
    assert_eq!((image.width, image.height), (4, 4));
    assert_eq!(image.rgba.len(), 4 * 4 * 4);
    assert!(image.rgba.iter().all(|&b| b == 255));
    assert_eq!(image.name_suffix, None);
}

#[test]
fn single_record_layout() {
    let mut payload = u32s(&[0, 38, 0, 0, 4, 4, 4, 4, 8]);
    payload.extend_from_slice(&WHITE_BC1);
    let images = convert_image(&payload, TextureLayout::Single).unwrap();
    assert_eq!(images.len(), 1);
    let image = images[0].as_ref().unwrap();
    assert_eq!((image.width, image.height), (4, 4));
    assert_eq!(image.rgba, vec![255; 64]);
}

#[test]
fn disagreeing_sizes_skip_the_image() {
    let mut payload = u32s(&[0, 38, 0, 0, 4, 4, 8, 4, 8]);
    payload.extend_from_slice(&WHITE_BC1);
    let images = convert_image(&payload, TextureLayout::Single).unwrap();
    assert_eq!(images.len(), 1);
    assert_eq!(
        images[0].as_ref().unwrap_err(),
        &TextureError::InvalidDimensions { width: 4, height: 4 }
    );
}

#[test]
fn several_images_carry_their_width() {
    let mut payload = u32s(&[0, 54, 0, 3, 8, 4]);
    payload.extend(u32s(&[8, 4, 32]));
    payload.extend(vec![0u8; 32]);
    payload.extend(u32s(&[4, 4, 2]));
    payload.extend(vec![0u8; 2]);
    payload.extend(u32s(&[4, 4, 16]));
    payload.extend(vec![0u8; 16]);
    let images = convert_image(&payload, TextureLayout::Multi).unwrap();
    assert_eq!(images.len(), 3);
    let first = images[0].as_ref().unwrap();
    assert_eq!(first.name_suffix, Some(8));
    assert_eq!(first.rgba.len(), 8 * 4 * 4);
    assert_eq!(
        images[1].as_ref().unwrap_err(),
        &TextureError::InvalidDimensions { width: 4, height: 4 }
    );
    assert_eq!(images[2].as_ref().unwrap().name_suffix, Some(4));
}

#[test]
fn unknown_flags_are_refused() {
    let payload = u32s(&[0, 7, 0, 1, 4, 4, 4, 4, 8, 0, 0]);
    assert_eq!(convert_image(&payload, TextureLayout::Multi).unwrap_err(), TextureError::UnsupportedCodec(7));
    assert_eq!(convert_image(&payload, TextureLayout::Single).unwrap_err(), TextureError::UnsupportedCodec(7));
}

#[test]
fn short_payloads_are_truncated() {
    assert_eq!(convert_image(&[0, 0, 0], TextureLayout::Multi).unwrap_err(), TextureError::Truncated);
    let payload = u32s(&[0, 38, 0, 1, 4, 4, 4, 4, 8]);
    assert_eq!(convert_image(&payload, TextureLayout::Multi).unwrap_err(), TextureError::Truncated);
    assert_eq!(convert_image(&payload, TextureLayout::Single).unwrap_err(), TextureError::Truncated);
    assert_eq!(convert_image(&payload[..20], TextureLayout::Multi).unwrap_err(), TextureError::Truncated);
}

#[test]
fn image_sizes_are_checked() {
    assert_eq!(
        decode_image(BlockFormat::Bc1, 0, 4, &WHITE_BC1, None).unwrap_err(),
        TextureError::InvalidDimensions { width: 0, height: 4 }
    );
    assert_eq!(
        decode_image(BlockFormat::Bc3, 4, 4, &WHITE_BC1, None).unwrap_err(),
        TextureError::InvalidDimensions { width: 4, height: 4 }
    );
    let odd = decode_image(BlockFormat::Bc1, 3, 2, &WHITE_BC1, None).unwrap();
    assert_eq!(odd.rgba, vec![255; 3 * 2 * 4]);
}

#[test]
fn extensions_pick_the_transcoder() {
    assert_eq!(payload_kind(b"tex/car.dxt"), PayloadKind::Texture);
    assert_eq!(payload_kind(b"snd/horn.wav"), PayloadKind::Audio);
    assert_eq!(payload_kind(b"snd/.wav"), PayloadKind::Plain);
    assert_eq!(payload_kind(b"a.WAV"), PayloadKind::Plain);
    assert_eq!(payload_kind(b"wav"), PayloadKind::Plain);
    assert_eq!(payload_kind(b"x.wav.txt"), PayloadKind::Plain);
}
