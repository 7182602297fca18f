//! Block-compressed textures: a small preamble, then one or more images of
//! 4x4-pixel blocks, decoded to RGBA8 rasters.

use vstd::prelude::*;

use crate::bytes::{read_u32, u32_at};

verus! {

/// The block compression of a texture.
#[derive(Debug, Clone, Copy, PartialEq, Eq, Structural)]
pub enum BlockFormat {
    /// Four colours per block, opaque or with one-bit alpha; 8 bytes a block.
    Bc1,
    /// Colour as in `Bc1` plus interpolated alpha; 16 bytes a block.
    Bc3,
}

/// The two revisions of the texture container.
#[derive(Debug, Clone, Copy, PartialEq, Eq, Structural)]
pub enum TextureLayout {
    /// One image, whose width and height stand twice in the preamble.
    Single,
    /// An image count, then that many images, each with its own size.
    Multi,
}

/// Why a texture, or one of its images, was not decoded.
#[derive(Debug, Clone, Copy, PartialEq, Eq, Structural)]
pub enum TextureError {
    /// The flags name no block compression that is known.
    UnsupportedCodec(u32),
    /// The payload ends before a field or an image's bytes.
    Truncated,
    /// The sizes of an image disagree with each other or with its bytes.
    InvalidDimensions { width: u32, height: u32 },
}

/// One decoded image.
#[derive(Debug, Clone)]
pub struct DecodedImage {
    pub width: u32,
    pub height: u32,
    /// Four bytes a pixel, red, green, blue, alpha; rows top to bottom.
    pub rgba: Vec<u8>,
    /// Set to the width where the texture holds several images, to tell
    /// their files apart.
    pub name_suffix: Option<u32>,
}

/// The RGBA8 pixels that `texpresso::Format::decompress` makes of the
/// blocks, `Bc3` where `bc3` holds and `Bc1` otherwise.
pub uninterp spec fn bc_pixels(bc3: bool, blocks: Seq<u8>, width: usize, height: usize) -> Seq<
    u8,
>;

/// The bytes one block takes.
pub open spec fn block_len(format: BlockFormat) -> int {
    match format {
        BlockFormat::Bc1 => 8,
        BlockFormat::Bc3 => 16,
    }
}

/// The bytes the blocks of a `width` by `height` image take.
pub open spec fn blocks_len(format: BlockFormat, width: int, height: int) -> int {
    ((width + 3) / 4) * ((height + 3) / 4) * block_len(format)
}

/// Relies on `texpresso::Format::decompress`, which fills `output` with the
/// pixels of the blocks. It panics on a width of zero and on blocks too
/// short for the image, which `requires` leaves out.
#[verifier::external_body]
fn decompress(format: BlockFormat, blocks: &[u8], width: usize, height: usize, output: &mut Vec<u8>)
    requires
        width > 0,
        width * 16 <= usize::MAX,
        old(output)@.len() == width * height * 4,
        blocks@.len() >= blocks_len(format, width as int, height as int),
    ensures
        final(output)@ == bc_pixels(format == BlockFormat::Bc3, blocks@, width, height),
        final(output)@.len() == old(output)@.len(),
{
    let f = match format {
        BlockFormat::Bc1 => texpresso::Format::Bc1,
        BlockFormat::Bc3 => texpresso::Format::Bc3,
    };
    f.decompress(blocks, width, height, output.as_mut_slice());
}

/// The block compression that the flags name.
pub open spec fn format_of(flags: u32) -> Option<BlockFormat> {
    if flags == 38 {
        Some(BlockFormat::Bc1)
    } else if flags == 54 || flags == 50 {
        Some(BlockFormat::Bc3)
    } else {
        None
    }
}

/// The block compression that the flags name.
pub fn block_format(flags: u32) -> (r: Option<BlockFormat>)
    ensures
        r == format_of(flags),
{
    if flags == 38 {
        Some(BlockFormat::Bc1)
    } else if flags == 54 || flags == 50 {
        Some(BlockFormat::Bc3)
    } else {
        None
    }
}

/// An image of these sizes can be decoded from `size` bytes of blocks.
pub open spec fn dims_ok(format: BlockFormat, width: u32, height: u32, size: int) -> bool {
    &&& width > 0
    &&& height > 0
    &&& width * height * 4 <= u32::MAX
    &&& width * 16 <= usize::MAX
    &&& size >= blocks_len(format, width as int, height as int)
}

/// `r` is what decoding the blocks `data` of a `width` by `height` image gives.
pub open spec fn image_decoded(
    format: BlockFormat,
    width: u32,
    height: u32,
    data: Seq<u8>,
    suffix: Option<u32>,
    r: Result<DecodedImage, TextureError>,
) -> bool {
    if dims_ok(format, width, height, data.len() as int) {
        &&& r is Ok
        &&& r->Ok_0.width == width
        &&& r->Ok_0.height == height
        &&& r->Ok_0.rgba@ == bc_pixels(
            format == BlockFormat::Bc3,
            data,
            width as usize,
            height as usize,
        )
        &&& r->Ok_0.name_suffix == suffix
    } else {
        r == Err::<DecodedImage, TextureError>(TextureError::InvalidDimensions { width, height })
    }
}

/// Decodes the blocks of one image.
pub fn decode_image(
    format: BlockFormat,
    width: u32,
    height: u32,
    data: &[u8],
    name_suffix: Option<u32>,
) -> (r: Result<DecodedImage, TextureError>)
    ensures
        image_decoded(format, width, height, data@, name_suffix, r),
{
    if width == 0 || height == 0 {
        return Err(TextureError::InvalidDimensions { width, height });
    }
    assert(width * height <= u32::MAX * u32::MAX) by (nonlinear_arith)
        requires
            width <= u32::MAX,
            height <= u32::MAX,
    ;
    let area: u64 = width as u64 * height as u64;
    if area > u32::MAX as u64 / 4 {
        return Err(TextureError::InvalidDimensions { width, height });
    }
    if width as u64 * 16 > usize::MAX as u64 {
        return Err(TextureError::InvalidDimensions { width, height });
    }
    let bw: u128 = (width as u128 + 3) / 4;
    let bh: u128 = (height as u128 + 3) / 4;
    let unit: u128 = match format {
        BlockFormat::Bc1 => 8,
        BlockFormat::Bc3 => 16,
    };
    assert(bw * bh * unit <= 0x4000_0000 * 0x4000_0000 * 16) by (nonlinear_arith)
        requires
            bw <= 0x4000_0000,
            bh <= 0x4000_0000,
            unit <= 16,
    ;
    let blocks: u128 = bw * bh * unit;
    if (data.len() as u128) < blocks {
        return Err(TextureError::InvalidDimensions { width, height });
    }
    let n = (width * height * 4) as usize;
    let mut rgba: Vec<u8> = Vec::new();
    let mut i: usize = 0;
    while i < n
        invariant
            i <= n,
            rgba@.len() == i,
        decreases n - i,
    {
        rgba.push(0u8);
        i = i + 1;
    }
    decompress(format, data, width as usize, height as usize, &mut rgba);
    Ok(DecodedImage { width, height, rgba, name_suffix })
}


/// The flags of a texture, after its first reserved word.
pub open spec fn flags_of(b: Seq<u8>) -> u32 {
    u32_at(b, 4)
}

/// The number of images of a multi-image texture.
pub open spec fn image_count(b: Seq<u8>) -> u32 {
    u32_at(b, 12)
}

/// Where image `k` of a multi-image texture starts: after the preamble and
/// the images before it, each a width, a height, a size, and that many bytes.
pub open spec fn record_pos(b: Seq<u8>, k: nat) -> int
    decreases k,
{
    if k == 0 {
        24
    } else {
        let p = record_pos(b, (k - 1) as nat);
        p + 12 + u32_at(b, p + 8)
    }
}

/// The width of image `k`.
pub open spec fn record_width(b: Seq<u8>, k: nat) -> u32 {
    u32_at(b, record_pos(b, k))
}

/// The height of image `k`.
pub open spec fn record_height(b: Seq<u8>, k: nat) -> u32 {
    u32_at(b, record_pos(b, k) + 4)
}

/// The block bytes of image `k`.
pub open spec fn record_data(b: Seq<u8>, k: nat) -> Seq<u8> {
    let p = record_pos(b, k);
    b.subrange(p + 12, p + 12 + u32_at(b, p + 8))
}

/// The first `k` images lie inside the payload.
pub open spec fn records_fit(b: Seq<u8>, k: nat) -> bool {
    forall|j: nat| j < k ==> #[trigger] record_pos(b, j) + 12 + u32_at(b, record_pos(b, j) + 8) <= b.len()
}

/// The name suffix of an image: its width, where there are several.
pub open spec fn suffix_of(count: u32, width: u32) -> Option<u32> {
    if count > 1 {
        Some(width)
    } else {
        None
    }
}

/// `r` is what decoding a multi-image texture of this format gives.
pub open spec fn multi_decoded(
    b: Seq<u8>,
    format: BlockFormat,
    r: Result<Vec<Result<DecodedImage, TextureError>>, TextureError>,
) -> bool {
    if b.len() < 24 || !records_fit(b, image_count(b) as nat) {
        r == Err::<Vec<Result<DecodedImage, TextureError>>, TextureError>(TextureError::Truncated)
    } else {
        &&& r is Ok
        &&& r->Ok_0@.len() == image_count(b)
        &&& forall|j: nat|
            j < image_count(b) ==> image_decoded(
                format,
                record_width(b, j),
                record_height(b, j),
                record_data(b, j),
                suffix_of(image_count(b), record_width(b, j)),
                #[trigger] r->Ok_0@[j as int],
            )
    }
}

/// `r` is what decoding a single-image texture of this format gives: the
/// image is refused where its two copies of width and height disagree.
pub open spec fn single_decoded(
    b: Seq<u8>,
    format: BlockFormat,
    r: Result<Vec<Result<DecodedImage, TextureError>>, TextureError>,
) -> bool {
    let width = u32_at(b, 16);
    let height = u32_at(b, 20);
    let size = u32_at(b, 32);
    if b.len() < 36 {
        r == Err::<Vec<Result<DecodedImage, TextureError>>, TextureError>(TextureError::Truncated)
    } else if width != u32_at(b, 24) || height != u32_at(b, 28) {
        &&& r is Ok
        &&& r->Ok_0@.len() == 1
        &&& r->Ok_0@[0] == Err::<DecodedImage, TextureError>(
            TextureError::InvalidDimensions { width, height },
        )
    } else if 36 + size > b.len() {
        r == Err::<Vec<Result<DecodedImage, TextureError>>, TextureError>(TextureError::Truncated)
    } else {
        &&& r is Ok
        &&& r->Ok_0@.len() == 1
        &&& image_decoded(format, width, height, b.subrange(36, 36 + size), None, r->Ok_0@[0])
    }
}

/// `r` is what decoding the texture `b` in this layout gives.
pub open spec fn texture_decoded(
    b: Seq<u8>,
    layout: TextureLayout,
    r: Result<Vec<Result<DecodedImage, TextureError>>, TextureError>,
) -> bool {
    if b.len() < 8 {
        r == Err::<Vec<Result<DecodedImage, TextureError>>, TextureError>(TextureError::Truncated)
    } else {
        match format_of(flags_of(b)) {
            None => r == Err::<Vec<Result<DecodedImage, TextureError>>, TextureError>(
                TextureError::UnsupportedCodec(flags_of(b)),
            ),
            Some(format) => match layout {
                TextureLayout::Multi => multi_decoded(b, format, r),
                TextureLayout::Single => single_decoded(b, format, r),
            },
        }
    }
}

/// Copies `len` bytes from `at` on.
fn copy_range(b: &[u8], at: usize, len: usize) -> (r: Vec<u8>)
    requires
        at + len <= b@.len(),
    ensures
        r@ == b@.subrange(at as int, at + len),
{
    let n = b.len();
    let mut r: Vec<u8> = Vec::new();
    let mut j: usize = 0;
    while j < len
        invariant
            n == b@.len(),
            at + len <= b@.len(),
            j <= len,
            r@ == b@.subrange(at as int, at + j),
        decreases len - j,
    {
        r.push(b[at + j]);
        j = j + 1;
        assert(r@ =~= b@.subrange(at as int, at + j));
    }
    r
}

/// Decodes the images of a texture payload. The payload as a whole is
/// refused when its flags name no known block compression or when it ends
/// early; an image whose sizes do not agree is refused alone.
pub fn convert_image(buffer: &[u8], layout: TextureLayout) -> (r: Result<
    Vec<Result<DecodedImage, TextureError>>,
    TextureError,
>)
    ensures
        texture_decoded(buffer@, layout, r),
{
    let len = buffer.len();
    if len < 8 {
        return Err(TextureError::Truncated);
    }
    let flags = read_u32(buffer, 4);
    let format = match block_format(flags) {
        None => {
            return Err(TextureError::UnsupportedCodec(flags));
        },
        Some(f) => f,
    };
    match layout {
        TextureLayout::Single => {
            if len < 36 {
                return Err(TextureError::Truncated);
            }
            let width = read_u32(buffer, 16);
            let height = read_u32(buffer, 20);
            let mut images: Vec<Result<DecodedImage, TextureError>> = Vec::new();
            if width != read_u32(buffer, 24) || height != read_u32(buffer, 28) {
                images.push(Err(TextureError::InvalidDimensions { width, height }));
                return Ok(images);
            }
            let size = read_u32(buffer, 32);
            if size as usize > len - 36 {
                return Err(TextureError::Truncated);
            }
            let data = copy_range(buffer, 36, size as usize);
            images.push(decode_image(format, width, height, data.as_slice(), None));
            Ok(images)
        },
        TextureLayout::Multi => {
            if len < 24 {
                return Err(TextureError::Truncated);
            }
            let count = read_u32(buffer, 12);
            let mut images: Vec<Result<DecodedImage, TextureError>> = Vec::new();
            let mut pos: usize = 24;
            let mut j: u32 = 0;
            while j < count
                invariant
                    layout == TextureLayout::Multi,
                    len == buffer@.len(),
                    24 <= len,
                    flags == flags_of(buffer@),
                    format_of(flags) == Some(format),
                    count == image_count(buffer@),
                    j <= count,
                    pos == record_pos(buffer@, j as nat),
                    pos <= len,
                    records_fit(buffer@, j as nat),
                    images@.len() == j,
                    forall|i: nat|
                        i < j ==> image_decoded(
                            format,
                            record_width(buffer@, i),
                            record_height(buffer@, i),
                            record_data(buffer@, i),
                            suffix_of(count, record_width(buffer@, i)),
                            #[trigger] images@[i as int],
                        ),
                decreases count - j,
            {
                if pos > len - 12 {
                    assert(!records_fit(buffer@, count as nat)) by {
                        assert(record_pos(buffer@, j as nat) + 12 > len);
                        assert(j < count);
                    }
                    assert(!(buffer@.len() < 24));
                    return Err(TextureError::Truncated);
                }
                let width = read_u32(buffer, pos);
                let height = read_u32(buffer, pos + 4);
                let size = read_u32(buffer, pos + 8);
                if size as usize > len - pos - 12 {
                    assert(!records_fit(buffer@, count as nat)) by {
                        assert(record_pos(buffer@, j as nat) + 12 + u32_at(
                            buffer@,
                            record_pos(buffer@, j as nat) + 8,
                        ) > len);
                    }
                    return Err(TextureError::Truncated);
                }
                let data = copy_range(buffer, pos + 12, size as usize);
                let suffix = if count > 1 {
                    Some(width)
                } else {
                    None
                };
                let image = decode_image(format, width, height, data.as_slice(), suffix);
                let ghost before = images@;
                images.push(image);
                proof {
                    assert forall|i: nat| i < j + 1 implies #[trigger] record_pos(buffer@, i) + 12
                        + u32_at(buffer@, record_pos(buffer@, i) + 8) <= buffer@.len() by {
                        if i < j {
                            assert(records_fit(buffer@, j as nat));
                        }
                    }
                    assert forall|i: nat| i < j + 1 implies image_decoded(
                        format,
                        record_width(buffer@, i),
                        record_height(buffer@, i),
                        record_data(buffer@, i),
                        suffix_of(count, record_width(buffer@, i)),
                        #[trigger] images@[i as int],
                    ) by {
                        if i < j {
                            assert(images@[i as int] == before[i as int]);
                        }
                    }
                }
                pos = pos + 12 + size as usize;
                j = j + 1;
            }
            Ok(images)
        },
    }
}

} // verus!
