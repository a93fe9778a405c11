//! Texture formats and the conversion of texture data to RGBA pixels.
use vstd::prelude::*;

use crate::util::spec_u16_le;

verus! {

/// A format of uncompressed texture data.
#[derive(Clone, Copy, PartialEq, Eq, Debug, Structural)]
pub enum TextureFormat {
    Rgba8Unorm,
    Bgra8Unorm,
    Rgba16Float,
}

impl TextureFormat {
    /// Bytes of one pixel.
    pub fn bytes_per_row(&self) -> (r: usize)
        ensures
            r == (match self {
                TextureFormat::Rgba16Float => 8usize,
                _ => 4usize,
            }),
    {
        match self {
            TextureFormat::Rgba8Unorm => 4,
            TextureFormat::Bgra8Unorm => 4,
            TextureFormat::Rgba16Float => 8,
        }
    }
}

/// A block-compressed texture format.
#[derive(Clone, Copy, PartialEq, Eq, Debug, Structural)]
pub enum CompressedTextureFormat {
    BC1,
    BC2,
    BC3,
}

/// Bytes of one compressed 4x4 block.
pub open spec fn spec_block_size(format: CompressedTextureFormat) -> int {
    match format {
        CompressedTextureFormat::BC1 => 8,
        _ => 16,
    }
}

/// Blocks along a side of `size` pixels.
pub open spec fn num_blocks(size: int) -> int {
    (size + 3) / 4
}

/// Bytes that an image of the given size takes in `format`.
pub open spec fn compressed_size(format: CompressedTextureFormat, width: int, height: int) -> int {
    num_blocks(width) * num_blocks(height) * spec_block_size(format)
}

impl CompressedTextureFormat {
    /// The format of the decoded pixels.
    pub fn decoded_format(&self) -> (r: TextureFormat)
        ensures
            r == TextureFormat::Rgba8Unorm,
    {
        match self {
            CompressedTextureFormat::BC1 => TextureFormat::Rgba8Unorm,
            CompressedTextureFormat::BC2 => TextureFormat::Rgba8Unorm,
            CompressedTextureFormat::BC3 => TextureFormat::Rgba8Unorm,
        }
    }
}

/// The number that stands for a compressed format in the name below: 1, 2
/// and 3 for BC1, BC2 and BC3.
pub open spec fn format_code(format: CompressedTextureFormat) -> int {
    match format {
        CompressedTextureFormat::BC1 => 1,
        CompressedTextureFormat::BC2 => 2,
        CompressedTextureFormat::BC3 => 3,
    }
}

/// Names what `squish::Format::decompress` writes into a zeroed buffer of
/// `4 * width * height` bytes: the RGBA pixels of the compressed image.
pub uninterp spec fn squish_decompressed(format: int, data: Seq<u8>, width: int, height: int) -> Seq<u8>;

/// `squish::Format::decompress` into the zeroed RGBA buffer `output` of
/// `4 * width * height` bytes. It reads the block of each 4x4 tile of the
/// image, so the data must hold them all, and writes every pixel inside the
/// image; its result depends on the format, the data and the size alone.
#[verifier::external_body]
fn squish_decompress(
    data: &[u8],
    width: usize,
    height: usize,
    format: CompressedTextureFormat,
    output: Vec<u8>,
) -> (r: Vec<u8>)
    requires
        width + 3 <= usize::MAX,
        height + 3 <= usize::MAX,
        4 * width * height <= usize::MAX,
        data@.len() >= compressed_size(format, width as int, height as int),
        output@ == Seq::new((4 * width * height) as nat, |i: int| 0u8),
    ensures
        r@.len() == 4 * width * height,
        r@ == squish_decompressed(format_code(format), data@, width as int, height as int),
{
    let mut result = output;
    let format = match format {
        CompressedTextureFormat::BC1 => squish::Format::Bc1,
        CompressedTextureFormat::BC2 => squish::Format::Bc2,
        CompressedTextureFormat::BC3 => squish::Format::Bc3,
    };
    format.decompress(data, width, height, result.as_mut_slice());
    result
}

/// Decodes a block-compressed texture to RGBA pixels.
pub fn decode_texture(data: &[u8], width: u32, height: u32, format: CompressedTextureFormat) -> (r: Vec<u8>)
    requires
        width + 3 <= usize::MAX,
        height + 3 <= usize::MAX,
        4 * width * height <= usize::MAX,
        data@.len() >= compressed_size(format, width as int, height as int),
    ensures
        r@.len() == 4 * width * height,
        r@ == squish_decompressed(format_code(format), data@, width as int, height as int),
{
    decode_dxtn(format, data, width as usize, height as usize)
}

/// Decodes a block-compressed texture of the given size to RGBA pixels.
pub fn decode_dxtn(format: CompressedTextureFormat, raw: &[u8], width: usize, height: usize) -> (r: Vec<u8>)
    requires
        width + 3 <= usize::MAX,
        height + 3 <= usize::MAX,
        4 * width * height <= usize::MAX,
        raw@.len() >= compressed_size(format, width as int, height as int),
    ensures
        r@.len() == 4 * width * height,
        r@ == squish_decompressed(format_code(format), raw@, width as int, height as int),
{
    assert(4 * width * height == width * height * 4) by (nonlinear_arith);
    let size = width * height * 4;
    let output = vec![0u8; size];
    assert(output@ =~= Seq::new((4 * width * height) as nat, |i: int| 0u8));
    squish_decompress(raw, width, height, format, output)
}

/// The RGBA pixel of a 16-bit A1R5G5B5 pixel: each 5-bit channel times 8,
/// alpha 255 when its bit is set.
pub open spec fn spec_5551_pixel(v: int) -> Seq<u8> {
    seq![
        (((v / 1024) % 32) * 8) as u8,
        (((v / 32) % 32) * 8) as u8,
        ((v % 32) * 8) as u8,
        (((v / 32768) % 2) * 255) as u8,
    ]
}

/// An A1R5G5B5 pixel (bit 15 alpha, bits 10 to 14 red, 5 to 9 green, 0 to 4
/// blue) becomes the bytes red, green, blue and alpha, each 5-bit channel
/// scaled by 8 and the alpha bit to 0 or 255.
pub proof fn lemma_5551_channels(v: u16)
    ensures
        spec_5551_pixel(v as int) == seq![
            (((v >> 10u16) & 0x1f) * 8) as u8,
            (((v >> 5u16) & 0x1f) * 8) as u8,
            ((v & 0x1f) * 8) as u8,
            (if (v >> 15u16) & 1 == 1 { 255u8 } else { 0u8 }),
        ],
{
    assert(((v >> 10u16) & 0x1f) == (v / 1024) % 32 && ((v >> 5u16) & 0x1f) == (v / 32) % 32 && (v & 0x1f)
        == v % 32 && ((v >> 15u16) & 1) == (v / 32768) % 2) by (bit_vector);
}

/// The RGBA pixels of the first `n` little-endian 16-bit pixels of `raw`.
pub open spec fn spec_5551_to_rgba(raw: Seq<u8>, n: int) -> Seq<u8>
    decreases n,
{
    if n <= 0 {
        Seq::empty()
    } else {
        spec_5551_to_rgba(raw, n - 1) + spec_5551_pixel(spec_u16_le(raw, 2 * (n - 1)))
    }
}

/// Pixel `k` of the converted picture (bytes `4k` to `4k + 3`) comes from
/// the 16-bit pixel stored little-endian at bytes `2k` and `2k + 1`.
pub proof fn lemma_5551_pixel_at(raw: Seq<u8>, n: int, k: int)
    requires
        0 <= k < n,
        2 * n <= raw.len(),
    ensures
        spec_5551_to_rgba(raw, n).len() == 4 * n,
        spec_5551_to_rgba(raw, n).subrange(4 * k, 4 * k + 4) == spec_5551_pixel(
            raw[2 * k] + 256 * raw[2 * k + 1],
        ),
    decreases n,
{
    lemma_5551_len(raw, n);
    lemma_5551_len(raw, n - 1);
    let prev = spec_5551_to_rgba(raw, n - 1);
    let all = spec_5551_to_rgba(raw, n);
    if k == n - 1 {
        assert(all.subrange(4 * k, 4 * k + 4) =~= spec_5551_pixel(spec_u16_le(raw, 2 * k)));
    } else {
        lemma_5551_pixel_at(raw, n - 1, k);
        assert(all.subrange(4 * k, 4 * k + 4) =~= prev.subrange(4 * k, 4 * k + 4));
    }
}

/// Converts A1R5G5B5 pixels (two little-endian bytes each; a last odd byte
/// is ignored) to RGBA.
pub fn convert_5551_to_rgba(raw: &[u8]) -> (r: Vec<u8>)
    ensures
        r@ == spec_5551_to_rgba(raw@, (raw@.len() / 2) as int),
{
    let len = raw.len();
    let count = len / 2;
    let mut result: Vec<u8> = Vec::new();
    let mut k: usize = 0;
    while k < count
        invariant
            k <= count,
            len == raw@.len(),
            count == raw@.len() / 2,
            result@ == spec_5551_to_rgba(raw@, k as int),
        decreases count - k,
    {
        assert(2 * k + 1 < raw@.len());
        let i: u16 = raw[2 * k] as u16 + 256 * (raw[2 * k + 1] as u16);
        let b5 = i & 0x1f;
        let g5 = (i >> 5) & 0x1f;
        let r5 = (i >> 10) & 0x1f;
        let a1 = (i >> 15) & 0x1;
        assert(b5 == i % 32 && g5 == (i / 32) % 32 && r5 == (i / 1024) % 32 && a1 == (i / 32768) % 2
            && b5 < 32 && g5 < 32 && r5 < 32 && a1 < 2) by (bit_vector)
            requires
                b5 == i & 0x1f,
                g5 == (i >> 5) & 0x1f,
                r5 == (i >> 10) & 0x1f,
                a1 == (i >> 15) & 0x1,
        ;
        let b = (b5 * 8) as u8;
        let g = (g5 * 8) as u8;
        let r = (r5 * 8) as u8;
        let a = (a1 * 255) as u8;
        result.push(r);
        result.push(g);
        result.push(b);
        result.push(a);
        k += 1;
        assert(result@ =~= spec_5551_to_rgba(raw@, k as int));
    }
    result
}

/// The pixel formats of texture files that can be shown as RGBA.
#[derive(Clone, Copy, PartialEq, Eq, Debug, Structural)]
pub enum TexPixelFormat {
    Rgba5551,
    Dxt1,
    Dxt3,
    Dxt5,
}

/// The RGBA pixels of the first image of a texture file, as a picture is
/// made of it.
pub open spec fn spec_tex_rgba(format: TexPixelFormat, data: Seq<u8>, width: int, height: int) -> Seq<u8> {
    match format {
        TexPixelFormat::Rgba5551 => spec_5551_to_rgba(data, (data.len() / 2) as int),
        TexPixelFormat::Dxt1 => squish_decompressed(1, data, width, height),
        TexPixelFormat::Dxt3 => squish_decompressed(2, data, width, height),
        TexPixelFormat::Dxt5 => squish_decompressed(3, data, width, height),
    }
}

/// Each DXT pixel format is decoded with its own block format: DXT1 as
/// BC1, DXT3 (explicit alpha) as BC2 and DXT5 (interpolated alpha) as BC3,
/// which `squish_decompress` hands to `squish::Format::Bc1`, `Bc2` and `Bc3`;
/// A1R5G5B5 pixels are not decoded by squish at all but give four bytes per
/// pixel.
pub proof fn lemma_tex_formats(data: Seq<u8>, width: int, height: int)
    ensures
        spec_tex_rgba(TexPixelFormat::Dxt1, data, width, height) == squish_decompressed(
            format_code(CompressedTextureFormat::BC1),
            data,
            width,
            height,
        ),
        spec_tex_rgba(TexPixelFormat::Dxt3, data, width, height) == squish_decompressed(
            format_code(CompressedTextureFormat::BC2),
            data,
            width,
            height,
        ),
        spec_tex_rgba(TexPixelFormat::Dxt5, data, width, height) == squish_decompressed(
            format_code(CompressedTextureFormat::BC3),
            data,
            width,
            height,
        ),
        format_code(CompressedTextureFormat::BC1) != format_code(CompressedTextureFormat::BC2),
        format_code(CompressedTextureFormat::BC2) != format_code(CompressedTextureFormat::BC3),
        format_code(CompressedTextureFormat::BC1) != format_code(CompressedTextureFormat::BC3),
        spec_tex_rgba(TexPixelFormat::Rgba5551, data, width, height).len() == 4 * (data.len() / 2),
{
    lemma_5551_len(data, (data.len() / 2) as int);
}

/// The compressed format of a DXT pixel format.
pub open spec fn dxt_format(format: TexPixelFormat) -> CompressedTextureFormat {
    match format {
        TexPixelFormat::Dxt1 => CompressedTextureFormat::BC1,
        TexPixelFormat::Dxt3 => CompressedTextureFormat::BC2,
        _ => CompressedTextureFormat::BC3,
    }
}

/// The RGBA pixels of a texture's first image.
pub fn tex_rgba(format: TexPixelFormat, data: &[u8], width: usize, height: usize) -> (r: Vec<u8>)
    requires
        format != TexPixelFormat::Rgba5551 ==> {
            &&& width + 3 <= usize::MAX
            &&& height + 3 <= usize::MAX
            &&& 4 * width * height <= usize::MAX
            &&& data@.len() >= compressed_size(dxt_format(format), width as int, height as int)
        },
    ensures
        r@ == spec_tex_rgba(format, data@, width as int, height as int),
        format == TexPixelFormat::Rgba5551 ==> r@.len() == 4 * (data@.len() / 2),
        format != TexPixelFormat::Rgba5551 ==> r@.len() == 4 * width * height,
{
    proof {
        lemma_5551_len(data@, (data@.len() / 2) as int);
    }
    match format {
        TexPixelFormat::Rgba5551 => convert_5551_to_rgba(data),
        TexPixelFormat::Dxt1 => decode_dxtn(CompressedTextureFormat::BC1, data, width, height),
        TexPixelFormat::Dxt3 => decode_dxtn(CompressedTextureFormat::BC2, data, width, height),
        TexPixelFormat::Dxt5 => decode_dxtn(CompressedTextureFormat::BC3, data, width, height),
    }
}

/// Names what `image`'s PNG encoder writes for an 8-bit RGBA picture of
/// `width` by `height` pixels taken from `rgba`: the bytes of the file, or
/// `None` where the encoder reports an error.
pub uninterp spec fn png_encoded(width: int, height: int, rgba: Seq<u8>) -> Option<Seq<u8>>;

/// `image::RgbaImage::from_raw` on the pixels, then `write_to` an in-memory
/// cursor in the PNG format. `from_raw` accepts a buffer of at least
/// `4 * width * height` bytes; the bytes written, or the error, depend on
/// the size and the pixels alone.
#[verifier::external_body]
fn png_encode(width: u32, height: u32, rgba: Vec<u8>) -> (r: Option<Vec<u8>>)
    requires
        4 * width * height <= rgba@.len(),
    ensures
        (match r {
            Some(v) => Some(v@),
            None => None,
        }) == png_encoded(width as int, height as int, rgba@),
{
    let picture = image::RgbaImage::from_raw(width, height, rgba)?;
    let mut writer = std::io::Cursor::new(Vec::new());
    match picture.write_to(&mut writer, image::ImageOutputFormat::Png) {
        Ok(()) => Some(writer.into_inner()),
        Err(_) => None,
    }
}

/// The PNG file that a texture's first image makes: its RGBA pixels
/// encoded at the texture's size. `None` where the encoder reports an error.
pub fn tex_to_png(format: TexPixelFormat, data: &[u8], width: u32, height: u32) -> (r: Option<Vec<u8>>)
    requires
        4 * width * height <= usize::MAX,
        width + 3 <= usize::MAX,
        height + 3 <= usize::MAX,
        format == TexPixelFormat::Rgba5551 ==> width * height <= data@.len() / 2,
        format != TexPixelFormat::Rgba5551 ==> data@.len() >= compressed_size(
            dxt_format(format),
            width as int,
            height as int,
        ),
    ensures
        (match r {
            Some(v) => Some(v@),
            None => None,
        }) == png_encoded(
            width as int,
            height as int,
            spec_tex_rgba(format, data@, width as int, height as int),
        ),
{
    let rgba = tex_rgba(format, data, width as usize, height as usize);
    proof {
        if format == TexPixelFormat::Rgba5551 {
            let n = (data@.len() / 2) as int;
            assert(4 * width * height <= 4 * n) by (nonlinear_arith)
                requires
                    width * height <= n,
            ;
        }
    }
    png_encode(width, height, rgba)
}

/// Four bytes of RGBA come from each 16-bit pixel.
pub proof fn lemma_5551_len(raw: Seq<u8>, n: int)
    requires
        n >= 0,
    ensures
        spec_5551_to_rgba(raw, n).len() == 4 * n,
    decreases n,
{
    if n > 0 {
        lemma_5551_len(raw, n - 1);
    }
}

} // verus!
