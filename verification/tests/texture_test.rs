use ffxivtools::render::{
    binding_source, BindingSource, BufferPool, BufferPoolItem, MeshPart, ShaderBinding, ShaderBindingType,
    VertexFormat, VertexFormatItem, VertexItemType, BUFFER_SIZE,
};
use ffxivtools::texture::{
    convert_5551_to_rgba, decode_dxtn, decode_texture, tex_rgba, tex_to_png, CompressedTextureFormat, TexPixelFormat,
    TextureFormat,
};

#[test]
fn pixels_5551() {
    let raw = [0x1f, 0x80, 0xe0, 0x03, 0x00, 0x7c, 0xff];
    assert_eq!(
        convert_5551_to_rgba(&raw),
        vec![0, 0, 248, 255, 0, 248, 0, 0, 248, 0, 0, 0]
    );
    assert_eq!(tex_rgba(TexPixelFormat::Rgba5551, &raw, 3, 1), convert_5551_to_rgba(&raw));
}

#[test]
fn dxt1_solid_block() {
    // A BC1 block whose two colours are pure red and whose indices all pick
    // the first colour.
    let block = [0x00, 0xf8, 0x00, 0xf8, 0, 0, 0, 0];
    let pixels = decode_dxtn(CompressedTextureFormat::BC1, &block, 4, 4);
    assert_eq!(pixels.len(), 64);
    for k in 0..16 {
        assert_eq!(&pixels[4 * k..4 * k + 4], &[255, 0, 0, 255]);
    }
    assert_eq!(decode_texture(&block, 2, 2, CompressedTextureFormat::BC1).len(), 16);
    assert_eq!(tex_rgba(TexPixelFormat::Dxt1, &block, 4, 4), pixels);
}

#[test]
fn texture_formats() {
    assert_eq!(TextureFormat::Rgba16Float.bytes_per_row(), 8);
    assert_eq!(TextureFormat::Bgra8Unorm.bytes_per_row(), 4);
    assert_eq!(CompressedTextureFormat::BC3.decoded_format(), TextureFormat::Rgba8Unorm);
}

#[test]
fn vertex_attributes() {
    let format = VertexFormat::new(vec![
        VertexFormatItem::new(0, VertexItemType::Float3, 0),
        VertexFormatItem::new(1, VertexItemType::Half2, 12),
    ]);
    let attributes = format.into_attributes();
    assert_eq!(attributes.len(), 2);
    assert_eq!(attributes[1].format, VertexItemType::Half2);
    assert_eq!(attributes[1].offset, 12);
    assert_eq!(attributes[1].shader_location, 1);
    assert_eq!(MeshPart::new(3, 9), MeshPart { begin: 3, count: 9 });
    assert_eq!(ShaderBinding::new(2, ShaderBindingType::Sampler).binding, 2);
}

#[test]
fn material_binding_sources() {
    let textures = vec![b"t_Normal".to_vec(), b"t_Color".to_vec()];
    assert_eq!(binding_source(b"Locals", ShaderBindingType::UniformBuffer, &textures), BindingSource::MvpBuffer);
    assert_eq!(binding_source(b"t_Color", ShaderBindingType::Texture2D, &textures), BindingSource::Texture(1));
    assert_eq!(binding_source(b"t_Mask", ShaderBindingType::Texture2D, &textures), BindingSource::EmptyTexture);
    assert_eq!(binding_source(b"t_Color", ShaderBindingType::Texture2D, &[]), BindingSource::EmptyTexture);
    assert_eq!(binding_source(b"s_Color", ShaderBindingType::Sampler, &textures), BindingSource::Sampler);
}

#[test]
fn buffer_pool_allocation() {
    let mut pool = BufferPool::new();
    assert_eq!(pool.allocate(100), (0, 0));
    assert_eq!(pool.allocate(50), (0, 100));
    assert_eq!(pool.items[0], BufferPoolItem { offset: 150, size: BUFFER_SIZE, allocated: 150 });
    pool.items[0].allocated = BUFFER_SIZE + 1;
    assert_eq!(pool.allocate(10), (1, 0));
    assert_eq!(pool.items.len(), 2);
    let mut item = BufferPoolItem::new();
    assert_eq!(item.allocate(8), Some(0));
    item.free(0);
    assert_eq!(item.offset, 8);
}

#[test]
fn png_of_5551_texture() {
    let raw = [0x1f, 0x80, 0xe0, 0x03, 0x00, 0x7c, 0xff];
    let png = tex_to_png(TexPixelFormat::Rgba5551, &raw, 3, 1).unwrap();
    assert_eq!(&png[..8], &[137, 80, 78, 71, 13, 10, 26, 10]);
    let picture = image::load_from_memory(&png).unwrap().to_rgba8();
    assert_eq!((picture.width(), picture.height()), (3, 1));
    assert_eq!(picture.into_raw(), convert_5551_to_rgba(&raw));
}

#[test]
fn png_of_dxt1_texture() {
    let block = [0x00, 0xf8, 0x00, 0xf8, 0, 0, 0, 0];
    let png = tex_to_png(TexPixelFormat::Dxt1, &block, 4, 4).unwrap();
    let picture = image::load_from_memory(&png).unwrap().to_rgba8();
    assert_eq!((picture.width(), picture.height()), (4, 4));
    assert_eq!(picture.into_raw(), tex_rgba(TexPixelFormat::Dxt1, &block, 4, 4));
}

#[test]
fn png_of_empty_texture_is_refused() {
    assert_eq!(tex_to_png(TexPixelFormat::Rgba5551, &[], 0, 0), None);
}
