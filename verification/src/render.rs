//! What the renderer decides without the GPU: vertex layouts, shader
//! bindings, which resource each binding of a material gets, and how the
//! buffer pool hands out space.
use vstd::prelude::*;

use crate::text::bytes_eq;

verus! {

/// The type of one vertex attribute.
#[derive(Clone, Copy, PartialEq, Eq, Debug, Structural)]
pub enum VertexItemType {
    Float2,
    Float3,
    Float4,
    Half2,
    Half4,
}

/// One attribute of a vertex: where the shader reads it, its type and its
/// offset in the vertex.
#[derive(Clone, Copy, PartialEq, Eq, Debug, Structural)]
pub struct VertexFormatItem {
    pub shader_location: usize,
    pub item_type: VertexItemType,
    pub offset: usize,
}

impl VertexFormatItem {
    pub fn new(shader_location: usize, item_type: VertexItemType, offset: usize) -> (r: Self)
        ensures
            r == (VertexFormatItem { shader_location, item_type, offset }),
    {
        Self { shader_location, item_type, offset }
    }
}

/// An attribute as the GPU takes it: its type, its offset as a 64-bit
/// number and its shader location as a 32-bit number.
#[derive(Clone, Copy, PartialEq, Eq, Debug, Structural)]
pub struct VertexAttribute {
    pub format: VertexItemType,
    pub offset: u64,
    pub shader_location: u32,
}

/// The layout of one vertex buffer.
pub struct VertexFormat {
    pub items: Vec<VertexFormatItem>,
}

impl VertexFormat {
    pub fn new(items: Vec<VertexFormatItem>) -> (r: Self)
        ensures
            r.items@ == items@,
    {
        Self { items }
    }

    /// The attributes of the layout, in order; a shader location is taken
    /// modulo 2^32.
    pub fn into_attributes(self) -> (r: Vec<VertexAttribute>)
        ensures
            r@.len() == self.items@.len(),
            forall|k: int|
                0 <= k < r@.len() ==> #[trigger] r@[k] == (VertexAttribute {
                    format: self.items@[k].item_type,
                    offset: self.items@[k].offset as u64,
                    shader_location: (self.items@[k].shader_location as int % 0x1_0000_0000) as u32,
                }),
    {
        let mut r: Vec<VertexAttribute> = Vec::new();
        let mut k: usize = 0;
        while k < self.items.len()
            invariant
                k <= self.items@.len(),
                r@.len() == k,
                forall|j: int|
                    0 <= j < k ==> #[trigger] r@[j] == (VertexAttribute {
                        format: self.items@[j].item_type,
                        offset: self.items@[j].offset as u64,
                        shader_location: (self.items@[j].shader_location as int % 0x1_0000_0000) as u32,
                    }),
            decreases self.items@.len() - k,
        {
            let item = self.items[k];
            let location = item.shader_location as u64;
            let location32: u32 = #[verifier::truncate] (location as u32);
            assert(location32 == location % 0x1_0000_0000u64) by (bit_vector)
                requires
                    location32 == location as u32,
            ;
            r.push(
                VertexAttribute {
                    format: item.item_type,
                    offset: item.offset as u64,
                    shader_location: location32,
                },
            );
            k += 1;
        }
        r
    }
}

/// A range of indices of a mesh.
#[derive(Clone, Copy, PartialEq, Eq, Debug, Structural)]
pub struct MeshPart {
    pub begin: u32,
    pub count: u32,
}

impl MeshPart {
    pub fn new(begin: u32, count: u32) -> (r: Self)
        ensures
            r == (MeshPart { begin, count }),
    {
        Self { begin, count }
    }
}

/// What a shader binding holds.
#[derive(Clone, Copy, PartialEq, Eq, Debug, Structural)]
pub enum ShaderBindingType {
    UniformBuffer,
    Texture2D,
    Sampler,
}

/// A binding slot of a shader.
#[derive(Clone, Copy, PartialEq, Eq, Debug, Structural)]
pub struct ShaderBinding {
    pub binding: u32,
    pub binding_type: ShaderBindingType,
}

impl ShaderBinding {
    pub fn new(binding: u32, binding_type: ShaderBindingType) -> (r: Self)
        ensures
            r == (ShaderBinding { binding, binding_type }),
    {
        Self { binding, binding_type }
    }
}

/// The resource that a material binds to one slot.
#[derive(Clone, Copy, PartialEq, Eq, Debug, Structural)]
pub enum BindingSource {
    /// The buffer of the view and projection matrices.
    MvpBuffer,
    /// The material's texture at this index of its textures.
    Texture(usize),
    /// The renderer's empty texture, for a texture binding that the material
    /// has no texture for.
    EmptyTexture,
    /// The material's sampler.
    Sampler,
}

/// The index of the first of `names` that is `name`.
pub open spec fn first_named(names: Seq<Seq<u8>>, name: Seq<u8>) -> Option<int>
    decreases names.len(),
{
    if names.len() == 0 {
        None
    } else {
        match first_named(names.drop_last(), name) {
            Some(k) => Some(k),
            None => if names.last() == name {
                Some(names.len() - 1)
            } else {
                None
            },
        }
    }
}

/// The resource for a binding named `name`, given the names of the
/// material's textures: a uniform buffer must be the one named `Locals`
/// (`None` for any other); a texture binding takes the texture of its name,
/// or the empty texture when there is none; a sampler binding the sampler.
pub open spec fn spec_binding_source(
    name: Seq<u8>,
    binding_type: ShaderBindingType,
    textures: Seq<Seq<u8>>,
) -> Option<BindingSource> {
    match binding_type {
        ShaderBindingType::UniformBuffer => if name == seq![
            'L' as u8,
            'o' as u8,
            'c' as u8,
            'a' as u8,
            'l' as u8,
            's' as u8,
        ] {
            Some(BindingSource::MvpBuffer)
        } else {
            None
        },
        ShaderBindingType::Texture2D => match first_named(textures, name) {
            Some(k) => Some(BindingSource::Texture(k as usize)),
            None => Some(BindingSource::EmptyTexture),
        },
        ShaderBindingType::Sampler => Some(BindingSource::Sampler),
    }
}

/// The names of textures, as byte sequences.
pub open spec fn texture_names(textures: Seq<Vec<u8>>) -> Seq<Seq<u8>> {
    textures.map_values(|t: Vec<u8>| t@)
}

/// The resource a material with textures named `textures` binds for the
/// binding named `name`. A uniform buffer binding must be the one named
/// `Locals`.
pub fn binding_source(name: &[u8], binding_type: ShaderBindingType, textures: &[Vec<u8>]) -> (r: BindingSource)
    requires
        spec_binding_source(name@, binding_type, texture_names(textures@)) is Some,
    ensures
        spec_binding_source(name@, binding_type, texture_names(textures@)) == Some(r),
{
    match binding_type {
        ShaderBindingType::UniformBuffer => BindingSource::MvpBuffer,
        ShaderBindingType::Texture2D => {
            let ghost names = texture_names(textures@);
            let n = textures.len();
            let mut i: usize = 0;
            while i < n
                invariant
                    n == textures@.len(),
                    i <= n,
                    binding_type == ShaderBindingType::Texture2D,
                    names == texture_names(textures@),
                    first_named(names.take(i as int), name@) is None,
                decreases n - i,
            {
                assert(names.take(i + 1).drop_last() =~= names.take(i as int));
                if bytes_eq(textures[i].as_slice(), name) {
                    proof {
                        assert(names[i as int] == textures@[i as int]@);
                        assert(names.take(i + 1).last() == name@);
                        assert(first_named(names.take(i + 1), name@) == Some(i as int));
                        lemma_first_named_prefix(names, name@, i + 1);
                    }
                    return BindingSource::Texture(i);
                }
                i += 1;
            }
            assert(names.take(n as int) =~= names);
            BindingSource::EmptyTexture
        },
        ShaderBindingType::Sampler => BindingSource::Sampler,
    }
}

/// A match among the first `k` names is the first match of all of them.
proof fn lemma_first_named_prefix(names: Seq<Seq<u8>>, name: Seq<u8>, k: int)
    requires
        0 <= k <= names.len(),
        first_named(names.take(k), name) is Some,
    ensures
        first_named(names, name) == first_named(names.take(k), name),
    decreases names.len() - k,
{
    if k < names.len() {
        assert(names.take(k + 1).drop_last() =~= names.take(k));
        lemma_first_named_prefix(names, name, k + 1);
    } else {
        assert(names.take(k) =~= names);
    }
}

/// Bytes of each buffer of the pool.
pub const BUFFER_SIZE: usize = 1048576;

/// One buffer of the pool: space is handed out from `offset` on, and
/// nothing is taken back.
#[derive(Clone, Copy, PartialEq, Eq, Debug, Structural)]
pub struct BufferPoolItem {
    pub offset: usize,
    pub size: usize,
    pub allocated: usize,
}

impl BufferPoolItem {
    pub fn new() -> (r: Self)
        ensures
            r == (BufferPoolItem { offset: 0, size: BUFFER_SIZE, allocated: 0 }),
    {
        Self { offset: 0, size: BUFFER_SIZE, allocated: 0 }
    }

    /// Hands out `size` bytes: their offset, unless more than the buffer's
    /// size has been handed out already.
    pub fn allocate(&mut self, size: usize) -> (r: Option<usize>)
        requires
            old(self).allocated <= old(self).size ==> old(self).offset + size <= usize::MAX
                && old(self).allocated + size <= usize::MAX,
        ensures
            old(self).allocated > old(self).size ==> r is None && *final(self) == *old(self),
            old(self).allocated <= old(self).size ==> r == Some(old(self).offset) && *final(self)
                == (BufferPoolItem {
                offset: (old(self).offset + size) as usize,
                size: old(self).size,
                allocated: (old(self).allocated + size) as usize,
            }),
    {
        if self.allocated > self.size {
            None
        } else {
            let offset = self.offset;
            self.offset = self.offset + size;
            self.allocated = self.allocated + size;
            Some(offset)
        }
    }

    /// Space is not taken back.
    pub fn free(&mut self, offset: usize)
        ensures
            *final(self) == *old(self),
    {
    }
}

/// The buffers of the pool, in the order in which they were made.
pub struct BufferPool {
    pub items: Vec<BufferPoolItem>,
}

/// Whether `size` more bytes can be counted in every buffer.
pub open spec fn room_for(items: Seq<BufferPoolItem>, size: int) -> bool {
    forall|k: int|
        0 <= k < items.len() ==> (#[trigger] items[k]).offset + size <= usize::MAX && items[k].allocated
            + size <= usize::MAX
}

impl BufferPool {
    pub fn new() -> (r: Self)
        ensures
            r.items@ == Seq::<BufferPoolItem>::empty(),
    {
        Self { items: Vec::new() }
    }

    /// Hands out `size` bytes from the first buffer that still gives space,
    /// or from a new buffer added at the end when none does: the buffer's
    /// index and the offset in it.
    pub fn allocate(&mut self, size: usize) -> (r: (usize, usize))
        requires
            room_for(old(self).items@, size as int),
            size <= BUFFER_SIZE,
        ensures
            ({
                let (i, offset) = r;
                let olds = old(self).items@;
                let news = final(self).items@;
                &&& forall|k: int| 0 <= k < i && k < olds.len() ==> (#[trigger] olds[k]).allocated > olds[k].size
                &&& i < news.len()
                &&& i < olds.len() ==> news == olds.update(
                    i as int,
                    BufferPoolItem {
                        offset: (olds[i as int].offset + size) as usize,
                        size: olds[i as int].size,
                        allocated: (olds[i as int].allocated + size) as usize,
                    },
                ) && offset == olds[i as int].offset
                &&& i >= olds.len() ==> i == olds.len() && news == olds.push(
                    BufferPoolItem { offset: size, size: BUFFER_SIZE, allocated: size },
                ) && offset == 0
            }),
    {
        let mut i: usize = 0;
        while i < self.items.len()
            invariant
                i <= self.items@.len(),
                self.items@ == old(self).items@,
                room_for(self.items@, size as int),
                forall|k: int| 0 <= k < i ==> (#[trigger] self.items@[k]).allocated > self.items@[k].size,
            decreases self.items@.len() - i,
        {
            let mut item = self.items[i];
            assert(item == self.items@[i as int]);
            match item.allocate(size) {
                Some(offset) => {
                    self.items.set(i, item);
                    return (i, offset);
                },
                None => {},
            }
            i += 1;
        }
        let mut item = BufferPoolItem::new();
        let offset = item.allocate(size);
        self.items.push(item);
        match offset {
            Some(offset) => (i, offset),
            None => (i, 0),
        }
    }
}

} // verus!
