//! Naming the textures sprites are drawn from.

use vstd::prelude::*;

verus! {

/// What an atlas texture holds.
#[derive(Clone, Copy, Debug, PartialEq, Eq, Structural)]
pub enum TextureKind {
    /// Coverage, one channel.
    Mono,
    /// Coverage, one channel for each stripe of a pixel.
    Subpixel,
    /// Colour glyphs.
    Color,
    /// Images.
    Image,
}

/// One atlas texture.
#[derive(Clone, Copy, Debug, PartialEq, Eq, Structural)]
pub struct TextureId {
    /// The pool it belongs to.
    pub kind: TextureKind,
    /// Which of that pool's it is.
    pub index: u32,
}

impl TextureKind {
    /// The number a packed identifier carries for this kind.
    pub open spec fn number(self) -> int {
        match self {
            TextureKind::Mono => 0,
            TextureKind::Subpixel => 1,
            TextureKind::Color => 2,
            TextureKind::Image => 3,
        }
    }
}

impl TextureId {
    /// The texture of `kind` at `index`.
    pub fn new(kind: TextureKind, index: u32) -> (r: TextureId)
        ensures
            r == (TextureId { kind, index }),
    {
        TextureId { kind, index }
    }

    /// The identifier packed into one number: the kind above, the index below.
    pub open spec fn packed(self) -> int {
        self.kind.number() * 0x1_0000 + self.index
    }

    /// The identifier a packed number names.
    pub open spec fn unpacked(packed: u32) -> TextureId {
        TextureId {
            kind: match packed / 0x1_0000 {
                0 => TextureKind::Mono,
                1 => TextureKind::Subpixel,
                2 => TextureKind::Color,
                _ => TextureKind::Image,
            },
            index: packed % 0x1_0000,
        }
    }
}

/// Packs the pool and the index into one number, so that a batch can break on a change of texture.
pub fn pack_texture(id: TextureId) -> (r: u32)
    requires
        id.index <= 0xffff,
    ensures
        r == id.packed(),
{
    let kind: u32 = match id.kind {
        TextureKind::Mono => 0,
        TextureKind::Subpixel => 1,
        TextureKind::Color => 2,
        TextureKind::Image => 3,
    };
    kind * 0x1_0000 + id.index
}

/// The atlas texture a batch's packed identifier names.
pub fn decode_texture(packed: u32) -> (r: TextureId)
    ensures
        r == TextureId::unpacked(packed),
{
    assert(packed >> 16 == packed / 0x1_0000) by (bit_vector);
    assert(packed & 0xffff == packed % 0x1_0000) by (bit_vector);
    let kind = match packed >> 16 {
        0 => TextureKind::Mono,
        1 => TextureKind::Subpixel,
        2 => TextureKind::Color,
        _ => TextureKind::Image,
    };
    TextureId::new(kind, packed & 0xffff)
}

/// Decoding a packed identifier gives back the texture it was packed from.
pub proof fn a_packed_identifier_decodes_to_itself(id: TextureId)
    requires
        id.index <= 0xffff,
    ensures
        0 <= id.packed() <= u32::MAX,
        TextureId::unpacked(id.packed() as u32) == id,
{
}

} // verus!
