use vstd::prelude::*;

verus! {

/// A voxel packed into one 32-bit word.
///
/// Bits 0..5 hold red, 5..11 green, 11..16 blue, 16..24 roughness and
/// 24..32 metalness. Colour channels wider than their field are truncated
/// to their low bits.
#[derive(Copy, Clone, Debug, PartialEq, Eq, Structural)]
pub struct Voxel(pub u32);

/// The word that `Voxel::new` produces for the given channels.
pub open spec fn pack_spec(r: u8, g: u8, b: u8, roughness: u8, metalness: u8) -> u32 {
    ((r as u32) & 0x1f) | (((g as u32) & 0x3f) << 5u32) | (((b as u32) & 0x1f) << 11u32)
        | ((roughness as u32) << 16u32) | ((metalness as u32) << 24u32)
}

/// The channels `(r, g, b, roughness, metalness)` held by a packed word.
pub open spec fn unpack_spec(bits: u32) -> (u8, u8, u8, u8, u8) {
    (
        (bits & 0x1f) as u8,
        ((bits >> 5u32) & 0x3f) as u8,
        ((bits >> 11u32) & 0x1f) as u8,
        ((bits >> 16u32) & 0xff) as u8,
        (bits >> 24u32) as u8,
    )
}

/// The voxel that fills a fresh brick: white, fully rough, not metallic.
pub open spec fn empty_voxel() -> Voxel {
    Voxel(pack_spec(255, 255, 255, 255, 0))
}

/// Unpacking a freshly packed voxel gives back each channel, masked to the
/// width of its field.
pub proof fn lemma_pack_unpack(r: u8, g: u8, b: u8, roughness: u8, metalness: u8)
    ensures
        unpack_spec(pack_spec(r, g, b, roughness, metalness)) == (
            r & 0x1f,
            g & 0x3f,
            b & 0x1f,
            roughness,
            metalness,
        ),
{
    let w = pack_spec(r, g, b, roughness, metalness);
    assert(((w & 0x1f) as u8) == r & 0x1f) by (bit_vector)
        requires
            w == ((r as u32) & 0x1f) | (((g as u32) & 0x3f) << 5u32) | (((b as u32) & 0x1f)
                << 11u32) | ((roughness as u32) << 16u32) | ((metalness as u32) << 24u32),
    ;
    assert((((w >> 5u32) & 0x3f) as u8) == g & 0x3f) by (bit_vector)
        requires
            w == ((r as u32) & 0x1f) | (((g as u32) & 0x3f) << 5u32) | (((b as u32) & 0x1f)
                << 11u32) | ((roughness as u32) << 16u32) | ((metalness as u32) << 24u32),
    ;
    assert((((w >> 11u32) & 0x1f) as u8) == b & 0x1f) by (bit_vector)
        requires
            w == ((r as u32) & 0x1f) | (((g as u32) & 0x3f) << 5u32) | (((b as u32) & 0x1f)
                << 11u32) | ((roughness as u32) << 16u32) | ((metalness as u32) << 24u32),
    ;
    assert((((w >> 16u32) & 0xff) as u8) == roughness) by (bit_vector)
        requires
            w == ((r as u32) & 0x1f) | (((g as u32) & 0x3f) << 5u32) | (((b as u32) & 0x1f)
                << 11u32) | ((roughness as u32) << 16u32) | ((metalness as u32) << 24u32),
    ;
    assert(((w >> 24u32) as u8) == metalness) by (bit_vector)
        requires
            w == ((r as u32) & 0x1f) | (((g as u32) & 0x3f) << 5u32) | (((b as u32) & 0x1f)
                << 11u32) | ((roughness as u32) << 16u32) | ((metalness as u32) << 24u32),
    ;
}

impl Voxel {
    /// Packs the channels into one word; out-of-range colour bits are dropped.
    pub fn new(r: u8, g: u8, b: u8, roughness: u8, metalness: u8) -> (v: Voxel)
        ensures
            v.0 == pack_spec(r, g, b, roughness, metalness),
    {
        Voxel(
            ((r as u32) & 0x1f) | (((g as u32) & 0x3f) << 5u32) | (((b as u32) & 0x1f) << 11u32)
                | ((roughness as u32) << 16u32) | ((metalness as u32) << 24u32),
        )
    }

    /// The voxel that fills a fresh brick.
    pub fn empty() -> (v: Voxel)
        ensures
            v == empty_voxel(),
    {
        Voxel::new(255, 255, 255, 255, 0)
    }

    /// The packed word.
    pub fn bits(&self) -> (r: u32)
        ensures
            r == self.0,
    {
        self.0
    }

    /// The channels `(r, g, b, roughness, metalness)`.
    pub fn unpack(&self) -> (c: (u8, u8, u8, u8, u8))
        ensures
            c == unpack_spec(self.0),
    {
        let bits = self.0;
        (
            (bits & 0x1f) as u8,
            ((bits >> 5u32) & 0x3f) as u8,
            ((bits >> 11u32) & 0x1f) as u8,
            ((bits >> 16u32) & 0xff) as u8,
            (bits >> 24u32) as u8,
        )
    }
}

} // verus!
