//! The voxel: one cell of the grid, a material with a color and a few flags.

use vstd::prelude::*;

verus! {

/// Material identifier of a voxel: `0` is air, every other value is solid.
#[derive(Debug, Clone, Copy, PartialEq, Eq, Structural, Hash)]
pub struct Material(pub u16);

impl Material {
    pub open spec fn spec_air() -> Material {
        Material(0)
    }

    /// The material of empty space.
    #[verifier::when_used_as_spec(spec_air)]
    pub fn air() -> (m: Material)
        ensures
            m == Material(0),
    {
        Material(0)
    }

    #[verifier::inline]
    pub open spec fn spec_is_air(self) -> bool {
        self.0 == 0
    }

    #[verifier::inline]
    pub open spec fn spec_is_solid(self) -> bool {
        self.0 != 0
    }

    #[verifier::when_used_as_spec(spec_is_air)]
    pub fn is_air(self) -> (b: bool)
        ensures
            b == (self.0 == 0),
    {
        self.0 == 0
    }

    #[verifier::when_used_as_spec(spec_is_solid)]
    pub fn is_solid(self) -> (b: bool)
        ensures
            b == (self.0 != 0),
    {
        self.0 != 0
    }
}

impl Default for Material {
    fn default() -> (m: Material)
        ensures
            m == Material::air(),
    {
        Material(0)
    }
}

/// The bit of `Voxel::flags` that marks a voxel as emissive.
pub const FLAG_EMISSIVE: u8 = 0x01;

/// A single voxel: material, RGBA color and flag bits.
#[derive(Debug, Clone, Copy, PartialEq, Eq, Structural, Hash)]
pub struct Voxel {
    /// Material id; `0` is air.
    pub material: u16,
    pub r: u8,
    pub g: u8,
    pub b: u8,
    /// Opacity, `255` for a fully opaque voxel.
    pub a: u8,
    /// Bit 0: emissive. Bits 1 to 7 are reserved.
    pub flags: u8,
    pub _reserved: u8,
}

impl Voxel {
    pub open spec fn spec_air() -> Voxel {
        Voxel { material: 0, r: 0, g: 0, b: 0, a: 0, flags: 0, _reserved: 0 }
    }

    /// Empty space: material `0` with every channel and flag zero.
    #[verifier::when_used_as_spec(spec_air)]
    pub fn air() -> (v: Voxel)
        ensures
            v == Voxel::spec_air(),
    {
        Voxel { material: 0, r: 0, g: 0, b: 0, a: 0, flags: 0, _reserved: 0 }
    }

    #[verifier::inline]
    pub open spec fn spec_is_air(&self) -> bool {
        self.material == 0
    }

    #[verifier::inline]
    pub open spec fn spec_is_solid(&self) -> bool {
        self.material != 0
    }

    pub open spec fn spec_is_emissive(&self) -> bool {
        self.flags & FLAG_EMISSIVE != 0
    }

    /// An opaque voxel of the given material and color.
    pub fn new(material: u16, r: u8, g: u8, b: u8) -> (v: Voxel)
        ensures
            v == (Voxel { material, r, g, b, a: 255, flags: 0, _reserved: 0 }),
    {
        Voxel { material, r, g, b, a: 255, flags: 0, _reserved: 0 }
    }

    /// An opaque voxel of material `1` with the given color.
    pub fn from_rgb(r: u8, g: u8, b: u8) -> (v: Voxel)
        ensures
            v == (Voxel { material: 1, r, g, b, a: 255, flags: 0, _reserved: 0 }),
    {
        Voxel::new(1, r, g, b)
    }

    /// A voxel of material `1` with the given color and opacity.
    pub fn from_rgba(r: u8, g: u8, b: u8, a: u8) -> (v: Voxel)
        ensures
            v == (Voxel { material: 1, r, g, b, a, flags: 0, _reserved: 0 }),
    {
        Voxel { material: 1, r, g, b, a, flags: 0, _reserved: 0 }
    }

    #[verifier::when_used_as_spec(spec_is_air)]
    pub fn is_air(&self) -> (b: bool)
        ensures
            b == (self.material == 0),
    {
        self.material == 0
    }

    #[verifier::when_used_as_spec(spec_is_solid)]
    pub fn is_solid(&self) -> (b: bool)
        ensures
            b == (self.material != 0),
    {
        self.material != 0
    }

    /// The color as `[r, g, b, a]`.
    pub fn color(&self) -> (c: [u8; 4])
        ensures
            c@ == seq![self.r, self.g, self.b, self.a],
    {
        [self.r, self.g, self.b, self.a]
    }

    #[verifier::when_used_as_spec(spec_is_emissive)]
    pub fn is_emissive(&self) -> (b: bool)
        ensures
            b == self.spec_is_emissive(),
    {
        self.flags & FLAG_EMISSIVE != 0
    }

    /// Sets or clears the emissive bit and leaves every other bit and field as it was.
    pub fn set_emissive(&mut self, emissive: bool)
        ensures
            final(self).spec_is_emissive() == emissive,
            final(self).flags & !FLAG_EMISSIVE == old(self).flags & !FLAG_EMISSIVE,
            *final(self) == (Voxel { flags: final(self).flags, ..*old(self) }),
    {
        let flags = self.flags;
        if emissive {
            self.flags = flags | FLAG_EMISSIVE;
            assert((flags | 0x01u8) & 0x01u8 != 0 && (flags | 0x01u8) & !0x01u8 == flags & !0x01u8)
                by (bit_vector);
        } else {
            self.flags = flags & !FLAG_EMISSIVE;
            assert((flags & !0x01u8) & 0x01u8 == 0 && (flags & !0x01u8) & !0x01u8 == flags
                & !0x01u8) by (bit_vector);
        }
    }
}

impl Default for Voxel {
    fn default() -> (v: Voxel)
        ensures
            v == Voxel::air(),
    {
        Voxel { material: 0, r: 0, g: 0, b: 0, a: 0, flags: 0, _reserved: 0 }
    }
}

} // verus!
