//! The sprite header's flags and the container's compression kind.
use vstd::prelude::*;

verus! {

/// Bits per pixel of a packed raster.
#[derive(Debug, Clone, Copy, PartialEq, Eq, Structural)]
pub enum BitsPerPixel {
    One,
    Two,
}

impl BitsPerPixel {
    /// The number of bits per pixel.
    pub open spec fn num(self) -> u32 {
        match self {
            BitsPerPixel::One => 1,
            BitsPerPixel::Two => 2,
        }
    }

    /// The flags byte that encodes this depth.
    pub open spec fn flags(self) -> u8 {
        match self {
            BitsPerPixel::One => 0,
            BitsPerPixel::Two => 1,
        }
    }

    pub fn get_num(&self) -> (r: u32)
        ensures
            r == self.num(),
    {
        match self {
            BitsPerPixel::One => 1,
            BitsPerPixel::Two => 2,
        }
    }

    pub fn get_flags(&self) -> (r: u8)
        ensures
            r == self.flags(),
    {
        match self {
            BitsPerPixel::One => 0,
            BitsPerPixel::Two => 1,
        }
    }

    /// The depth that a flags byte encodes; every other bit is reserved and must be clear.
    pub fn try_from_flags(flags: u8) -> (r: Result<Self, &'static str>)
        ensures
            flags == 0 ==> r == Ok::<Self, &'static str>(BitsPerPixel::One),
            flags == 1 ==> r == Ok::<Self, &'static str>(BitsPerPixel::Two),
            flags > 1 <==> r is Err,
    {
        match flags {
            0 => Ok(BitsPerPixel::One),
            1 => Ok(BitsPerPixel::Two),
            _ => Err("Flags must be 0 or 1"),
        }
    }
}

/// How the payload after the container byte is stored.
#[derive(Debug, Clone, Copy, PartialEq, Eq, Structural)]
pub enum CompType {
    Uncompressed,
    Pk,
}

impl CompType {
    /// The container byte of this kind.
    pub open spec fn byte(self) -> u8 {
        match self {
            CompType::Uncompressed => 0,
            CompType::Pk => 1,
        }
    }

    /// The container byte of this kind.
    pub fn as_byte(&self) -> (r: u8)
        ensures
            r == self.byte(),
    {
        match self {
            CompType::Uncompressed => 0,
            CompType::Pk => 1,
        }
    }

    /// The kind that a container byte names.
    pub fn try_from(value: u8) -> (r: Result<Self, &'static str>)
        ensures
            value == 0 ==> r == Ok::<Self, &'static str>(CompType::Uncompressed),
            value == 1 ==> r == Ok::<Self, &'static str>(CompType::Pk),
            value > 1 <==> r is Err,
    {
        match value {
            0 => Ok(CompType::Uncompressed),
            1 => Ok(CompType::Pk),
            _ => Err("Invalid compression type"),
        }
    }
}

} // verus!
