//! Boot-handoff validation: the magic value the bootloader passes must match
//! the expected one, and the boot information must carry a memory map and a
//! framebuffer descriptor; anything less is a fatal initialization error.

use vstd::prelude::*;

verus! {

/// The magic value a compliant bootloader leaves in the handoff register.
pub const BOOT_MAGIC: u32 = 0x36d76289;

#[derive(Clone, Copy, PartialEq, Eq, Structural, Debug)]
pub enum BootError {
    InvalidMagic,
    MissingMemoryMap,
    MissingFramebuffer,
}

/// The framebuffer descriptor read from the boot information: physical
/// address, pitch (bytes per row), width and height in pixels, bits per
/// pixel.
#[derive(Clone, Copy, PartialEq, Eq, Structural, Debug)]
pub struct FramebufferInfo {
    pub address: u64,
    pub pitch: u32,
    pub width: u32,
    pub height: u32,
    pub bpp: u8,
}

impl FramebufferInfo {
    /// The framebuffer's size in bytes: one pitch-sized row per pixel row.
    pub fn size_bytes(&self) -> (r: u64)
        ensures
            r == self.pitch * self.height,
    {
        proof {
            assert((self.pitch as int) * (self.height as int) < 0x1_0000_0000_0000_0000)
                by (nonlinear_arith)
                requires
                    0 <= (self.pitch as int) < 0x1_0000_0000,
                    0 <= (self.height as int) < 0x1_0000_0000,
            ;
        }
        (self.pitch as u64) * (self.height as u64)
    }
}

/// Checks the handoff: the magic must match, and both descriptors must be
/// present. Returns the first failure in that order, `Ok` exactly when all
/// three hold.
pub fn validate_handoff(magic: u32, has_memory_map: bool, has_framebuffer: bool) -> (r: Result<
    (),
    BootError,
>)
    ensures
        magic != BOOT_MAGIC ==> r == Err::<(), BootError>(BootError::InvalidMagic),
        magic == BOOT_MAGIC && !has_memory_map ==> r == Err::<(), BootError>(
            BootError::MissingMemoryMap,
        ),
        magic == BOOT_MAGIC && has_memory_map && !has_framebuffer ==> r == Err::<(), BootError>(
            BootError::MissingFramebuffer,
        ),
        magic == BOOT_MAGIC && has_memory_map && has_framebuffer ==> r is Ok,
{
    if magic != BOOT_MAGIC {
        Err(BootError::InvalidMagic)
    } else if !has_memory_map {
        Err(BootError::MissingMemoryMap)
    } else if !has_framebuffer {
        Err(BootError::MissingFramebuffer)
    } else {
        Ok(())
    }
}

} // verus!
