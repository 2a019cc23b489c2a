//! Single-pixel output to the linear framebuffer.
//!
//! The functions here decide which 32-bit framebuffer word a pixel lives in
//! and what to write there; the write itself is a volatile store done by the
//! caller.

use vstd::prelude::*;
use crate::boot_info::FrameBufferInfo;

verus! {

/// The color black.
pub const COLOR_BLACK: u32 = 0x0000_0000;

/// A store of one pixel color into the framebuffer.
pub struct PixelWrite {
    /// Byte address of the 32-bit framebuffer word to write.
    pub address: u64,
    /// Color value to store.
    pub color: u32,
}

/// The pixel `(x, y)` is on the screen: `0 <= x < width`, `0 <= y < height`.
pub open spec fn pixel_accepted(x: u32, y: u32, fb: FrameBufferInfo) -> bool {
    x < fb.width && y < fb.height
}

/// Index of the pixel `(x, y)` in the framebuffer, in 32-bit words.
pub open spec fn pixel_index(x: u32, y: u32, fb: FrameBufferInfo) -> int {
    y * fb.width + x
}

/// The store that sets the pixel `(x, y)` to `color`: the 32-bit word at
/// index `y * width + x` from the framebuffer base; none for a pixel off the
/// screen.
pub open spec fn pixel_store(x: u32, y: u32, color: u32, fb: FrameBufferInfo) -> Option<PixelWrite> {
    if pixel_accepted(x, y, fb) {
        Some(PixelWrite { address: (fb.base_address + 4 * pixel_index(x, y, fb)) as u64, color })
    } else {
        None
    }
}

/// Every store lies inside the framebuffer of `width * height` words.
pub open spec fn store_in_framebuffer(w: PixelWrite, fb: FrameBufferInfo) -> bool {
    fb.base_address <= w.address && w.address + 4 <= fb.base_address + 4 * (fb.width * fb.height)
}

/// Sets the pixel `(x, y)` to `color`: the store to perform, or `None` when
/// the pixel lies outside the screen and nothing is written.
pub fn set_pixel(x: u32, y: u32, color: u32, fb: &FrameBufferInfo) -> (w: Option<PixelWrite>)
    requires
        pixel_accepted(x, y, *fb) ==> pixel_index(x, y, *fb) <= u32::MAX && fb.base_address + 4
            * pixel_index(x, y, *fb) <= u64::MAX,
    ensures
        w == pixel_store(x, y, color, *fb),
        w is Some <==> x < fb.width && y < fb.height,
        w matches Some(p) ==> p.address == fb.base_address + 4 * (y * fb.width + x) && p.color == color,
        w is None <==> !pixel_accepted(x, y, *fb),
        w matches Some(p) ==> p.address == fb.base_address + 4 * pixel_index(x, y, *fb)
            && p.color == color && store_in_framebuffer(p, *fb),
{
    if x >= fb.width || y >= fb.height {
        return None;
    }
    let offset = (y * fb.width) + x;
    proof {
        let (xx, yy, ww, hh) = (x as int, y as int, fb.width as int, fb.height as int);
        assert(yy * ww + xx + 1 <= ww * hh) by (nonlinear_arith)
            requires 0 <= xx < ww, 0 <= yy < hh;
    }
    Some(PixelWrite { address: fb.base_address + 4 * (offset as u64), color })
}

/// Clears the pixel `(x, y)` by setting it to black.
pub fn clear_pixel(x: u32, y: u32, fb: &FrameBufferInfo) -> (w: Option<PixelWrite>)
    requires
        pixel_accepted(x, y, *fb) ==> pixel_index(x, y, *fb) <= u32::MAX && fb.base_address + 4
            * pixel_index(x, y, *fb) <= u64::MAX,
    ensures
        w == pixel_store(x, y, COLOR_BLACK, *fb),
        w is Some <==> x < fb.width && y < fb.height,
        w matches Some(p) ==> p.address == fb.base_address + 4 * (y * fb.width + x) && p.color
            == COLOR_BLACK,
        w is None <==> !pixel_accepted(x, y, *fb),
        w matches Some(p) ==> p.address == fb.base_address + 4 * pixel_index(x, y, *fb)
            && p.color == COLOR_BLACK && store_in_framebuffer(p, *fb),
{
    set_pixel(x, y, COLOR_BLACK, fb)
}

/// Every on-screen pixel, and only those, gets a store: the 32-bit word at
/// index `y * width + x` from the base, with the color given.
pub proof fn lemma_pixel_store_exact(x: u32, y: u32, color: u32, fb: FrameBufferInfo)
    ensures
        pixel_store(x, y, color, fb) is Some <==> x < fb.width && y < fb.height,
        pixel_store(x, y, color, fb) matches Some(p) ==> p.address == (fb.base_address + 4 * (y
            * fb.width + x)) as u64 && p.color == color,
{
}

} // verus!
