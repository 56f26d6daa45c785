//! Framebuffer description handed from the graphics protocol to the kernel.

use vstd::prelude::*;
use crate::addr::VirtualAddress;

verus! {

/// Pixel layouts the bootloader can hand to the kernel. The graphics
/// protocol can also advertise a bit-mask layout or a blt-only buffer;
/// neither can be drawn to byte-wise, so boot fails on them.
#[derive(Clone, Copy, Debug, PartialEq, Eq, Structural)]
pub enum PixelFormat {
    Rgb,
    Bgr,
}

/// What the graphics protocol reports about the current mode, as plain
/// values; `pixel_format_tag` is the protocol's own format enumeration
/// (0 red-green-blue, 1 blue-green-red, 2 bit mask, 3 blt only).
#[derive(Clone, Copy, Debug, PartialEq, Eq, Structural)]
pub struct GraphicsMode {
    pub size: u64,
    pub width: u64,
    pub height: u64,
    pub stride: u64,
    pub pixel_format_tag: u32,
}

#[derive(Clone, Copy, Debug, PartialEq, Eq, Structural)]
pub struct FrameBufferInfo {
    pub size: u64,
    pub width: u64,
    pub height: u64,
    pub pixel_format: PixelFormat,
    pub bytes_per_pixel: u64,
    pub stride: u64,
}

/// A framebuffer: physical start address and its geometry.
#[derive(Clone, Copy, Debug, PartialEq, Eq, Structural)]
pub struct FrameBuffer {
    pub start: u64,
    pub info: FrameBufferInfo,
}

/// The halt message for the two pixel layouts the bootloader rejects.
pub fn unsupported_pixel_format_message() -> (r: &'static str)
    ensures
        r@ == "Bitmask and BltOnly framebuffers are not supported"@,
{
    proof {
        reveal_strlit("Bitmask and BltOnly framebuffers are not supported");
    }
    "Bitmask and BltOnly framebuffers are not supported"
}

/// The framebuffer as the kernel must see it: the remapped kernel-virtual
/// start substituted for the physical one, the geometry kept. Where either
/// part is absent, the header carries no framebuffer.
pub fn frame_buffer_for_kernel(
    frame_buffer: &Option<FrameBuffer>,
    remapped: &Option<VirtualAddress>,
) -> (r: Option<FrameBuffer>)
    ensures
        match (*frame_buffer, *remapped) {
            (Some(fb), Some(va)) => r == Some(FrameBuffer { start: va.spec_value(), info: fb.info }),
            _ => r is None,
        },
{
    match (frame_buffer, remapped) {
        (Some(fb), Some(va)) => Some(FrameBuffer { start: va.value(), info: fb.info }),
        _ => None,
    }
}

/// Classifies the protocol's pixel-format tag: the two byte-oriented
/// layouts are accepted, anything else is fatal.
pub fn classify_pixel_format(tag: u32) -> (r: Option<PixelFormat>)
    ensures
        r == Some(PixelFormat::Rgb) <==> tag == 0,
        r == Some(PixelFormat::Bgr) <==> tag == 1,
        r is None <==> tag >= 2,
{
    if tag == 0 {
        Some(PixelFormat::Rgb)
    } else if tag == 1 {
        Some(PixelFormat::Bgr)
    } else {
        None
    }
}

/// The framebuffer descriptor for a graphics mode: four bytes per pixel,
/// geometry copied through; a bit-mask or blt-only mode yields `None` and
/// the caller halts with `unsupported_pixel_format_message`.
pub fn build_frame_buffer(start: u64, mode: GraphicsMode) -> (r: Option<FrameBuffer>)
    ensures
        r is Some <==> mode.pixel_format_tag < 2,
        match r {
            None => true,
            Some(fb) => {
                &&& fb.start == start
                &&& fb.info.size == mode.size
                &&& fb.info.width == mode.width
                &&& fb.info.height == mode.height
                &&& fb.info.stride == mode.stride
                &&& fb.info.bytes_per_pixel == 4
                &&& (fb.info.pixel_format == PixelFormat::Rgb <==> mode.pixel_format_tag == 0)
                &&& (fb.info.pixel_format == PixelFormat::Bgr <==> mode.pixel_format_tag == 1)
            },
        },
{
    let pixel_format = match classify_pixel_format(mode.pixel_format_tag) {
        None => {
            return None;
        },
        Some(f) => f,
    };
    Some(
        FrameBuffer {
            start,
            info: FrameBufferInfo {
                size: mode.size,
                width: mode.width,
                height: mode.height,
                pixel_format,
                bytes_per_pixel: 4,
                stride: mode.stride,
            },
        },
    )
}

} // verus!
