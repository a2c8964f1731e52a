//! Importing a plane: which image to ask the GPU for, and how small it is read back.

use vstd::prelude::*;

use super::protocol::KmsResponseItem;

verus! {

/// The width that a plane is scaled down to.
pub const DOWNSCALE_WIDTH: u32 = 640;

/// Image attribute: the width.
pub const EGL_WIDTH: i64 = 0x3057;

/// Image attribute: the height.
pub const EGL_HEIGHT: i64 = 0x3056;

/// Image attribute: the pixel format.
pub const EGL_LINUX_DRM_FOURCC_EXT: i64 = 0x3271;

/// Image attribute: the file descriptor.
pub const EGL_DMA_BUF_PLANE0_FD_EXT: i64 = 0x3272;

/// Image attribute: the offset in the buffer.
pub const EGL_DMA_BUF_PLANE0_OFFSET_EXT: i64 = 0x3273;

/// Image attribute: the bytes of a row.
pub const EGL_DMA_BUF_PLANE0_PITCH_EXT: i64 = 0x3274;

/// Image attribute: the lower half of the modifier.
pub const EGL_DMA_BUF_PLANE0_MODIFIER_LO_EXT: i64 = 0x3443;

/// Image attribute: the upper half of the modifier.
pub const EGL_DMA_BUF_PLANE0_MODIFIER_HI_EXT: i64 = 0x3444;

/// The end of an attribute list.
pub const EGL_NONE: i64 = 0x3038;

/// The size that a plane is read back in: at most the given width, with the height in
/// proportion and at least one.
pub open spec fn small_size(sw: u32, sh: u32) -> (int, int) {
    if sw <= DOWNSCALE_WIDTH {
        (sw as int, sh as int)
    } else {
        let dh = sh * DOWNSCALE_WIDTH / sw as int;
        (
            DOWNSCALE_WIDTH as int,
            if dh == 0 {
                1
            } else {
                dh
            },
        )
    }
}

/// The size that a plane is read back in.
pub fn downscaled_size(sw: u32, sh: u32) -> (r: (u32, u32))
    ensures
        r.0 == small_size(sw, sh).0,
        r.1 == small_size(sw, sh).1,
        r.0 <= DOWNSCALE_WIDTH,
        r.1 <= sh || r.1 == 1,
{
    if sw <= DOWNSCALE_WIDTH {
        return (sw, sh);
    }
    assert(sh * DOWNSCALE_WIDTH == 640 * sh) by (nonlinear_arith)
        requires
            DOWNSCALE_WIDTH == 640,
    ;
    let dh: u64 = sh as u64 * DOWNSCALE_WIDTH as u64 / sw as u64;
    assert(dh <= sh) by (nonlinear_arith)
        requires
            dh == (sh * 640) / (sw as int),
            sw > 640,
    ;
    let least: u64 = if dh == 0 {
        1
    } else {
        dh
    };
    (DOWNSCALE_WIDTH, least as u32)
}

/// A plane that is scaled down keeps its proportions up to one row: the height is the largest
/// that does not exceed them, or one.
pub proof fn downscaling_keeps_proportions(sw: u32, sh: u32)
    requires
        sw > DOWNSCALE_WIDTH,
    ensures
        ({
            let (dw, dh) = small_size(sw, sh);
            &&& dw == DOWNSCALE_WIDTH
            &&& dh >= 1
            &&& dh == 1 || dh * sw <= sh * dw
            &&& (dh + 1) * sw > sh * dw
        }),
{
    let n = sh * DOWNSCALE_WIDTH;
    let q = n / sw as int;
    assert(q * sw <= n < (q + 1) * sw && q >= 0) by (nonlinear_arith)
        requires
            q == n / sw as int,
            n >= 0,
            sw > 0,
    ;
    if q == 0 {
        assert(2 * sw > n) by (nonlinear_arith)
            requires
                n < (q + 1) * sw,
                q == 0,
                sw > 0,
        ;
    }
}

/// Why a plane cannot be imported.
#[derive(Clone, Copy, Debug, PartialEq, Eq, Structural)]
pub enum PlaneError {
    NoDmaBuf,
    ZeroDimension,
}

/// How a plane is imported: the attributes of its image, and the size to read it back in.
#[derive(Clone, Debug)]
pub struct ImportPlan {
    pub attribs: Vec<i64>,
    pub width: u32,
    pub height: u32,
}

/// The attributes of a plane's image.
pub open spec fn image_attribs(plane: KmsResponseItem) -> Seq<i64> {
    let buf = plane.dma_buf@[0];
    seq![
        EGL_WIDTH,
        plane.width as i64,
        EGL_HEIGHT,
        plane.height as i64,
        EGL_LINUX_DRM_FOURCC_EXT,
        plane.pixel_format as i64,
        EGL_DMA_BUF_PLANE0_FD_EXT,
        buf.fd as i64,
        EGL_DMA_BUF_PLANE0_OFFSET_EXT,
        buf.offset as i64,
        EGL_DMA_BUF_PLANE0_PITCH_EXT,
        buf.pitch as i64,
        EGL_DMA_BUF_PLANE0_MODIFIER_LO_EXT,
        (plane.modifier % 0x1_0000_0000) as i64,
        EGL_DMA_BUF_PLANE0_MODIFIER_HI_EXT,
        (plane.modifier / 0x1_0000_0000) as i64,
        EGL_NONE,
    ]
}

/// Plans the import of a plane's first dma-buf.
pub fn plan_import(plane: &KmsResponseItem) -> (r: Result<ImportPlan, PlaneError>)
    ensures
        match r {
            Ok(p) => {
                &&& plane.num_dma_bufs >= 1
                &&& plane.width > 0
                &&& plane.height > 0
                &&& p.attribs@ == image_attribs(*plane)
                &&& p.width == small_size(plane.width, plane.height).0
                &&& p.height == small_size(plane.width, plane.height).1
                &&& p.width <= DOWNSCALE_WIDTH
            },
            Err(PlaneError::NoDmaBuf) => plane.num_dma_bufs < 1,
            Err(PlaneError::ZeroDimension) => plane.num_dma_bufs >= 1 && (plane.width == 0
                || plane.height == 0),
        },
{
    if plane.num_dma_bufs < 1 {
        return Err(PlaneError::NoDmaBuf);
    }
    if plane.width == 0 || plane.height == 0 {
        return Err(PlaneError::ZeroDimension);
    }
    let (width, height) = downscaled_size(plane.width, plane.height);
    let buf = plane.dma_buf[0];
    let mut attribs: Vec<i64> = Vec::new();
    attribs.push(EGL_WIDTH);
    attribs.push(plane.width as i64);
    attribs.push(EGL_HEIGHT);
    attribs.push(plane.height as i64);
    attribs.push(EGL_LINUX_DRM_FOURCC_EXT);
    attribs.push(plane.pixel_format as i64);
    attribs.push(EGL_DMA_BUF_PLANE0_FD_EXT);
    attribs.push(buf.fd as i64);
    attribs.push(EGL_DMA_BUF_PLANE0_OFFSET_EXT);
    attribs.push(buf.offset as i64);
    attribs.push(EGL_DMA_BUF_PLANE0_PITCH_EXT);
    attribs.push(buf.pitch as i64);
    attribs.push(EGL_DMA_BUF_PLANE0_MODIFIER_LO_EXT);
    attribs.push((plane.modifier % 0x1_0000_0000) as i64);
    attribs.push(EGL_DMA_BUF_PLANE0_MODIFIER_HI_EXT);
    attribs.push((plane.modifier / 0x1_0000_0000) as i64);
    attribs.push(EGL_NONE);
    assert(attribs@ =~= image_attribs(*plane));
    Ok(ImportPlan { attribs, width, height })
}

/// What reading a plane back needs: the bytes of the small picture, and whether the picture has
/// to be made anew because its size has changed.
#[derive(Clone, Copy, Debug, PartialEq, Eq, Structural)]
pub struct ReadBack {
    pub bytes: u64,
    pub reallocate: bool,
}

/// The size of the small picture from one frame to the next.
#[derive(Clone, Copy, Debug)]
pub struct ReadBackSize {
    current: (u32, u32),
}

impl View for ReadBackSize {
    type V = (u32, u32);

    closed spec fn view(&self) -> (u32, u32) {
        self.current
    }
}

impl ReadBackSize {
    /// No picture yet.
    pub fn new() -> (s: ReadBackSize)
        ensures
            s@ == (0u32, 0u32),
    {
        ReadBackSize { current: (0, 0) }
    }

    /// What a picture of the given size needs.
    pub fn next(&mut self, width: u32, height: u32) -> (r: ReadBack)
        requires
            width <= DOWNSCALE_WIDTH,
        ensures
            final(self)@ == (width, height),
            r.bytes == width * height * 4,
            r.reallocate == (old(self)@ != (width, height)),
    {
        let reallocate: bool = self.current.0 != width || self.current.1 != height;
        self.current = (width, height);
        assert(width * height <= 640 * 0xFFFF_FFFF) by (nonlinear_arith)
            requires
                width <= 640,
                height <= 0xFFFF_FFFF,
        ;
        ReadBack { bytes: width as u64 * height as u64 * 4, reallocate }
    }
}

} // verus!
