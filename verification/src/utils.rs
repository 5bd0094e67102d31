//! Buffer alignment arithmetic for host/device row transfers.

use vstd::prelude::*;

verus! {

/// Transfer granularity, in bytes, that the GPU transfer interface mandates
/// for the start of each row in a staging buffer (the backend's
/// `COPY_BYTES_PER_ROW_ALIGNMENT`, a power of two).
pub const ROW_ALIGN: u32 = 256;

/// Tight (unpadded) byte width of one row of `width` texels.
pub open spec fn spec_unpadded_bytes_per_row(width: u32, bytes_per_pixel: u32) -> int {
    width * bytes_per_pixel
}

/// Unpadded row width rounded up to the next multiple of `ROW_ALIGN`.
pub open spec fn spec_padded_bytes_per_row(width: u32, bytes_per_pixel: u32) -> int {
    let unpadded = spec_unpadded_bytes_per_row(width, bytes_per_pixel);
    unpadded + (ROW_ALIGN - unpadded % (ROW_ALIGN as int)) % (ROW_ALIGN as int)
}

/// Row stride bookkeeping for one host/device copy: row `n` of device-side
/// staging memory starts at byte `n * padded_bytes_per_row`, while the
/// caller's buffer packs rows at `unpadded_bytes_per_row`.
pub struct BufferAlign {
    pub width: u32,
    pub unpadded_bytes_per_row: u32,
    pub padded_bytes_per_row: u32,
}

impl BufferAlign {
    pub fn new(width: u32, bytes_per_pixel: u32) -> (r: Self)
        requires
            spec_padded_bytes_per_row(width, bytes_per_pixel) <= u32::MAX,
        ensures
            r.width == width,
            r.unpadded_bytes_per_row == spec_unpadded_bytes_per_row(width, bytes_per_pixel),
            r.padded_bytes_per_row == spec_padded_bytes_per_row(width, bytes_per_pixel),
            r.unpadded_bytes_per_row <= r.padded_bytes_per_row,
            r.padded_bytes_per_row % ROW_ALIGN == 0,
            r.unpadded_bytes_per_row % ROW_ALIGN == 0 ==> r.padded_bytes_per_row
                == r.unpadded_bytes_per_row,
            r.padded_bytes_per_row < r.unpadded_bytes_per_row + ROW_ALIGN,
    {
        let unpadded_bytes_per_row = width * bytes_per_pixel;
        let align: u32 = ROW_ALIGN;
        let padded_bytes_per_row_padding = (align - unpadded_bytes_per_row % align) % align;
        let padded_bytes_per_row = unpadded_bytes_per_row + padded_bytes_per_row_padding;
        Self { width, unpadded_bytes_per_row, padded_bytes_per_row }
    }
}

} // verus!
