//! The aggregate root: both resource registries and the registration paths.
//! Device handles and the compute submission itself live with the caller's
//! device layer; the processor owns everything the engine can decide.

use vstd::prelude::*;

use crate::errors::{LutError, ResourceKind};
use crate::formats::cube::{combine_spec, fault_of, CubeScan};
use crate::layout::{
    expand_rgb, expand_rgb_words, lemma_expand_rgb_words_layout, pack_rows, pack_rows_spec,
    unpack_rows, unpack_rows_spec,
};
use crate::registry::{
    lut_map_contains, lut_map_get, lut_map_insert, lut_map_new, lut_map_remove, lut_map_view,
    sampler_map_get, sampler_map_insert, sampler_map_new, sampler_map_view, FilterMode, LutEntry,
};
use crate::utils::{spec_padded_bytes_per_row, BufferAlign};

verus! {

/// Byte length of a dense RGBA float32 volume of cubic edge `dim`.
pub open spec fn spec_rgba_bytes_len(dim: u32) -> int {
    dim * dim * dim * 16
}

/// Word count of a packed RGB float32 volume of cubic edge `dim`.
pub open spec fn spec_rgb_words_len(dim: u32) -> int {
    dim * dim * dim * 3
}

/// A registry entry is well formed when its byte volume matches its declared
/// dimension.
pub open spec fn lut_entry_wf(e: (u32, Seq<u8>)) -> bool {
    e.1.len() == spec_rgba_bytes_len(e.0)
}

/// Relies on str's PartialEq: two string slices are equal exactly when their
/// character sequences are.
#[verifier::external_body]
pub(crate) fn str_eq(a: &str, b: &str) -> (r: bool)
    ensures
        r <==> a@ == b@,
{
    a == b
}

/// The LUT processing engine: the named-LUT registry and the named-sampler
/// registry. Both registries are concurrent maps; the device work of a
/// processing request is driven by the caller's device layer from a
/// [`ProcessPlan`].
#[derive(Debug)]
pub struct Processor {
    samplers: dashmap::DashMap<String, FilterMode>,
    luts: dashmap::DashMap<String, LutEntry>,
}

impl Processor {
    /// The LUT registry: name to (dimension, volume bytes).
    pub closed spec fn luts_view(&self) -> Map<Seq<char>, (u32, Seq<u8>)> {
        lut_map_view(self.luts)
    }

    /// The sampler registry: name to filter mode.
    pub closed spec fn samplers_view(&self) -> Map<Seq<char>, FilterMode> {
        sampler_map_view(self.samplers)
    }

    /// Every registered LUT's byte volume matches its declared dimension:
    /// a mismatched entry is never observable after construction.
    pub open spec fn wf(&self) -> bool {
        forall|k: Seq<char>|
            self.luts_view().dom().contains(k) ==> lut_entry_wf(#[trigger] self.luts_view()[k])
    }

    /// A fresh engine: no LUTs, and exactly the two seeded samplers,
    /// `"nearest"` and `"linear"`.
    pub fn new() -> (p: Processor)
        ensures
            p.luts_view() == crate::registry::empty_lut_map(),
            p.samplers_view() == crate::registry::empty_sampler_map().insert(
                "nearest"@,
                FilterMode::Nearest,
            ).insert("linear"@, FilterMode::Linear),
            p.wf(),
    {
        let mut samplers = sampler_map_new();
        sampler_map_insert(&mut samplers, "nearest", FilterMode::Nearest);
        sampler_map_insert(&mut samplers, "linear", FilterMode::Linear);
        let luts = lut_map_new();
        Processor { samplers, luts }
    }

    /// Registers a pre-expanded RGBA float32 volume under `name`,
    /// unconditionally replacing any entry of that name. Fails, changing
    /// nothing, exactly when the buffer length is not `dim^3 * 16` bytes.
    pub fn add_lut_raw_alpha(&mut self, name: &str, dim: u32, lut: &[u8]) -> (r: Result<
        (),
        LutError,
    >)
        ensures
            final(self).samplers_view() == old(self).samplers_view(),
            old(self).wf() ==> final(self).wf(),
            match r {
                Ok(u) => lut@.len() == spec_rgba_bytes_len(dim) && final(self).luts_view() == old(
                    self,
                ).luts_view().insert(name@, (dim, lut@)),
                Err(e) => e == (LutError::SizeMismatch { dim: dim, len: lut@.len() as usize })
                    && lut@.len() != spec_rgba_bytes_len(dim) && final(self).luts_view() == old(
                    self,
                ).luts_view(),
            },
    {
        let d = dim as u128;
        proof {
            assert(d * d < u128::MAX && d * d * d < u128::MAX && d * d * d * 16 < u128::MAX)
                by (nonlinear_arith)
                requires
                    d < 0x1_0000_0000,
            ;
        }
        let expected = d * d * d * 16;
        if (lut.len() as u128) != expected {
            return Err(LutError::SizeMismatch { dim, len: lut.len() });
        }
        let entry = LutEntry { dim, bytes: vstd::slice::slice_to_vec(lut) };
        lut_map_insert(&mut self.luts, name, entry);
        proof {
            if old(self).wf() {
                assert forall|k: Seq<char>| self.luts_view().dom().contains(k) implies lut_entry_wf(
                    self.luts_view()[k],
                ) by {
                    if k != name@ {
                        assert(old(self).luts_view().dom().contains(k));
                        assert(lut_entry_wf(old(self).luts_view()[k]));
                    }
                }
            }
        }
        Ok(())
    }

    /// Registers a packed RGB float32 volume (channel words, no alpha) under
    /// `name`: each triple is expanded to RGBA with alpha forced to 1.0, then
    /// stored as by [`Self::add_lut_raw_alpha`]. Fails, changing nothing,
    /// exactly when the word count is not `dim^3 * 3`.
    pub fn add_lut_raw(&mut self, name: &str, dim: u32, lut: &[u32]) -> (r: Result<(), LutError>)
        ensures
            final(self).samplers_view() == old(self).samplers_view(),
            old(self).wf() ==> final(self).wf(),
            match r {
                Ok(u) => lut@.len() == spec_rgb_words_len(dim) && final(self).luts_view() == old(
                    self,
                ).luts_view().insert(name@, (dim, expand_rgb_words(lut@))),
                Err(e) => e == (LutError::SizeMismatch { dim: dim, len: lut@.len() as usize })
                    && lut@.len() != spec_rgb_words_len(dim) && final(self).luts_view() == old(
                    self,
                ).luts_view(),
            },
    {
        let d = dim as u128;
        proof {
            assert(d * d < u128::MAX && d * d * d < u128::MAX && d * d * d * 3 < u128::MAX)
                by (nonlinear_arith)
                requires
                    d < 0x1_0000_0000,
            ;
        }
        let expected = d * d * d * 3;
        if (lut.len() as u128) != expected {
            return Err(LutError::SizeMismatch { dim, len: lut.len() });
        }
        let data = expand_rgb(lut);
        proof {
            lemma_expand_rgb_words_layout(lut@);
            assert((3 * (dim * dim * dim) as int) / 3 == (dim * dim * dim) as int) by (
            nonlinear_arith);
            assert(data@.len() == spec_rgba_bytes_len(dim));
        }
        let res = self.add_lut_raw_alpha(name, dim, data.as_slice());
        proof {
            assert(res is Ok);
        }
        match res {
            Ok(u) => Ok(()),
            Err(e) => Err(e),
        }
    }

    /// Removes and releases the LUT under `name`; removing an unknown name
    /// changes nothing.
    pub fn del_lut(&mut self, name: &str)
        ensures
            final(self).luts_view() == old(self).luts_view().remove(name@),
            final(self).samplers_view() == old(self).samplers_view(),
            old(self).wf() ==> final(self).wf(),
    {
        lut_map_remove(&mut self.luts, name);
        proof {
            if old(self).wf() {
                assert forall|k: Seq<char>| self.luts_view().dom().contains(k) implies lut_entry_wf(
                    self.luts_view()[k],
                ) by {
                    assert(old(self).luts_view().dom().contains(k));
                }
            }
        }
    }

    /// Looks the LUT registry up; returns a copy of the entry under `name`,
    /// if any.
    pub fn get_lut(&self, name: &str) -> (r: Option<LutEntry>)
        ensures
            r is Some <==> self.luts_view().dom().contains(name@),
            r is Some ==> (r->0.dim, r->0.bytes@) == self.luts_view()[name@],
    {
        lut_map_get(&self.luts, name)
    }

    /// Looks the sampler registry up; returns the filter mode under `name`,
    /// if any.
    pub fn get_sampler(&self, name: &str) -> (r: Option<FilterMode>)
        ensures
            r is Some <==> self.samplers_view().dom().contains(name@),
            r is Some ==> r->0 == self.samplers_view()[name@],
    {
        sampler_map_get(&self.samplers, name)
    }
}


/// A pixel format the dispatcher accepts for input images. Every one of them
/// takes four bytes per pixel.
#[derive(Debug, Clone, Copy, PartialEq, Eq, Structural)]
pub enum PixelFormat {
    Rgba8,
    Bgra8,
    Rgb10a2,
}

/// The pixel format a format name denotes, if any.
pub open spec fn spec_pixel_format(s: Seq<char>) -> Option<PixelFormat> {
    if s == "rgba8"@ {
        Option::Some(PixelFormat::Rgba8)
    } else if s == "bgra8"@ {
        Option::Some(PixelFormat::Bgra8)
    } else if s == "rgb10a2"@ {
        Option::Some(PixelFormat::Rgb10a2)
    } else {
        Option::None
    }
}

/// Edge length of the fixed-size square workgroups the kernel is dispatched
/// in; the grid is over-dispatched by one workgroup per axis, and the kernel
/// bounds-checks its own coordinate.
pub const WORKGROUP_SIZE: u32 = 32;

/// Everything the device layer needs to run one processing request: the
/// chosen sampler and LUT volume, the working texture's format and extent,
/// the two row strides, the input rows already packed at the padded stride,
/// and the workgroup counts of the dispatch.
#[derive(Debug)]
pub struct ProcessPlan {
    pub filter: FilterMode,
    pub lut_dim: u32,
    pub lut_bytes: Vec<u8>,
    pub format: PixelFormat,
    pub width: u32,
    pub height: u32,
    pub unpadded_bytes_per_row: u32,
    pub padded_bytes_per_row: u32,
    pub staging: Vec<u8>,
    pub groups_x: u32,
    pub groups_y: u32,
}

impl Processor {
    /// Validates a processing request and stages its input: checks the pixel
    /// format, looks the sampler and the LUT up (failing before any device
    /// work, with the caller's buffer untouched), computes the row
    /// alignment, and packs each input row at the padded stride. The device
    /// layer runs the plan; [`finish_process`] copies its output back.
    pub fn begin_process(
        &self,
        lutname: &str,
        sampler: &str,
        format: &str,
        width: u32,
        height: u32,
        data: &Vec<u8>,
    ) -> (r: Result<ProcessPlan, LutError>)
        requires
            spec_padded_bytes_per_row(width, 4) <= u32::MAX,
            spec_padded_bytes_per_row(width, 4) * height <= usize::MAX,
        ensures
            match r {
                Ok(plan) => {
                    &&& spec_pixel_format(format@) == Option::Some(plan.format)
                    &&& self.samplers_view().dom().contains(sampler@)
                    &&& plan.filter == self.samplers_view()[sampler@]
                    &&& self.luts_view().dom().contains(lutname@)
                    &&& (plan.lut_dim, plan.lut_bytes@) == self.luts_view()[lutname@]
                    &&& data@.len() == width * 4 * height
                    &&& plan.width == width
                    &&& plan.height == height
                    &&& plan.unpadded_bytes_per_row == width * 4
                    &&& plan.padded_bytes_per_row == spec_padded_bytes_per_row(width, 4)
                    &&& plan.staging@ == pack_rows_spec(
                        data@,
                        width * 4,
                        spec_padded_bytes_per_row(width, 4),
                        height as int,
                    )
                    &&& plan.staging@.len() == spec_padded_bytes_per_row(width, 4) * height
                    &&& plan.groups_x == width / WORKGROUP_SIZE + 1
                    &&& plan.groups_y == height / WORKGROUP_SIZE + 1
                },
                Err(e) => {
                    if spec_pixel_format(format@) is None {
                        e matches LutError::UnsupportedFormat { format: f } && f@ == format@
                    } else if !self.samplers_view().dom().contains(sampler@) {
                        e matches LutError::NotFound { kind, name } && kind
                            == ResourceKind::Sampler && name@ == sampler@
                    } else if !self.luts_view().dom().contains(lutname@) {
                        e matches LutError::NotFound { kind, name } && kind == ResourceKind::Lut
                            && name@ == lutname@
                    } else {
                        &&& data@.len() != width * 4 * height
                        &&& e matches LutError::SizeMismatch { dim, len } && dim == width && len
                            == data@.len()
                    }
                },
            },
    {
        let pf = if str_eq(format, "rgba8") {
            Some(PixelFormat::Rgba8)
        } else if str_eq(format, "bgra8") {
            Some(PixelFormat::Bgra8)
        } else if str_eq(format, "rgb10a2") {
            Some(PixelFormat::Rgb10a2)
        } else {
            None
        };
        let pixel_format = match pf {
            Some(p) => p,
            None => {
                return Err(LutError::UnsupportedFormat { format: format.to_owned() });
            },
        };
        let filter = match self.get_sampler(sampler) {
            Some(f) => f,
            None => {
                return Err(
                    LutError::NotFound { kind: ResourceKind::Sampler, name: sampler.to_owned() },
                );
            },
        };
        let entry = match lut_map_get(&self.luts, lutname) {
            Some(e) => e,
            None => {
                return Err(
                    LutError::NotFound { kind: ResourceKind::Lut, name: lutname.to_owned() },
                );
            },
        };
        proof {
            let w = width as u128;
            let h = height as u128;
            assert(w * 4 < u128::MAX && w * 4 * h < u128::MAX) by (nonlinear_arith)
                requires
                    w < 0x1_0000_0000,
                    h < 0x1_0000_0000,
            ;
        }
        let expected: u128 = (width as u128) * 4 * (height as u128);
        if (data.len() as u128) != expected {
            return Err(LutError::SizeMismatch { dim: width, len: data.len() });
        }
        let align = BufferAlign::new(width, 4);
        let unpadded = align.unpadded_bytes_per_row;
        let padded = align.padded_bytes_per_row;
        proof {
            assert(unpadded * height == width * 4 * height) by (nonlinear_arith)
                requires
                    unpadded == width * 4,
            ;
        }
        let staging = pack_rows(
            data.as_slice(),
            unpadded as usize,
            padded as usize,
            height as usize,
        );
        Ok(
            ProcessPlan {
                filter,
                lut_dim: entry.dim,
                lut_bytes: entry.bytes,
                format: pixel_format,
                width,
                height,
                unpadded_bytes_per_row: unpadded,
                padded_bytes_per_row: padded,
                staging,
                groups_x: width / WORKGROUP_SIZE + 1,
                groups_y: height / WORKGROUP_SIZE + 1,
            },
        )
    }

    /// Registers a LUT parsed from text under `name`. Registration is
    /// idempotent: an existing name is left exactly as it was, with success.
    /// Only the `cube` format is known. The caller scans the text with
    /// [`crate::formats::cube::scan`] and converts the scanned tokens to
    /// float bits; this method decides everything else.
    pub fn add_lut(
        &mut self,
        name: &str,
        format: &str,
        scan: CubeScan,
        bits: &[Option<u32>],
    ) -> (r: Result<(), LutError>)
        requires
            bits@.len() == scan.tokens@.len(),
            scan.tokens@.len() % 3 == 0,
            scan.dim <= 65535,
            scan.dim == 0 || scan.dim >= 2,
        ensures
            final(self).samplers_view() == old(self).samplers_view(),
            old(self).wf() ==> final(self).wf(),
            ({
                let c = combine_spec(
                    scan.dim,
                    scan.tokens@.map_values(|t: Vec<u8>| t@),
                    match scan.fault {
                        Option::Some(e) => Option::Some(fault_of(e)),
                        Option::None => Option::None,
                    },
                    bits@,
                );
                match r {
                    Ok(u) => {
                        if old(self).luts_view().dom().contains(name@) {
                            final(self).luts_view() == old(self).luts_view()
                        } else {
                            &&& format@ == "cube"@
                            &&& c is Ok
                            &&& final(self).luts_view() == old(self).luts_view().insert(
                                name@,
                                (c->Ok_0.0, c->Ok_0.1),
                            )
                        }
                    },
                    Err(e) => {
                        &&& !old(self).luts_view().dom().contains(name@)
                        &&& final(self).luts_view() == old(self).luts_view()
                        &&& if format@ != "cube"@ {
                            e matches LutError::UnsupportedFormat { format: f } && f@ == format@
                        } else {
                            &&& c is Err
                            &&& e matches LutError::Format(fe) && fault_of(fe) == c->Err_0
                        }
                    },
                }
            }),
    {
        if lut_map_contains(&self.luts, name) {
            return Ok(());
        }
        if !str_eq(format, "cube") {
            return Err(LutError::UnsupportedFormat { format: format.to_owned() });
        }
        match crate::formats::cube::parse(scan, bits) {
            Err(fe) => Err(LutError::Format(fe)),
            Ok(parsed) => {
                let (dim, volume) = parsed;
                let res = self.add_lut_raw_alpha(name, dim, volume.as_slice());
                proof {
                    assert(res is Ok);
                }
                match res {
                    Ok(u) => Ok(()),
                    Err(e) => Err(e),
                }
            },
        }
    }
}

/// Copies a finished request's device output back into the caller's buffer
/// in place, row by row from the padded stride to the tight one; bytes past
/// the image keep their value.
pub fn finish_process(plan: &ProcessPlan, device_out: &[u8], data: &mut Vec<u8>)
    requires
        plan.unpadded_bytes_per_row <= plan.padded_bytes_per_row,
        device_out@.len() == plan.padded_bytes_per_row * plan.height,
        old(data)@.len() >= plan.unpadded_bytes_per_row * plan.height,
    ensures
        final(data)@ == unpack_rows_spec(
            old(data)@,
            device_out@,
            plan.unpadded_bytes_per_row as int,
            plan.padded_bytes_per_row as int,
            plan.height as int,
        ),
{
    unpack_rows(
        device_out,
        plan.unpadded_bytes_per_row as usize,
        plan.padded_bytes_per_row as usize,
        plan.height as usize,
        data,
    );
}


/// The two raw registration paths agree: for a packed RGB volume of the
/// right length, registering it stores, under the same name, exactly the
/// bytes that the pre-expanded RGBA path stores -- byte-identical up to the
/// alpha words the expansion forces to 1.0 (their layout is
/// [`lemma_expand_rgb_words_layout`]).
pub proof fn lemma_raw_equals_alpha_path(
    reg: Map<Seq<char>, (u32, Seq<u8>)>,
    name: Seq<char>,
    dim: u32,
    words: Seq<u32>,
    rgba: Seq<u8>,
)
    requires
        words.len() == spec_rgb_words_len(dim),
        rgba == expand_rgb_words(words),
    ensures
        reg.insert(name, (dim, expand_rgb_words(words))) == reg.insert(name, (dim, rgba)),
        rgba.len() == spec_rgba_bytes_len(dim),
{
    lemma_expand_rgb_words_layout(words);
    assert((3 * (dim * dim * dim) as int) / 3 == (dim * dim * dim) as int) by (nonlinear_arith);
}

} // verus!
