//! GPU-resident 3D colour lookup table (LUT) engine: named LUT and sampler
//! registries, the `.cube` text parser, the byte-alignment arithmetic for
//! host/device transfers, and the planning and row-copy steps of the compute
//! dispatch path. The device layer (adapter acquisition, texture and buffer
//! allocation, command submission) sits outside this crate and is driven
//! from the plans the engine produces.

pub mod errors;
pub mod formats;
pub mod layout;
pub mod processor;
pub mod registry;
pub mod utils;

pub use errors::{FormatError, LutError, ResourceKind};
pub use processor::{finish_process, PixelFormat, ProcessPlan, Processor, WORKGROUP_SIZE};
pub use registry::{FilterMode, LutEntry};
