//! Simplifies Windows paths in the Win32 File Namespace (`\\?\`) form.
use vstd::prelude::*;

pub mod components;
pub mod display;
pub mod drive_path;
pub mod path_ext;
pub mod simple_unc;
pub mod text;
pub mod verbatim_disk;
pub mod volume;
pub mod wide;

pub use display::Display;
pub use simple_unc::SimpleUnc;

verus! {

/// The longest path, in UTF-16 units, that the Win32 API handles without the
/// `\\?\` form.
pub const MAX_PATH: u32 = 260;

} // verus!
