pub mod layout;
pub mod writer;

pub use layout::{FormatError, Kind};
pub use writer::{archive_fits, build_archive, calc_table_size, sort_files, table_record_size};
pub use writer::{Entry, FileData};

use vstd::prelude::*;

verus! {

/// Length in bytes of the fixed archive header: a 4-byte magic tag,
/// a 4-byte reserved size field, a 4-byte entry count and a 4-byte
/// data-start offset.
pub const HEADER_LEN: u32 = 16;

} // verus!
