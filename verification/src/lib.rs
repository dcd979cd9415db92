//! Merging of per-object debug string tables into a single deduplicated
//! string section, together with the rebuilding of the offset-index
//! sections that point into it.
//!
//! A `PackageStringTable` interns distinct NUL-terminated byte strings into
//! one append-only buffer; `remap_str_offsets_section` reads one object's
//! local offset-index section, fetches each referenced string from that
//! object's local string table, inserts it into the shared pool, and emits
//! a new offset-index section whose entries point into the merged buffer.

pub mod cstr;
pub mod endian;
pub mod error;
pub mod iset;
pub mod pool;
pub mod remap;

pub use endian::Endianness;
pub use error::Error;
pub use pool::PackageStringOffset;
pub use pool::PackageStringTable;
pub use remap::Format;
