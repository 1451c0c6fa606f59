//! Codec for offset tables: a flat archive that bundles numbered sub-files
//! behind a leading array of little-endian 32-bit offsets.
//!
//! A table is laid out as
//! `count | offset[0] .. offset[count-1] | total size | payload`,
//! every header word being a little-endian `u32`. A zero offset marks an
//! absent slot; a present slot ends where the next non-zero offset (or the
//! total size) begins.

pub mod layout;
pub mod decode;
pub mod encode;
pub mod names;
pub mod order;
pub mod laws;

pub use decode::{decode_slot, offset_of_end, read_header, unpack_table, UnpackError};
pub use encode::{pack_table, PackError};
pub use layout::{read_u32_le, Slot};
pub use names::{classify_name, parse_index, slot_file_name};
pub use order::{order_files, SlotFile};
