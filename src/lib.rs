//! Conversion of a 16-colour indexed image into XBin character graphics:
//! palette derivation, two-colour block reduction and the file layout.

pub mod block;
pub mod matcher;
pub mod palette;
pub mod xbin;

pub use block::{break_into_chunks, BlockError, Chunk, DistanceTable};
pub use matcher::{find_closest, MatchError};
pub use palette::{Color, Palettes};
pub use xbin::{chunks_to_bytes, palette_to_bytes, xbin_bytes};
