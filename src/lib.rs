//! Read-only access to Compound File Binary containers: the header, the
//! sector allocation tables (DIFAT, FAT, mini FAT), the directory and the
//! contents of its streams.

pub mod common;
pub mod difat;
pub mod fat;
pub mod header;
pub mod mini_fat;
pub mod directory;
pub mod ole;
