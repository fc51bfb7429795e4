use crate::common::{SectorType, read_sector_ids, sector_ids};
use vstd::prelude::*;

verus! {

/// Size in bytes of a mini sector.
pub const MINI_FAT_SECTOR_SIZE: u16 = 64;

/// One mini FAT sector: the next-mini-sector link of each mini sector it
/// covers.
#[derive(Debug, Clone)]
pub struct MiniFat {
    pub entries: Vec<SectorType>,
}

impl MiniFat {
    /// Decodes `entry_count` links from the start of `b`.
    pub fn decode(b: &Vec<u8>, entry_count: usize) -> (r: MiniFat)
        requires
            4 * entry_count <= b@.len(),
        ensures
            r.entries@ == sector_ids(b@, 0, entry_count as nat),
    {
        MiniFat { entries: read_sector_ids(b, 0, entry_count) }
    }
}

} // verus!
