use crate::common::{SectorType, read_sector_ids, sector_ids};
use vstd::prelude::*;

verus! {

/// One FAT sector: the next-sector link of each sector it covers.
#[derive(Debug, Clone)]
pub struct Fat {
    pub entries: Vec<SectorType>,
}

impl Fat {
    /// Decodes `entry_count` links from the start of `b`.
    pub fn decode(b: &Vec<u8>, entry_count: usize) -> (r: Fat)
        requires
            4 * entry_count <= b@.len(),
        ensures
            r.entries@ == sector_ids(b@, 0, entry_count as nat),
    {
        Fat { entries: read_sector_ids(b, 0, entry_count) }
    }
}

} // verus!
