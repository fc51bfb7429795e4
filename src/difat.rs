use crate::common::{SectorType, le_u32, read_sector_ids, read_u32, sector_ids};
use crate::header::{INLINE_DIFAT_ENTRIES, INLINE_DIFAT_OFFSET};
use vstd::prelude::*;

verus! {

/// A DIFAT sector: FAT sector locations followed by the location of the next
/// DIFAT sector.
#[derive(Debug, Clone)]
pub struct Difat {
    pub entries: Vec<SectorType>,
    pub next: SectorType,
}

impl Difat {
    /// Decodes `entry_count` locations and the trailing `next` link from the
    /// start of `b`.
    pub fn decode(b: &Vec<u8>, entry_count: usize) -> (r: Difat)
        requires
            4 * entry_count + 4 <= b@.len(),
        ensures
            r.entries@ == sector_ids(b@, 0, entry_count as nat),
            r.next == SectorType::decoded(le_u32(b@, 4 * entry_count)),
    {
        let _len = b.len();
        let entries = read_sector_ids(b, 0, entry_count);
        let next = SectorType::from_u32(read_u32(b, 4 * entry_count));
        Difat { entries, next }
    }
}

/// The DIFAT entries held inline in the header.
#[derive(Debug, Clone)]
pub struct AllEntryDifat {
    pub entries: Vec<SectorType>,
}

impl AllEntryDifat {
    /// Decodes the inline DIFAT entries of the header at the start of `b`.
    pub fn decode(b: &Vec<u8>) -> (r: AllEntryDifat)
        requires
            INLINE_DIFAT_OFFSET + 4 * INLINE_DIFAT_ENTRIES <= b@.len(),
        ensures
            r.entries@ == sector_ids(b@, INLINE_DIFAT_OFFSET as int, INLINE_DIFAT_ENTRIES as nat),
    {
        AllEntryDifat { entries: read_sector_ids(b, INLINE_DIFAT_OFFSET, INLINE_DIFAT_ENTRIES) }
    }
}

} // verus!
