use crate::common::{
    MajorVersion, MinorVersion, OleError, OleResult, SectorType, le_u16, le_u32, read_u16, read_u32,
    MINI_STREAM_CUTOFF,
};
use vstd::prelude::*;

verus! {

/// Size in bytes of the fixed header, whatever the version.
pub const HEADER_SIZE: usize = 512;

/// Byte offset of the first inline DIFAT entry in the header.
pub const INLINE_DIFAT_OFFSET: usize = 76;

/// Number of DIFAT entries held inline in the header.
pub const INLINE_DIFAT_ENTRIES: usize = 109;

/// The decoded fixed header of a container.
#[derive(Debug, Clone, Copy, PartialEq, Eq, Structural)]
pub struct Header {
    pub minor_version: MinorVersion,
    pub major_version: MajorVersion,
    pub sector_shift: u16,
    pub mini_sector_shift: u16,
    pub number_of_directory_sectors: u32,
    pub number_of_fat_sectors: u32,
    pub first_directory_sector_location: SectorType,
    pub transaction_signature_number: u32,
    pub mini_stream_cutoff_size: u32,
    pub first_mini_fat_sector_location: SectorType,
    pub number_of_mini_fat_sectors: u32,
    pub first_difat_sector_location: SectorType,
    pub number_of_difat_sectors: u32,
}

/// The eight signature bytes that open every container.
pub open spec fn magic_ok(b: Seq<u8>) -> bool {
    b[0] == 0xD0u8 && b[1] == 0xCFu8 && b[2] == 0x11u8 && b[3] == 0xE0u8 && b[4] == 0xA1u8 && b[5]
        == 0xB1u8 && b[6] == 0x1Au8 && b[7] == 0xE1u8
}

pub open spec fn zero_between(b: Seq<u8>, start: int, end: int) -> bool {
    forall|i: int| start <= i < end ==> b[i] == 0u8
}

/// The major version that the stored value names, if any.
pub open spec fn version_of(v: u16) -> Option<MajorVersion> {
    if v == 3 {
        Some(MajorVersion::Version3)
    } else if v == 4 {
        Some(MajorVersion::Version4)
    } else {
        None
    }
}

/// The sector shift that a version demands.
pub open spec fn shift_of(version: MajorVersion) -> u16 {
    match version {
        MajorVersion::Version3 => 9,
        MajorVersion::Version4 => 12,
    }
}

/// Whether the first 512 bytes of `b` hold a well-formed header.
pub open spec fn header_ok(b: Seq<u8>) -> bool {
    &&& b.len() >= HEADER_SIZE
    &&& magic_ok(b)
    &&& zero_between(b, 8, 24)
    &&& version_of(le_u16(b, 26)) is Some
    &&& le_u16(b, 28) == 0xFFFEu16
    &&& le_u16(b, 30) == shift_of(version_of(le_u16(b, 26))->0)
    &&& le_u16(b, 32) == 6u16
    &&& zero_between(b, 34, 40)
    &&& (le_u16(b, 26) == 3 ==> le_u32(b, 40) == 0u32)
    &&& le_u32(b, 56) == MINI_STREAM_CUTOFF
}

/// The header that the first 512 bytes of `b` encode.
pub open spec fn header_of(b: Seq<u8>) -> Header {
    Header {
        minor_version: MinorVersion::MainVersion,
        major_version: if le_u16(b, 26) == 3 {
            MajorVersion::Version3
        } else {
            MajorVersion::Version4
        },
        sector_shift: le_u16(b, 30),
        mini_sector_shift: le_u16(b, 32),
        number_of_directory_sectors: le_u32(b, 40),
        number_of_fat_sectors: le_u32(b, 44),
        first_directory_sector_location: SectorType::decoded(le_u32(b, 48)),
        transaction_signature_number: le_u32(b, 52),
        mini_stream_cutoff_size: le_u32(b, 56),
        first_mini_fat_sector_location: SectorType::decoded(le_u32(b, 60)),
        number_of_mini_fat_sectors: le_u32(b, 64),
        first_difat_sector_location: SectorType::decoded(le_u32(b, 68)),
        number_of_difat_sectors: le_u32(b, 72),
    }
}

/// The outcome of decoding the header at the start of `b`.
pub open spec fn decode_header_spec(b: Seq<u8>) -> OleResult<Header> {
    if b.len() < HEADER_SIZE {
        Err(OleError::ParseError)
    } else if !header_ok(b) {
        Err(OleError::InvalidFileFormat)
    } else {
        Ok(header_of(b))
    }
}

fn all_zero(b: &Vec<u8>, start: usize, end: usize) -> (r: bool)
    requires
        start <= end <= b@.len(),
    ensures
        r == zero_between(b@, start as int, end as int),
{
    let mut i: usize = start;
    while i < end
        invariant
            start <= i <= end <= b@.len(),
            zero_between(b@, start as int, i as int),
        decreases end - i,
    {
        if b[i] != 0 {
            return false;
        }
        i = i + 1;
    }
    true
}

impl Header {
    /// Decodes and checks the fixed header at the start of `b`.
    pub fn decode(b: &Vec<u8>) -> (r: OleResult<Header>)
        ensures
            r == decode_header_spec(b@),
    {
        if b.len() < HEADER_SIZE {
            return Err(OleError::ParseError);
        }
        let magic = b[0] == 0xD0 && b[1] == 0xCF && b[2] == 0x11 && b[3] == 0xE0 && b[4] == 0xA1
            && b[5] == 0xB1 && b[6] == 0x1A && b[7] == 0xE1;
        if !magic || !all_zero(b, 8, 24) {
            return Err(OleError::InvalidFileFormat);
        }
        let major = read_u16(b, 26);
        let major_version = if major == 3 {
            MajorVersion::Version3
        } else if major == 4 {
            MajorVersion::Version4
        } else {
            return Err(OleError::InvalidFileFormat);
        };
        let shift: u16 = if major == 3 {
            9
        } else {
            12
        };
        if read_u16(b, 28) != 0xFFFE || read_u16(b, 30) != shift || read_u16(b, 32) != 6
            || !all_zero(b, 34, 40) {
            return Err(OleError::InvalidFileFormat);
        }
        if major == 3 && read_u32(b, 40) != 0 {
            return Err(OleError::InvalidFileFormat);
        }
        if read_u32(b, 56) != MINI_STREAM_CUTOFF {
            return Err(OleError::InvalidFileFormat);
        }
        Ok(
            Header {
                minor_version: MinorVersion::MainVersion,
                major_version,
                sector_shift: read_u16(b, 30),
                mini_sector_shift: read_u16(b, 32),
                number_of_directory_sectors: read_u32(b, 40),
                number_of_fat_sectors: read_u32(b, 44),
                first_directory_sector_location: SectorType::from_u32(read_u32(b, 48)),
                transaction_signature_number: read_u32(b, 52),
                mini_stream_cutoff_size: read_u32(b, 56),
                first_mini_fat_sector_location: SectorType::from_u32(read_u32(b, 60)),
                number_of_mini_fat_sectors: read_u32(b, 64),
                first_difat_sector_location: SectorType::from_u32(read_u32(b, 68)),
                number_of_difat_sectors: read_u32(b, 72),
            },
        )
    }

    /// A short description of the header.
    pub fn describe(&self) -> (r: &'static str) {
        match self.major_version {
            MajorVersion::Version3 => "version: Version3",
            MajorVersion::Version4 => "version: Version4",
        }
    }
}

} // verus!
