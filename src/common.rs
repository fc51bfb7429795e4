use vstd::prelude::*;

verus! {

/// Largest value that still names a regular sector is one below this.
pub const MAX_REG_SECT: u32 = 0xFFFFFFFA;

pub const NOT_APPLICABLE: u32 = 0xFFFFFFFB;

pub const DIF_SECT: u32 = 0xFFFFFFFC;

pub const FAT_SECT: u32 = 0xFFFFFFFD;

pub const END_OF_CHAIN: u32 = 0xFFFFFFFE;

pub const FREE_SECT: u32 = 0xFFFFFFFF;

/// A sector identifier as stored on disk: either the index of a body sector
/// or one of the reserved markers.
#[derive(Debug, Clone, Copy, PartialEq, Eq, Structural)]
pub enum SectorType {
    MaxRegSect,
    NotApplicable,
    DifSect,
    FatSect,
    EndOfChain,
    FreeSect,
    RegularSect(u32),
}

impl SectorType {
    pub open spec fn is_regular(self) -> bool {
        self is RegularSect
    }

    /// The identifier that the 32-bit value `v` stands for.
    pub open spec fn decoded(v: u32) -> SectorType {
        if v < MAX_REG_SECT {
            SectorType::RegularSect(v)
        } else if v == MAX_REG_SECT {
            SectorType::MaxRegSect
        } else if v == NOT_APPLICABLE {
            SectorType::NotApplicable
        } else if v == DIF_SECT {
            SectorType::DifSect
        } else if v == FAT_SECT {
            SectorType::FatSect
        } else if v == END_OF_CHAIN {
            SectorType::EndOfChain
        } else {
            SectorType::FreeSect
        }
    }

    /// The 32-bit value stored on disk for this identifier.
    pub open spec fn encoded(self) -> u32 {
        match self {
            SectorType::MaxRegSect => MAX_REG_SECT,
            SectorType::NotApplicable => NOT_APPLICABLE,
            SectorType::DifSect => DIF_SECT,
            SectorType::FatSect => FAT_SECT,
            SectorType::EndOfChain => END_OF_CHAIN,
            SectorType::FreeSect => FREE_SECT,
            SectorType::RegularSect(v) => v,
        }
    }

    pub fn from_u32(v: u32) -> (r: SectorType)
        ensures
            r == SectorType::decoded(v),
    {
        if v < MAX_REG_SECT {
            SectorType::RegularSect(v)
        } else if v == MAX_REG_SECT {
            SectorType::MaxRegSect
        } else if v == NOT_APPLICABLE {
            SectorType::NotApplicable
        } else if v == DIF_SECT {
            SectorType::DifSect
        } else if v == FAT_SECT {
            SectorType::FatSect
        } else if v == END_OF_CHAIN {
            SectorType::EndOfChain
        } else {
            SectorType::FreeSect
        }
    }

    pub fn to_u32(&self) -> (r: u32)
        ensures
            r == self.encoded(),
    {
        match self {
            SectorType::MaxRegSect => MAX_REG_SECT,
            SectorType::NotApplicable => NOT_APPLICABLE,
            SectorType::DifSect => DIF_SECT,
            SectorType::FatSect => FAT_SECT,
            SectorType::EndOfChain => END_OF_CHAIN,
            SectorType::FreeSect => FREE_SECT,
            SectorType::RegularSect(v) => *v,
        }
    }

    pub fn is_regular_sect(&self) -> (r: bool)
        ensures
            r == self.is_regular(),
    {
        match self {
            SectorType::RegularSect(_) => true,
            _ => false,
        }
    }
}

/// Decoding a stored value and encoding it again gives the value back.
pub proof fn lemma_sector_id_round_trip(v: u32)
    ensures
        SectorType::decoded(v).encoded() == v,
{
}

impl Default for SectorType {
    fn default() -> (r: SectorType)
        ensures
            r == SectorType::EndOfChain,
    {
        SectorType::EndOfChain
    }
}

/// Minor version field; writers should store 0x003E, readers accept any value.
#[derive(Debug, Clone, Copy, PartialEq, Eq, Structural)]
pub enum MinorVersion {
    MainVersion,
}

/// Major version field: 3 (512-byte sectors) or 4 (4096-byte sectors).
#[derive(Debug, Clone, Copy, PartialEq, Eq, Structural)]
pub enum MajorVersion {
    Version3,
    Version4,
}

impl Default for MajorVersion {
    fn default() -> (r: MajorVersion)
        ensures
            r == MajorVersion::Version3,
    {
        MajorVersion::Version3
    }
}

/// Sector shift field: 9 for version 3, 12 for version 4.
#[derive(Debug, Clone, Copy, PartialEq, Eq, Structural)]
pub enum SectorShift {
    Shift9,
    Shift12,
}

impl Default for SectorShift {
    fn default() -> (r: SectorShift)
        ensures
            r == SectorShift::Shift9,
    {
        SectorShift::Shift9
    }
}

/// Ways in which opening, parsing or reading a container fails.
#[derive(Debug, Clone, Copy, PartialEq, Eq, Structural)]
pub enum OleError {
    InvalidFileFormat,
    InvalidDifat,
    IoError,
    ParseError,
    InvalidEntryIndex,
    InvalidEntrySize,
    InvalidEntryChain,
}

impl OleError {
    /// A short human-readable description of the error.
    pub fn message(&self) -> (r: &'static str) {
        match self {
            OleError::InvalidFileFormat => "Invalid File Format",
            OleError::InvalidDifat => "Invalid Difat",
            OleError::IoError => "Parse Error",
            OleError::ParseError => "Parse Error",
            OleError::InvalidEntryIndex => "Invalid Entry Index",
            OleError::InvalidEntrySize => "Invalid Entry Size",
            OleError::InvalidEntryChain => "Invalid Entry Chain",
        }
    }
}

pub type OleResult<T> = Result<T, OleError>;

/// Size in bytes of a mini sector, whatever the version.
pub const MINI_SECTOR_SIZE: usize = 64;

/// Streams shorter than this many bytes live in the mini stream.
pub const MINI_STREAM_CUTOFF: u32 = 4096;

/// Size in bytes of a normal sector.
pub open spec fn sector_size(version: MajorVersion) -> nat {
    match version {
        MajorVersion::Version3 => 512,
        MajorVersion::Version4 => 4096,
    }
}

/// Number of sector identifiers that fill one normal sector.
pub open spec fn ids_per_sector(version: MajorVersion) -> nat {
    sector_size(version) / 4
}

/// Number of 128-byte directory entries that fill one normal sector.
pub open spec fn entries_per_directory_sector(version: MajorVersion) -> nat {
    sector_size(version) / 128
}

pub fn get_sector_size(version: &MajorVersion) -> (r: usize)
    ensures
        r == sector_size(*version),
{
    match version {
        MajorVersion::Version3 => 512,
        MajorVersion::Version4 => 4096,
    }
}

pub fn get_ids_per_sector(version: &MajorVersion) -> (r: usize)
    ensures
        r == ids_per_sector(*version),
{
    get_sector_size(version) / 4
}

pub fn get_entries_per_directory_sector(version: &MajorVersion) -> (r: usize)
    ensures
        r == entries_per_directory_sector(*version),
{
    get_sector_size(version) / 128
}

/// The geometry of each version: sector size, identifiers per sector and
/// directory entries per sector.
pub proof fn lemma_geometry(version: MajorVersion)
    ensures
        version == MajorVersion::Version3 ==> sector_size(version) == 512 && ids_per_sector(
            version,
        ) == 128 && entries_per_directory_sector(version) == 4 && sector_size(version)
            / MINI_SECTOR_SIZE as nat == 8,
        version == MajorVersion::Version4 ==> sector_size(version) == 4096 && ids_per_sector(
            version,
        ) == 1024 && entries_per_directory_sector(version) == 32 && sector_size(version)
            / MINI_SECTOR_SIZE as nat == 64,
{
}

/// Little-endian 16-bit value at `off`.
pub open spec fn le_u16(b: Seq<u8>, off: int) -> u16 {
    (b[off] as int + b[off + 1] as int * 256) as u16
}

/// Little-endian 32-bit value at `off`.
pub open spec fn le_u32(b: Seq<u8>, off: int) -> u32 {
    (b[off] as int + b[off + 1] as int * 256 + b[off + 2] as int * 65536 + b[off + 3] as int
        * 16777216) as u32
}

/// Little-endian 64-bit value at `off`.
pub open spec fn le_u64(b: Seq<u8>, off: int) -> u64 {
    (le_u32(b, off) as int + le_u32(b, off + 4) as int * 4294967296) as u64
}

pub fn read_u16(b: &Vec<u8>, off: usize) -> (r: u16)
    requires
        off + 2 <= b@.len(),
    ensures
        r == le_u16(b@, off as int),
{
    let _len = b.len();
    b[off] as u16 + (b[off + 1] as u16) * 256
}

pub fn read_u32(b: &Vec<u8>, off: usize) -> (r: u32)
    requires
        off + 4 <= b@.len(),
    ensures
        r == le_u32(b@, off as int),
{
    let _len = b.len();
    b[off] as u32 + (b[off + 1] as u32) * 256 + (b[off + 2] as u32) * 65536 + (b[off + 3] as u32)
        * 16777216
}

pub fn read_u64(b: &Vec<u8>, off: usize) -> (r: u64)
    requires
        off + 8 <= b@.len(),
    ensures
        r == le_u64(b@, off as int),
{
    let _len = b.len();
    let lo = read_u32(b, off) as u64;
    let hi = read_u32(b, off + 4) as u64;
    lo + hi * 4294967296
}

/// The `n` sector identifiers stored from byte `start` on.
pub open spec fn sector_ids(b: Seq<u8>, start: int, n: nat) -> Seq<SectorType> {
    Seq::new(n, |i: int| SectorType::decoded(le_u32(b, start + 4 * i)))
}

pub fn read_sector_ids(b: &Vec<u8>, start: usize, n: usize) -> (r: Vec<SectorType>)
    requires
        start + 4 * n <= b@.len(),
    ensures
        r@ == sector_ids(b@, start as int, n as nat),
{
    let len = b.len();
    let mut r: Vec<SectorType> = Vec::with_capacity(n);
    let mut i: usize = 0;
    while i < n
        invariant
            len == b@.len(),
            i <= n,
            start + 4 * n <= b@.len(),
            r@ == sector_ids(b@, start as int, i as nat),
        decreases n - i,
    {
        let v = read_u32(b, start + 4 * i);
        r.push(SectorType::from_u32(v));
        i = i + 1;
        assert(r@ =~= sector_ids(b@, start as int, i as nat));
    }
    r
}

/// The leading run of regular identifiers: the sequence cut at its first
/// marker.
pub open spec fn valid_prefix(s: Seq<SectorType>) -> Seq<SectorType>
    decreases s.len(),
{
    if s.len() > 0 && s[0].is_regular() {
        seq![s[0]] + valid_prefix(s.drop_first())
    } else {
        Seq::empty()
    }
}

/// A cut after a run of regular identifiers that ends at the sequence's end
/// or at a marker is the valid prefix.
pub proof fn lemma_valid_prefix_take(s: Seq<SectorType>, k: int)
    requires
        0 <= k <= s.len(),
        forall|j: int| 0 <= j < k ==> (#[trigger] s[j]).is_regular(),
        k == s.len() || !s[k].is_regular(),
    ensures
        valid_prefix(s) == s.take(k),
    decreases k,
{
    if k == 0 {
        assert(s.take(0) =~= Seq::<SectorType>::empty());
    } else {
        let t = s.drop_first();
        assert forall|j: int| 0 <= j < k - 1 implies (#[trigger] t[j]).is_regular() by {
            assert(t[j] == s[j + 1]);
        }
        lemma_valid_prefix_take(t, k - 1);
        assert(seq![s[0]] + t.take(k - 1) =~= s.take(k));
    }
}

/// The valid prefix holds regular identifiers only.
pub proof fn lemma_valid_prefix_regular(s: Seq<SectorType>)
    ensures
        valid_prefix(s).len() <= s.len(),
        forall|j: int| 0 <= j < valid_prefix(s).len() ==> (#[trigger] valid_prefix(s)[j]).is_regular(),
    decreases s.len(),
{
    if s.len() > 0 && s[0].is_regular() {
        lemma_valid_prefix_regular(s.drop_first());
        let p = valid_prefix(s.drop_first());
        assert forall|j: int| 0 <= j < valid_prefix(s).len() implies (#[trigger] valid_prefix(
            s,
        )[j]).is_regular() by {
            if j > 0 {
                assert(valid_prefix(s)[j] == p[j - 1]);
            }
        }
    }
}

/// Keeps the leading regular identifiers of `entries`, up to the first marker.
pub fn get_valid_entries(entries: &Vec<SectorType>) -> (r: Vec<SectorType>)
    ensures
        r@ == valid_prefix(entries@),
        forall|j: int| 0 <= j < r@.len() ==> (#[trigger] r@[j]).is_regular(),
{
    let count = entries.len();
    let mut result: Vec<SectorType> = Vec::with_capacity(count);
    let mut i: usize = 0;
    while i < count && entries[i].is_regular_sect()
        invariant
            count == entries@.len(),
            i <= count,
            result@ == entries@.take(i as int),
            forall|j: int| 0 <= j < i ==> (#[trigger] entries@[j]).is_regular(),
        decreases count - i,
    {
        result.push(entries[i]);
        i = i + 1;
        assert(result@ =~= entries@.take(i as int));
    }
    proof {
        lemma_valid_prefix_take(entries@, i as int);
        lemma_valid_prefix_regular(entries@);
    }
    result
}

} // verus!

verus! {

/// Appends `src[start..start + len]` to `dst`.
pub fn append_bytes(dst: &mut Vec<u8>, src: &Vec<u8>, start: usize, len: usize)
    requires
        start + len <= src@.len(),
    ensures
        final(dst)@ == old(dst)@ + src@.subrange(start as int, start + len),
{
    let ghost d0 = dst@;
    let src_len = src.len();
    let mut i: usize = 0;
    while i < len
        invariant
            src_len == src@.len(),
            i <= len,
            start + len <= src@.len(),
            dst@ == d0 + src@.subrange(start as int, start + i),
        decreases len - i,
    {
        dst.push(src[start + i]);
        i = i + 1;
        assert(dst@ =~= d0 + src@.subrange(start as int, start + i));
    }
}

} // verus!
