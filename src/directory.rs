use crate::common::{
    OleError, OleResult, SectorType, append_bytes, le_u16, le_u32, le_u64, read_u16, read_u32,
    read_u64,
};
use vstd::prelude::*;

verus! {

/// Size in bytes of one directory entry on disk.
pub const ENTRY_SIZE: usize = 128;

/// Size in bytes of the name buffer of a directory entry.
pub const NAME_SIZE: usize = 64;

/// Stored in a sibling or child field when there is no such entry.
pub const NO_STREAM: u32 = 0xFFFFFFFF;

/// The kind of object that a directory entry describes.
#[derive(Debug, Clone, Copy, PartialEq, Eq, Structural)]
pub enum ObjectType {
    Unknown,
    Storage,
    Stream,
    RootStorage,
}

impl ObjectType {
    pub open spec fn spec_decode(v: u8) -> Option<ObjectType> {
        if v == 0 {
            Some(ObjectType::Unknown)
        } else if v == 1 {
            Some(ObjectType::Storage)
        } else if v == 2 {
            Some(ObjectType::Stream)
        } else if v == 5 {
            Some(ObjectType::RootStorage)
        } else {
            None
        }
    }

    pub fn decode(v: u8) -> (r: Option<ObjectType>)
        ensures
            r == ObjectType::spec_decode(v),
    {
        if v == 0 {
            Some(ObjectType::Unknown)
        } else if v == 1 {
            Some(ObjectType::Storage)
        } else if v == 2 {
            Some(ObjectType::Stream)
        } else if v == 5 {
            Some(ObjectType::RootStorage)
        } else {
            None
        }
    }

    pub fn describe(&self) -> (r: &'static str) {
        match self {
            ObjectType::Unknown => "unknown",
            ObjectType::Storage => "storage",
            ObjectType::Stream => "stream",
            ObjectType::RootStorage => "root storage",
        }
    }
}

/// The red-black tree colour of a directory entry.
#[derive(Debug, Clone, Copy, PartialEq, Eq, Structural)]
pub enum Color {
    Red,
    Black,
}

impl Color {
    pub open spec fn spec_decode(v: u8) -> Option<Color> {
        if v == 0 {
            Some(Color::Red)
        } else if v == 1 {
            Some(Color::Black)
        } else {
            None
        }
    }

    pub fn decode(v: u8) -> (r: Option<Color>)
        ensures
            r == Color::spec_decode(v),
    {
        if v == 0 {
            Some(Color::Red)
        } else if v == 1 {
            Some(Color::Black)
        } else {
            None
        }
    }

    pub fn describe(&self) -> (r: &'static str) {
        match self {
            Color::Red => "red",
            Color::Black => "black",
        }
    }
}

/// What String::from_utf16_lossy makes of a sequence of UTF-16 code units.
pub uninterp spec fn utf16_lossy(units: Seq<u16>) -> Seq<char>;

/// Relies on String::from_utf16_lossy: decodes UTF-16, putting U+FFFD in
/// place of each unpaired surrogate; no units give the empty string, and
/// units outside the surrogate range 0xD800..=0xDFFF are each the character
/// of the same value.
#[verifier::external_body]
fn string_from_utf16(units: &Vec<u16>) -> (r: String)
    ensures
        r@ == utf16_lossy(units@),
        units@.len() == 0 ==> r@.len() == 0,
        (forall|i: int| 0 <= i < units@.len() ==> !(0xD800 <= #[trigger] units@[i] <= 0xDFFF))
            ==> r@.len() == units@.len() && forall|i: int|
            0 <= i < units@.len() ==> #[trigger] (r@[i] as u32) == units@[i] as u32,
{
    String::from_utf16_lossy(units)
}

/// A directory entry, with the sector chain of its data once the container
/// has been parsed.
#[derive(Debug, Clone)]
pub struct Entry {
    pub name: Vec<u8>,
    pub name_length: u16,
    pub object_type: ObjectType,
    pub color: Color,
    pub left_sibling_id: SectorType,
    pub right_sibling_id: SectorType,
    pub child_id: SectorType,
    pub clsid: Vec<u8>,
    pub state_bits: u32,
    pub creation_time: u64,
    pub modified_time: u64,
    pub starting_sector_location: SectorType,
    pub stream_size: u64,
    pub chain: Option<Vec<SectorType>>,
}

/// Whether a 128-byte record holds a decodable directory entry.
pub open spec fn record_ok(r: Seq<u8>) -> bool {
    &&& ObjectType::spec_decode(r[66]) is Some
    &&& Color::spec_decode(r[67]) is Some
}

/// The 128-byte record of the `i`-th entry of a directory sector.
pub open spec fn record_at(b: Seq<u8>, i: int) -> Seq<u8> {
    b.subrange(ENTRY_SIZE * i, ENTRY_SIZE * i + ENTRY_SIZE)
}

/// Whether the `i`-th entry of a directory sector is decodable.
pub open spec fn entry_ok_at(b: Seq<u8>, i: int) -> bool {
    record_ok(record_at(b, i))
}

/// Whether the stored fields of `e` are those of the 128-byte record `r`.
pub open spec fn entry_fields(e: Entry, r: Seq<u8>) -> bool {
    &&& e.name@ == r.subrange(0, 64)
    &&& e.name_length == le_u16(r, 64)
    &&& ObjectType::spec_decode(r[66]) == Some(e.object_type)
    &&& Color::spec_decode(r[67]) == Some(e.color)
    &&& e.left_sibling_id == SectorType::decoded(le_u32(r, 68))
    &&& e.right_sibling_id == SectorType::decoded(le_u32(r, 72))
    &&& e.child_id == SectorType::decoded(le_u32(r, 76))
    &&& e.clsid@ == r.subrange(80, 96)
    &&& e.state_bits == le_u32(r, 96)
    &&& e.creation_time == le_u64(r, 100)
    &&& e.modified_time == le_u64(r, 108)
    &&& e.starting_sector_location == SectorType::decoded(le_u32(r, 116))
    &&& e.stream_size == le_u64(r, 120)
}

/// Whether `e` is the entry stored in the 128 bytes at `off`, with no chain
/// yet.
pub open spec fn decodes(e: Entry, b: Seq<u8>, off: int) -> bool {
    &&& entry_fields(e, b.subrange(off, off + 128))
    &&& e.chain is None
}

/// Number of UTF-16 code units in the name, without the terminator.
pub open spec fn name_unit_count(name: Seq<u8>, name_length: u16) -> nat {
    let limit = if name_length as int <= name.len() {
        name_length as int
    } else {
        name.len() as int
    };
    let limit = if limit <= 64 {
        limit
    } else {
        64
    };
    if limit >= 2 {
        ((limit - 2) / 2) as nat
    } else {
        0
    }
}

/// The UTF-16 code units of the name, without the terminator.
pub open spec fn name_units_spec(name: Seq<u8>, name_length: u16) -> Seq<u16> {
    Seq::new(name_unit_count(name, name_length), |i: int| le_u16(name, 2 * i))
}

impl Entry {
    pub open spec fn chain_view(self) -> Option<Seq<SectorType>> {
        match self.chain {
            Some(c) => Some(c@),
            None => None,
        }
    }

    /// Whether `self` and `o` agree on every stored field, the chain aside.
    pub open spec fn same_fields(self, o: Entry) -> bool {
        &&& self.name@ == o.name@
        &&& self.name_length == o.name_length
        &&& self.object_type == o.object_type
        &&& self.color == o.color
        &&& self.left_sibling_id == o.left_sibling_id
        &&& self.right_sibling_id == o.right_sibling_id
        &&& self.child_id == o.child_id
        &&& self.clsid@ == o.clsid@
        &&& self.state_bits == o.state_bits
        &&& self.creation_time == o.creation_time
        &&& self.modified_time == o.modified_time
        &&& self.starting_sector_location == o.starting_sector_location
        &&& self.stream_size == o.stream_size
    }

    /// Decodes the directory entry stored in `b[off..off + 128]`.
    pub fn decode(b: &Vec<u8>, off: usize) -> (r: OleResult<Entry>)
        requires
            off + ENTRY_SIZE <= b@.len(),
        ensures
            r is Ok <==> record_ok(b@.subrange(off as int, off + 128)),
            r is Err ==> r == Err::<Entry, OleError>(OleError::ParseError),
            r matches Ok(e) ==> decodes(e, b@, off as int),
    {
        let _len = b.len();
        let object_type = match ObjectType::decode(b[off + 66]) {
            Some(t) => t,
            None => return Err(OleError::ParseError),
        };
        let color = match Color::decode(b[off + 67]) {
            Some(c) => c,
            None => return Err(OleError::ParseError),
        };
        let mut name: Vec<u8> = Vec::with_capacity(NAME_SIZE);
        append_bytes(&mut name, b, off, NAME_SIZE);
        let mut clsid: Vec<u8> = Vec::with_capacity(16);
        append_bytes(&mut clsid, b, off + 80, 16);
        let ghost rec = b@.subrange(off as int, off + 128);
        proof {
            assert(name@ =~= rec.subrange(0, 64));
            assert(clsid@ =~= rec.subrange(80, 96));
        }
        Ok(
            Entry {
                name,
                name_length: read_u16(b, off + 64),
                object_type,
                color,
                left_sibling_id: SectorType::from_u32(read_u32(b, off + 68)),
                right_sibling_id: SectorType::from_u32(read_u32(b, off + 72)),
                child_id: SectorType::from_u32(read_u32(b, off + 76)),
                clsid,
                state_bits: read_u32(b, off + 96),
                creation_time: read_u64(b, off + 100),
                modified_time: read_u64(b, off + 108),
                starting_sector_location: SectorType::from_u32(read_u32(b, off + 116)),
                stream_size: read_u64(b, off + 120),
                chain: None,
            },
        )
    }

    /// The UTF-16 code units of the name, up to (not including) the
    /// terminator that `name_length` counts.
    pub fn name_units(&self) -> (r: Vec<u16>)
        ensures
            r@ == name_units_spec(self.name@, self.name_length),
    {
        let len = self.name.len();
        let mut limit: usize = if (self.name_length as usize) <= len {
            self.name_length as usize
        } else {
            len
        };
        if limit > NAME_SIZE {
            limit = NAME_SIZE;
        }
        let count: usize = if limit >= 2 {
            (limit - 2) / 2
        } else {
            0
        };
        let mut r: Vec<u16> = Vec::with_capacity(count);
        let mut i: usize = 0;
        while i < count
            invariant
                i <= count,
                count == name_unit_count(self.name@, self.name_length),
                2 * count <= len,
                len == self.name@.len(),
                r@ == name_units_spec(self.name@, self.name_length).take(i as int),
            decreases count - i,
        {
            r.push(read_u16(&self.name, 2 * i));
            i = i + 1;
            assert(r@ =~= name_units_spec(self.name@, self.name_length).take(i as int));
        }
        assert(r@ =~= name_units_spec(self.name@, self.name_length));
        r
    }

    /// The name, decoded from UTF-16LE.
    pub fn name(&self) -> (r: String)
        ensures
            r@ == utf16_lossy(name_units_spec(self.name@, self.name_length)),
            ({
                let u = name_units_spec(self.name@, self.name_length);
                (forall|i: int| 0 <= i < u.len() ==> !(0xD800 <= #[trigger] u[i] <= 0xDFFF))
                    ==> r@.len() == u.len() && forall|i: int|
                    0 <= i < u.len() ==> #[trigger] (r@[i] as u32) == u[i] as u32
            }),
    {
        let units = self.name_units();
        string_from_utf16(&units)
    }

    /// Decoding needs nothing more once the fields are read: the entry stays
    /// as it is.
    pub fn parse(&mut self)
        ensures
            final(self).same_fields(*old(self)),
            final(self).chain_view() == old(self).chain_view(),
    {
    }

    /// Adds `sector` to the end of the chain, starting one if there is none.
    pub fn append_chain(&mut self, sector: Vec<SectorType>)
        ensures
            final(self).same_fields(*old(self)),
            final(self).chain_view() == Some(
                match old(self).chain_view() {
                    Some(c) => c + sector@,
                    None => sector@,
                },
            ),
    {
        let mut sector = sector;
        match self.chain.take() {
            Some(mut c) => {
                c.append(&mut sector);
                self.chain = Some(c);
            },
            None => {
                self.chain = Some(sector);
            },
        }
    }
}

/// The directory entries held in one directory sector.
#[derive(Debug, Clone)]
pub struct Directory {
    pub entries: Vec<Entry>,
}

impl Directory {
    /// Decodes `entry_count` consecutive entries from the start of `b`.
    pub fn decode(b: &Vec<u8>, entry_count: usize) -> (r: OleResult<Directory>)
        requires
            ENTRY_SIZE * entry_count <= b@.len(),
        ensures
            r is Ok <==> forall|i: int| 0 <= i < entry_count ==> #[trigger] entry_ok_at(b@, i),
            r is Err ==> r == Err::<Directory, OleError>(OleError::ParseError),
            r matches Ok(d) ==> d.entries@.len() == entry_count && forall|i: int|
                0 <= i < entry_count ==> entry_fields(#[trigger] d.entries@[i], record_at(b@, i))
                    && d.entries@[i].chain is None,
    {
        let len = b.len();
        let mut entries: Vec<Entry> = Vec::with_capacity(entry_count);
        let mut i: usize = 0;
        while i < entry_count
            invariant
                len == b@.len(),
                i <= entry_count,
                ENTRY_SIZE * entry_count <= b@.len(),
                entries@.len() == i,
                forall|j: int| 0 <= j < i ==> #[trigger] entry_ok_at(b@, j),
                forall|j: int|
                    0 <= j < i ==> entry_fields(#[trigger] entries@[j], record_at(b@, j))
                        && entries@[j].chain is None,
            decreases entry_count - i,
        {
            let e = match Entry::decode(b, ENTRY_SIZE * i) {
                Ok(e) => e,
                Err(err) => {
                    assert(!entry_ok_at(b@, i as int));
                    return Err(err);
                },
            };
            entries.push(e);
            i = i + 1;
        }
        Ok(Directory { entries })
    }
}

} // verus!
