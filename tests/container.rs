use ole::common::{get_sector_size, get_valid_entries, MajorVersion, OleError, SectorType};
use ole::directory::{Color, Entry, ObjectType};
use ole::ole::{walk_chain, Ole};

const FREE: u32 = 0xFFFFFFFF;
const END: u32 = 0xFFFFFFFE;
const FAT_MARK: u32 = 0xFFFFFFFD;
const DIFAT_MARK: u32 = 0xFFFFFFFC;

fn put_u16(b: &mut [u8], off: usize, v: u16) {
    b[off..off + 2].copy_from_slice(&v.to_le_bytes());
}

fn put_u32(b: &mut [u8], off: usize, v: u32) {
    b[off..off + 4].copy_from_slice(&v.to_le_bytes());
}

fn put_u64(b: &mut [u8], off: usize, v: u64) {
    b[off..off + 8].copy_from_slice(&v.to_le_bytes());
}

struct Layout {
    version: u16,
    fat_sectors: u32,
    first_dir: u32,
    first_mini_fat: u32,
    mini_fat_sectors: u32,
    first_difat: u32,
    difat_sectors: u32,
    inline_difat: Vec<u32>,
}

impl Layout {
    fn v3(inline_difat: Vec<u32>, first_dir: u32) -> Layout {
        Layout {
            version: 3,
            fat_sectors: inline_difat.len() as u32,
            first_dir,
            first_mini_fat: END,
            mini_fat_sectors: 0,
            first_difat: END,
            difat_sectors: 0,
            inline_difat,
        }
    }

    fn sector_size(&self) -> usize {
        if self.version == 3 {
            512
        } else {
            4096
        }
    }

    fn header_sector(&self) -> Vec<u8> {
        let mut b = vec![0u8; self.sector_size()];
        b[0..8].copy_from_slice(&[0xD0, 0xCF, 0x11, 0xE0, 0xA1, 0xB1, 0x1A, 0xE1]);
        put_u16(&mut b, 24, 0x003E);
        put_u16(&mut b, 26, self.version);
        put_u16(&mut b, 28, 0xFFFE);
        put_u16(&mut b, 30, if self.version == 3 { 9 } else { 12 });
        put_u16(&mut b, 32, 6);
        put_u32(&mut b, 44, self.fat_sectors);
        put_u32(&mut b, 48, self.first_dir);
        put_u32(&mut b, 56, 4096);
        put_u32(&mut b, 60, self.first_mini_fat);
        put_u32(&mut b, 64, self.mini_fat_sectors);
        put_u32(&mut b, 68, self.first_difat);
        put_u32(&mut b, 72, self.difat_sectors);
        for i in 0..109 {
            put_u32(&mut b, 76 + 4 * i, self.inline_difat.get(i).copied().unwrap_or(FREE));
        }
        b
    }
}

fn ids_sector(ss: usize, ids: &[u32]) -> Vec<u8> {
    let mut b = vec![0xFFu8; ss];
    for (i, v) in ids.iter().enumerate() {
        put_u32(&mut b, 4 * i, *v);
    }
    b
}

fn dir_entry(name: &str, object_type: u8, start: u32, size: u64) -> Vec<u8> {
    let mut b = vec![0u8; 128];
    let units: Vec<u16> = name.encode_utf16().collect();
    for (i, u) in units.iter().enumerate() {
        put_u16(&mut b, 2 * i, *u);
    }
    put_u16(&mut b, 64, ((units.len() + 1) * 2) as u16);
    b[66] = object_type;
    b[67] = 1;
    put_u32(&mut b, 68, FREE);
    put_u32(&mut b, 72, FREE);
    put_u32(&mut b, 76, FREE);
    put_u32(&mut b, 116, start);
    put_u64(&mut b, 120, size);
    b
}

fn dir_sector(ss: usize, entries: &[Vec<u8>]) -> Vec<u8> {
    let mut b: Vec<u8> = entries.concat();
    b.resize(ss, 0);
    b
}

fn data_sector(ss: usize, seed: u32) -> Vec<u8> {
    (0..ss).map(|i| ((i as u32 * 31 + seed * 17) % 251) as u8).collect()
}

fn open_parsed(bytes: &[u8]) -> Ole {
    let mut o = Ole::from_bytes(&bytes.to_vec()).unwrap();
    o.parse().unwrap();
    o
}

fn entry(o: &Ole, i: usize) -> Entry {
    o.entries.as_ref().unwrap()[i].clone()
}

/// Header, one FAT sector at body[0], one directory sector at body[1] with
/// the root storage only.
fn minimal_v3() -> Vec<u8> {
    let l = Layout::v3(vec![0], 1);
    let mut f = l.header_sector();
    f.extend(ids_sector(512, &[FAT_MARK, END]));
    f.extend(dir_sector(512, &[dir_entry("Root Entry", 5, END, 0)]));
    f
}

#[test]
fn minimal_v3_root_only() {
    let o = open_parsed(&minimal_v3());
    let es = o.entries.as_ref().unwrap();
    assert_eq!(es.len(), 4);
    assert_eq!(es[0].name(), "Root Entry");
    assert_eq!(es[0].object_type, ObjectType::RootStorage);
    assert_eq!(es[0].color, Color::Black);
    assert!(es[1..].iter().all(|e| e.object_type == ObjectType::Unknown));
    assert_eq!(o.read(&es[0]), Err(OleError::InvalidEntrySize));
    assert_eq!(o.difat, vec![SectorType::RegularSect(0)]);
    assert_eq!(o.fat.as_ref().unwrap().len(), 128);
    assert_eq!(o.fat.as_ref().unwrap()[0], SectorType::FatSect);
    assert_eq!(o.fat.as_ref().unwrap()[2], SectorType::FreeSect);
    assert_eq!(o.directory, Some(vec![SectorType::RegularSect(1)]));
    assert_eq!(es[0].chain, Some(vec![]));
}

/// A stream of 100 bytes in mini sectors 0 and 1 of the mini stream, which
/// lives in body[2]; the mini FAT is at body[3].
fn small_stream_v3() -> Vec<u8> {
    let mut l = Layout::v3(vec![0], 1);
    l.first_mini_fat = 3;
    l.mini_fat_sectors = 1;
    let mut f = l.header_sector();
    f.extend(ids_sector(512, &[FAT_MARK, END, END, END]));
    f.extend(dir_sector(
        512,
        &[dir_entry("Root Entry", 5, 2, 128), dir_entry("Small", 2, 0, 100)],
    ));
    f.extend(data_sector(512, 2));
    f.extend(ids_sector(512, &[1, END]));
    f
}

#[test]
fn small_stream_through_mini_stream() {
    let o = open_parsed(&small_stream_v3());
    let s = entry(&o, 1);
    assert_eq!(s.name(), "Small");
    assert_eq!(s.chain, Some(vec![SectorType::RegularSect(0), SectorType::RegularSect(1)]));
    let data = o.read(&s).unwrap();
    assert_eq!(data.len(), 100);
    assert_eq!(data, data_sector(512, 2)[0..100].to_vec());
}

#[test]
fn root_read_is_mini_stream_backing() {
    let o = open_parsed(&small_stream_v3());
    let root = entry(&o, 0);
    let bytes = o.read(&root).unwrap();
    assert_eq!(bytes, data_sector(512, 2)[0..128].to_vec());
    let small = o.read(&entry(&o, 1)).unwrap();
    assert_eq!(small[..], bytes[..100]);
}

#[test]
fn mini_stream_second_body_sector() {
    // mini sector 9 lies in the second sector of the mini stream, at 64.
    let mut l = Layout::v3(vec![0], 1);
    l.first_mini_fat = 3;
    l.mini_fat_sectors = 1;
    let mut f = l.header_sector();
    f.extend(ids_sector(512, &[FAT_MARK, END, 4, END, END]));
    f.extend(dir_sector(
        512,
        &[dir_entry("Root Entry", 5, 2, 1024), dir_entry("S", 2, 9, 10)],
    ));
    f.extend(data_sector(512, 2));
    f.extend(ids_sector(512, &[]));
    f.extend(data_sector(512, 4));
    let o = open_parsed(&f);
    let data = o.read(&entry(&o, 1)).unwrap();
    assert_eq!(data, data_sector(512, 4)[64..74].to_vec());
}

/// A stream of 5000 bytes over ten sectors starting at body[4].
fn large_stream_v3() -> Vec<u8> {
    let l = Layout::v3(vec![0], 1);
    let mut f = l.header_sector();
    let mut fat = vec![FAT_MARK, END, FREE, FREE];
    for k in 4..13u32 {
        fat.push(k + 1);
    }
    fat.push(END);
    f.extend(ids_sector(512, &fat));
    f.extend(dir_sector(
        512,
        &[dir_entry("Root Entry", 5, END, 0), dir_entry("Big", 2, 4, 5000)],
    ));
    f.extend(data_sector(512, 2));
    f.extend(data_sector(512, 3));
    for k in 4..14u32 {
        f.extend(data_sector(512, k));
    }
    f
}

#[test]
fn large_stream_partial_last_sector() {
    let o = open_parsed(&large_stream_v3());
    let s = entry(&o, 1);
    assert_eq!(s.chain.as_ref().unwrap().len(), 10);
    let data = o.read(&s).unwrap();
    assert_eq!(data.len(), 5000);
    let mut expected = Vec::new();
    for k in 4..13u32 {
        expected.extend(data_sector(512, k));
    }
    expected.extend(&data_sector(512, 13)[0..5000 % 512]);
    assert_eq!(data, expected);
}

#[test]
fn read_twice_identical() {
    let o = open_parsed(&large_stream_v3());
    let s = entry(&o, 1);
    assert_eq!(o.read(&s).unwrap(), o.read(&s).unwrap());
}

#[test]
fn parse_twice_same_state() {
    let mut o = Ole::from_bytes(&large_stream_v3()).unwrap();
    o.parse().unwrap();
    let difat = o.difat.clone();
    let fat = o.fat.clone();
    let mini = o.mini_fat.clone();
    let dir = o.directory.clone();
    let chains: Vec<_> = o.entries.as_ref().unwrap().iter().map(|e| e.chain.clone()).collect();
    o.parse().unwrap();
    assert_eq!(o.difat, difat);
    assert_eq!(o.fat, fat);
    assert_eq!(o.mini_fat, mini);
    assert_eq!(o.directory, dir);
    let again: Vec<_> = o.entries.as_ref().unwrap().iter().map(|e| e.chain.clone()).collect();
    assert_eq!(again, chains);
}

#[test]
fn short_chain_is_rejected() {
    let mut f = large_stream_v3();
    // FAT[8] = END cuts the chain after five sectors.
    put_u32(&mut f, 512 + 4 * 8, END);
    let o = open_parsed(&f);
    let s = entry(&o, 1);
    assert_eq!(s.chain.as_ref().unwrap().len(), 5);
    assert_eq!(o.read(&s), Err(OleError::InvalidEntryChain));
}

#[test]
fn cutoff_size_uses_fat() {
    let l = Layout::v3(vec![0], 1);
    let mut f = l.header_sector();
    let mut fat = vec![FAT_MARK, END];
    for k in 2..9u32 {
        fat.push(k + 1);
    }
    fat.push(END);
    f.extend(ids_sector(512, &fat));
    f.extend(dir_sector(
        512,
        &[dir_entry("Root Entry", 5, END, 0), dir_entry("Edge", 2, 2, 4096)],
    ));
    for k in 2..10u32 {
        f.extend(data_sector(512, k));
    }
    let o = open_parsed(&f);
    let s = entry(&o, 1);
    assert_eq!(s.chain.as_ref().unwrap().len(), 8);
    let data = o.read(&s).unwrap();
    let mut expected = Vec::new();
    for k in 2..10u32 {
        expected.extend(data_sector(512, k));
    }
    assert_eq!(data, expected);
}

#[test]
fn v3_size_high_bits_ignored() {
    let mut l = Layout::v3(vec![0], 1);
    l.first_mini_fat = 3;
    l.mini_fat_sectors = 1;
    let mut f = l.header_sector();
    f.extend(ids_sector(512, &[FAT_MARK, END, END, END]));
    f.extend(dir_sector(
        512,
        &[dir_entry("Root Entry", 5, 2, 128), dir_entry("Small", 2, 0, (7u64 << 32) | 100)],
    ));
    f.extend(data_sector(512, 2));
    f.extend(ids_sector(512, &[1, END]));
    let o = open_parsed(&f);
    let s = entry(&o, 1);
    assert_eq!(o.stream_len(&s), 100);
    assert_eq!(o.read(&s).unwrap(), data_sector(512, 2)[0..100].to_vec());
}

/// Version 4: sector 0 is 4096 bytes, the FAT is body[0] (offset 4096),
/// the directory body[1], and a 4096-byte stream body[2].
fn v4_file() -> Vec<u8> {
    let l = Layout {
        version: 4,
        fat_sectors: 1,
        first_dir: 1,
        first_mini_fat: END,
        mini_fat_sectors: 0,
        first_difat: END,
        difat_sectors: 0,
        inline_difat: vec![0],
    };
    let mut f = l.header_sector();
    f.extend(ids_sector(4096, &[FAT_MARK, END, END]));
    f.extend(dir_sector(
        4096,
        &[dir_entry("Root Entry", 5, END, 0), dir_entry("Data", 2, 2, 4096)],
    ));
    f.extend(data_sector(4096, 9));
    f
}

#[test]
fn v4_body_starts_after_padding() {
    let o = open_parsed(&v4_file());
    assert_eq!(o.version, MajorVersion::Version4);
    assert_eq!(o.difat, vec![SectorType::RegularSect(0)]);
    assert_eq!(o.fat.as_ref().unwrap().len(), 1024);
    let es = o.entries.as_ref().unwrap();
    assert_eq!(es.len(), 32);
    assert_eq!(es[1].name(), "Data");
    assert_eq!(o.read(&es[1]).unwrap(), data_sector(4096, 9));
}

#[test]
fn difat_extension_sector() {
    // 200 FAT sectors at body[0..200], the DIFAT sector at body[200], the
    // directory at body[201].
    let inline: Vec<u32> = (0..109).collect();
    let l = Layout {
        version: 3,
        fat_sectors: 200,
        first_dir: 201,
        first_mini_fat: END,
        mini_fat_sectors: 0,
        first_difat: 200,
        difat_sectors: 1,
        inline_difat: inline,
    };
    let mut f = l.header_sector();
    let mut marks: Vec<u32> = vec![FAT_MARK; 200];
    marks.push(DIFAT_MARK);
    marks.push(END);
    for s in 0..200usize {
        let lo = s * 128;
        let part: Vec<u32> = (lo..lo + 128).map(|i| marks.get(i).copied().unwrap_or(FREE)).collect();
        f.extend(ids_sector(512, &part));
    }
    let mut difat_sector: Vec<u32> = (109..200).collect();
    difat_sector.resize(127, FREE);
    difat_sector.push(END);
    f.extend(ids_sector(512, &difat_sector));
    f.extend(dir_sector(512, &[dir_entry("Root Entry", 5, END, 0)]));
    let o = open_parsed(&f);
    assert_eq!(o.difat.len(), 200);
    assert_eq!(o.difat[108], SectorType::RegularSect(108));
    assert_eq!(o.difat[109], SectorType::RegularSect(109));
    assert_eq!(o.difat[199], SectorType::RegularSect(199));
    assert_eq!(o.fat.as_ref().unwrap().len(), 200 * 128);
    assert_eq!(o.fat.as_ref().unwrap()[200], SectorType::DifSect);
    assert_eq!(entry(&o, 0).name(), "Root Entry");
}

#[test]
fn cyclic_fat_chain() {
    let l = Layout::v3(vec![0], 1);
    let mut f = l.header_sector();
    f.extend(ids_sector(512, &[FAT_MARK, END, 3, 2]));
    f.extend(dir_sector(
        512,
        &[dir_entry("Root Entry", 5, END, 0), dir_entry("Loop", 2, 2, 5000)],
    ));
    f.extend(data_sector(512, 2));
    f.extend(data_sector(512, 3));
    let o = open_parsed(&f);
    let s = entry(&o, 1);
    assert_eq!(s.chain, None);
    assert_eq!(o.read(&s), Err(OleError::InvalidEntryChain));
}

#[test]
fn bad_magic_is_invalid_format() {
    let mut f = minimal_v3();
    f[0] = 0;
    assert_eq!(Ole::from_bytes(&f).err(), Some(OleError::InvalidFileFormat));
}

#[test]
fn bad_byte_order_is_invalid_format() {
    let mut f = minimal_v3();
    put_u16(&mut f, 28, 0xFEFF);
    assert_eq!(Ole::from_bytes(&f).err(), Some(OleError::InvalidFileFormat));
}

#[test]
fn mismatched_shift_is_invalid_format() {
    let mut f = minimal_v3();
    put_u16(&mut f, 30, 12);
    assert_eq!(Ole::from_bytes(&f).err(), Some(OleError::InvalidFileFormat));
}

#[test]
fn short_file_is_parse_error() {
    let f = minimal_v3()[0..300].to_vec();
    assert_eq!(Ole::from_bytes(&f).err(), Some(OleError::ParseError));
}

#[test]
fn difat_count_mismatch() {
    let mut f = minimal_v3();
    put_u32(&mut f, 44, 2);
    let mut o = Ole::from_bytes(&f).unwrap();
    assert_eq!(o.parse(), Err(OleError::InvalidDifat));
    assert!(o.fat.is_none());
    assert!(o.entries.is_none());
}

#[test]
fn difat_sector_count_mismatch() {
    let mut f = minimal_v3();
    put_u32(&mut f, 72, 1);
    let mut o = Ole::from_bytes(&f).unwrap();
    assert_eq!(o.parse(), Err(OleError::InvalidDifat));
}

#[test]
fn fat_sector_outside_body() {
    let mut f = minimal_v3();
    put_u32(&mut f, 76, 7);
    let mut o = Ole::from_bytes(&f).unwrap();
    assert_eq!(o.parse(), Err(OleError::InvalidEntryIndex));
}

#[test]
fn bad_object_type_is_parse_error() {
    let mut f = minimal_v3();
    f[1024 + 66] = 3;
    let mut o = Ole::from_bytes(&f).unwrap();
    assert_eq!(o.parse(), Err(OleError::ParseError));
}

#[test]
fn cyclic_directory_chain() {
    let mut f = minimal_v3();
    put_u32(&mut f, 512 + 4, 1);
    let mut o = Ole::from_bytes(&f).unwrap();
    assert_eq!(o.parse(), Err(OleError::InvalidEntryChain));
}

#[test]
fn mini_fat_count_mismatch() {
    let mut f = small_stream_v3();
    put_u32(&mut f, 64, 2);
    let mut o = Ole::from_bytes(&f).unwrap();
    assert_eq!(o.parse(), Err(OleError::InvalidEntryChain));
}

#[test]
fn stream_sector_outside_body() {
    let l = Layout::v3(vec![0], 1);
    let mut f = l.header_sector();
    f.extend(ids_sector(512, &[FAT_MARK, END]));
    let mut big = dir_entry("Far", 2, 1, 5000);
    put_u32(&mut big, 116, 1);
    f.extend(dir_sector(512, &[dir_entry("Root Entry", 5, END, 0), big]));
    let mut o = Ole::from_bytes(&f).unwrap();
    o.parse().unwrap();
    let mut s = entry(&o, 1);
    s.chain = Some(vec![SectorType::RegularSect(40)]);
    assert_eq!(o.read(&s), Err(OleError::InvalidEntryIndex));
}

#[test]
fn read_without_parse_small_stream() {
    let o = Ole::from_bytes(&small_stream_v3()).unwrap();
    let mut e = entry(&open_parsed(&small_stream_v3()), 1);
    e.chain = Some(vec![SectorType::RegularSect(0)]);
    assert_eq!(o.read(&e), Err(OleError::InvalidEntryChain));
}

#[test]
fn sector_type_values() {
    assert_eq!(SectorType::from_u32(0), SectorType::RegularSect(0));
    assert_eq!(SectorType::from_u32(0xFFFFFFF9), SectorType::RegularSect(0xFFFFFFF9));
    assert_eq!(SectorType::from_u32(0xFFFFFFFA), SectorType::MaxRegSect);
    assert_eq!(SectorType::from_u32(0xFFFFFFFB), SectorType::NotApplicable);
    assert_eq!(SectorType::from_u32(0xFFFFFFFC), SectorType::DifSect);
    assert_eq!(SectorType::from_u32(0xFFFFFFFD), SectorType::FatSect);
    assert_eq!(SectorType::from_u32(0xFFFFFFFE), SectorType::EndOfChain);
    assert_eq!(SectorType::from_u32(0xFFFFFFFF), SectorType::FreeSect);
    assert_eq!(SectorType::FatSect.to_u32(), 0xFFFFFFFD);
    assert_eq!(SectorType::RegularSect(17).to_u32(), 17);
    assert_eq!(SectorType::default(), SectorType::EndOfChain);
}

#[test]
fn valid_entries_stop_at_first_marker() {
    let v = vec![
        SectorType::RegularSect(4),
        SectorType::RegularSect(2),
        SectorType::FreeSect,
        SectorType::RegularSect(9),
    ];
    assert_eq!(
        get_valid_entries(&v),
        vec![SectorType::RegularSect(4), SectorType::RegularSect(2)]
    );
    assert_eq!(get_valid_entries(&vec![SectorType::EndOfChain]), vec![]);
    assert_eq!(get_valid_entries(&vec![]), vec![]);
}

#[test]
fn sector_sizes() {
    assert_eq!(get_sector_size(&MajorVersion::Version3), 512);
    assert_eq!(get_sector_size(&MajorVersion::Version4), 4096);
}

#[test]
fn walk_chain_paths() {
    let t = vec![
        SectorType::RegularSect(2),
        SectorType::EndOfChain,
        SectorType::RegularSect(1),
    ];
    assert_eq!(
        walk_chain(&t, SectorType::RegularSect(0)),
        Ok(vec![
            SectorType::RegularSect(0),
            SectorType::RegularSect(2),
            SectorType::RegularSect(1)
        ])
    );
    assert_eq!(walk_chain(&t, SectorType::FreeSect), Ok(vec![]));
    assert_eq!(walk_chain(&t, SectorType::RegularSect(3)), Err(OleError::InvalidEntryChain));
    let cyc = vec![SectorType::RegularSect(1), SectorType::RegularSect(0)];
    assert_eq!(walk_chain(&cyc, SectorType::RegularSect(0)), Err(OleError::InvalidEntryChain));
}

#[test]
fn entry_name_and_chain() {
    let o = open_parsed(&minimal_v3());
    let mut e = entry(&o, 0);
    assert_eq!(e.name_units(), "Root Entry".encode_utf16().collect::<Vec<u16>>());
    assert_eq!(e.name(), "Root Entry".to_string());
    e.chain = None;
    e.append_chain(vec![SectorType::RegularSect(3)]);
    e.append_chain(vec![SectorType::RegularSect(5)]);
    assert_eq!(e.chain, Some(vec![SectorType::RegularSect(3), SectorType::RegularSect(5)]));
    e.parse();
    assert_eq!(e.chain, Some(vec![SectorType::RegularSect(3), SectorType::RegularSect(5)]));
}

#[test]
fn non_ascii_name() {
    let l = Layout::v3(vec![0], 1);
    let mut f = l.header_sector();
    f.extend(ids_sector(512, &[FAT_MARK, END]));
    f.extend(dir_sector(512, &[dir_entry("\u{5}SummaryInformation\u{e9}", 5, END, 0)]));
    let o = open_parsed(&f);
    assert_eq!(entry(&o, 0).name(), "\u{5}SummaryInformation\u{e9}");
}

#[test]
fn other_minor_version_accepted() {
    let mut f = minimal_v3();
    put_u16(&mut f, 24, 0x0033);
    let mut o = Ole::from_bytes(&f).unwrap();
    assert!(o.is_well_formed());
    o.parse().unwrap();
    assert_eq!(entry(&o, 0).name(), "Root Entry");
}

#[test]
fn small_read_needs_root_storage_first() {
    let mut f = small_stream_v3();
    // the first entry becomes a plain storage: there is no root storage
    f[1024 + 66] = 1;
    let o = open_parsed(&f);
    let mut s = entry(&o, 1);
    s.chain = Some(vec![SectorType::RegularSect(0), SectorType::RegularSect(1)]);
    assert_eq!(o.read(&s), Err(OleError::InvalidEntryChain));
}

#[test]
fn well_formed_check() {
    let mut o = Ole::from_bytes(&minimal_v3()).unwrap();
    assert!(o.is_well_formed());
    o.body[0].pop();
    assert!(!o.is_well_formed());
    let mut o = Ole::from_bytes(&minimal_v3()).unwrap();
    o.inline_difat.push(SectorType::FreeSect);
    assert!(!o.is_well_formed());
}
