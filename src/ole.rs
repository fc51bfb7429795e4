use crate::common::{
    MajorVersion, OleError, OleResult, SectorType, append_bytes, entries_per_directory_sector,
    get_entries_per_directory_sector, get_ids_per_sector, get_sector_size, get_valid_entries,
    ids_per_sector, le_u32, sector_ids, sector_size, valid_prefix, MINI_SECTOR_SIZE,
    MINI_STREAM_CUTOFF,
};
use crate::difat::{AllEntryDifat, Difat};
use crate::directory::{Directory, Entry, ObjectType, entry_fields, entry_ok_at, record_at};
use crate::fat::Fat;
use crate::header::{
    Header, decode_header_spec, header_of, shift_of, HEADER_SIZE, INLINE_DIFAT_ENTRIES,
    INLINE_DIFAT_OFFSET,
};
use vstd::arithmetic::div_mod::lemma_fundamental_div_mod_converse_div;
use vstd::prelude::*;

verus! {

/// Number of whole body sectors in a file of `len` bytes: sector 0 holds the
/// header, the body starts after it.
pub open spec fn body_sector_count(len: nat, ss: nat) -> nat {
    if ss > 0 && len >= ss {
        (len / ss - 1) as nat
    } else {
        0
    }
}

/// The body of the file cut into sectors: sector `n` is
/// `b[(n + 1) * ss .. (n + 2) * ss]`.
pub open spec fn partition(b: Seq<u8>, ss: nat) -> Seq<Seq<u8>> {
    Seq::new(body_sector_count(b.len(), ss), |n: int| b.subrange((n + 1) * ss, (n + 2) * ss))
}

/// `p` put in front of the sequence held in `o`, if any.
pub open spec fn prepend(p: Seq<SectorType>, o: Option<Seq<SectorType>>) -> Option<
    Seq<SectorType>,
> {
    match o {
        Some(c) => Some(p + c),
        None => None,
    }
}

/// The sectors visited by following `table` from `cur`, at most `fuel` of
/// them; `None` if a link leaves the table or the walk needs more steps.
pub open spec fn chain_walk(table: Seq<SectorType>, cur: SectorType, fuel: nat) -> Option<
    Seq<SectorType>,
>
    decreases fuel,
{
    match cur {
        SectorType::RegularSect(v) => {
            if fuel == 0 || v >= table.len() {
                None
            } else {
                prepend(seq![cur], chain_walk(table, table[v as int], (fuel - 1) as nat))
            }
        },
        _ => Some(Seq::empty()),
    }
}

/// The chain that starts at `head` in `table`; a walk may take at most as
/// many steps as the table has entries.
pub open spec fn chain_of(table: Seq<SectorType>, head: SectorType) -> Option<Seq<SectorType>> {
    chain_walk(table, head, table.len())
}

/// Follows `table` from `head` up to the first marker.
pub fn walk_chain(table: &Vec<SectorType>, head: SectorType) -> (r: OleResult<Vec<SectorType>>)
    ensures
        r is Ok <==> chain_of(table@, head) is Some,
        r matches Ok(c) ==> chain_of(table@, head) == Some(c@),
        r is Err ==> r == Err::<Vec<SectorType>, OleError>(OleError::InvalidEntryChain),
{
    let n = table.len();
    let mut result: Vec<SectorType> = Vec::new();
    let mut cur = head;
    let mut steps: usize = 0;
    while cur.is_regular_sect()
        invariant
            n == table@.len(),
            steps <= n,
            chain_of(table@, head) == prepend(result@, chain_walk(table@, cur, (n - steps) as nat)),
        decreases n - steps,
    {
        let v = match cur {
            SectorType::RegularSect(v) => v,
            _ => 0,
        };
        if steps == n || v as usize >= n {
            return Err(OleError::InvalidEntryChain);
        }
        let ghost before = result@;
        let ghost rest = chain_walk(table@, table@[v as int], (n - steps - 1) as nat);
        result.push(cur);
        proof {
            if let Some(c) = rest {
                assert(before + (seq![cur] + c) =~= result@ + c);
            }
        }
        cur = table[v as usize];
        steps = steps + 1;
    }
    proof {
        assert(result@ + Seq::<SectorType>::empty() =~= result@);
    }
    Ok(result)
}

/// A vector result seen as a sequence result.
pub open spec fn seq_result<T>(r: OleResult<Vec<T>>) -> Result<Seq<T>, OleError> {
    match r {
        Ok(v) => Ok(v@),
        Err(e) => Err(e),
    }
}

/// The FAT locations held by exactly `fuel` DIFAT sectors linked from
/// `cur`; `None` if a link leaves the body or the count does not match.
pub open spec fn difat_walk(body: Seq<Seq<u8>>, per: nat, cur: SectorType, fuel: nat) -> Option<
    Seq<SectorType>,
>
    decreases fuel,
{
    match cur {
        SectorType::RegularSect(k) => {
            if fuel == 0 || k >= body.len() {
                None
            } else {
                let s = body[k as int];
                prepend(
                    valid_prefix(sector_ids(s, 0, (per - 1) as nat)),
                    difat_walk(
                        body,
                        per,
                        SectorType::decoded(le_u32(s, 4 * (per - 1))),
                        (fuel - 1) as nat,
                    ),
                )
            }
        },
        _ => if fuel == 0 {
            Some(Seq::empty())
        } else {
            None
        },
    }
}

/// The tables stored in the body sectors listed in `sectors`, one after the
/// other; a location outside the body is an error.
pub open spec fn tables_from(body: Seq<Seq<u8>>, per: nat, sectors: Seq<SectorType>) -> Result<
    Seq<SectorType>,
    OleError,
>
    decreases sectors.len(),
{
    if sectors.len() == 0 {
        Ok(Seq::empty())
    } else {
        match tables_from(body, per, sectors.drop_last()) {
            Err(e) => Err(e),
            Ok(t) => match sectors.last() {
                SectorType::RegularSect(k) => if k < body.len() {
                    Ok(t + sector_ids(body[k as int], 0, per))
                } else {
                    Err(OleError::InvalidEntryIndex)
                },
                _ => Ok(t),
            },
        }
    }
}

/// The 128-byte records of a directory sector.
pub open spec fn sector_records(s: Seq<u8>, dpe: nat) -> Seq<Seq<u8>> {
    Seq::new(dpe, |j: int| record_at(s, j))
}

/// The records of all directory sectors listed in `chain`, in order.
pub open spec fn directory_records(body: Seq<Seq<u8>>, dpe: nat, chain: Seq<SectorType>) -> Result<
    Seq<Seq<u8>>,
    OleError,
>
    decreases chain.len(),
{
    if chain.len() == 0 {
        Ok(Seq::empty())
    } else {
        match directory_records(body, dpe, chain.drop_last()) {
            Err(e) => Err(e),
            Ok(rs) => match chain.last() {
                SectorType::RegularSect(k) => if k >= body.len() {
                    Err(OleError::InvalidEntryIndex)
                } else if forall|j: int| 0 <= j < dpe ==> #[trigger] entry_ok_at(body[k as int], j) {
                    Ok(rs + sector_records(body[k as int], dpe))
                } else {
                    Err(OleError::ParseError)
                },
                _ => Ok(rs),
            },
        }
    }
}

/// The size of a stream as the version has it: version 3 keeps the low 32
/// bits only.
pub open spec fn stream_len(size: u64, version: MajorVersion) -> nat {
    match version {
        MajorVersion::Version3 => (size % 0x1_0000_0000) as nat,
        MajorVersion::Version4 => size as nat,
    }
}

/// The chain attached to a directory entry: through the mini FAT for a
/// stream under the cutoff, through the FAT for other streams and for the
/// root storage, none for the rest or where the walk fails.
pub open spec fn entry_chain_spec(
    e: Entry,
    version: MajorVersion,
    fat: Seq<SectorType>,
    mini_fat: Seq<SectorType>,
) -> Option<Seq<SectorType>> {
    match e.object_type {
        ObjectType::Stream => if stream_len(e.stream_size, version) < MINI_STREAM_CUTOFF {
            chain_of(mini_fat, e.starting_sector_location)
        } else {
            chain_of(fat, e.starting_sector_location)
        },
        ObjectType::RootStorage => chain_of(fat, e.starting_sector_location),
        _ => None,
    }
}

proof fn lemma_tables_prefix_err(body: Seq<Seq<u8>>, per: nat, s: Seq<SectorType>, i: int)
    requires
        0 <= i <= s.len(),
        tables_from(body, per, s.take(i)) is Err,
    ensures
        tables_from(body, per, s) == tables_from(body, per, s.take(i)),
    decreases s.len(),
{
    if i == s.len() {
        assert(s.take(i) =~= s);
    } else {
        assert(s.drop_last().take(i) =~= s.take(i));
        lemma_tables_prefix_err(body, per, s.drop_last(), i);
    }
}

proof fn lemma_records_prefix_err(body: Seq<Seq<u8>>, dpe: nat, s: Seq<SectorType>, i: int)
    requires
        0 <= i <= s.len(),
        directory_records(body, dpe, s.take(i)) is Err,
    ensures
        directory_records(body, dpe, s) == directory_records(body, dpe, s.take(i)),
    decreases s.len(),
{
    if i == s.len() {
        assert(s.take(i) =~= s);
    } else {
        assert(s.drop_last().take(i) =~= s.take(i));
        lemma_records_prefix_err(body, dpe, s.drop_last(), i);
    }
}

fn copy_ids(v: &Vec<SectorType>) -> (r: Vec<SectorType>)
    ensures
        r@ == v@,
{
    let mut r: Vec<SectorType> = Vec::with_capacity(v.len());
    let mut i: usize = 0;
    while i < v.len()
        invariant
            i <= v@.len(),
            r@ == v@.take(i as int),
        decreases v@.len() - i,
    {
        r.push(v[i]);
        i = i + 1;
        assert(r@ =~= v@.take(i as int));
    }
    assert(r@ =~= v@);
    r
}

/// `p` put in front of the bytes held in `r`, if any.
pub open spec fn prepend_bytes(p: Seq<u8>, r: Result<Seq<u8>, OleError>) -> Result<
    Seq<u8>,
    OleError,
> {
    match r {
        Ok(x) => Ok(p + x),
        Err(e) => Err(e),
    }
}

/// The first `rem` bytes of the sectors along `chain`, a whole sector at a
/// time and the rest from the last one.
pub open spec fn large_read(body: Seq<Seq<u8>>, ss: nat, chain: Seq<SectorType>, rem: nat) -> Result<
    Seq<u8>,
    OleError,
>
    decreases chain.len(),
{
    if rem == 0 {
        Ok(Seq::empty())
    } else if chain.len() == 0 {
        Err(OleError::InvalidEntryChain)
    } else {
        match chain[0] {
            SectorType::RegularSect(k) => if k >= body.len() {
                Err(OleError::InvalidEntryIndex)
            } else {
                let n = if rem < ss {
                    rem
                } else {
                    ss
                };
                prepend_bytes(
                    body[k as int].take(n as int),
                    large_read(body, ss, chain.drop_first(), (rem - n) as nat),
                )
            },
            _ => large_read(body, ss, chain.drop_first(), rem),
        }
    }
}

/// The first `rem` bytes of the mini sectors along `chain`: mini sector `m`
/// is the 64 bytes at `(m % fanout) * 64` of the body sector that the
/// mini stream chain `root` lists at `m / fanout`.
pub open spec fn mini_read(
    body: Seq<Seq<u8>>,
    ss: nat,
    root: Seq<SectorType>,
    chain: Seq<SectorType>,
    rem: nat,
) -> Result<Seq<u8>, OleError>
    decreases chain.len(),
{
    if rem == 0 {
        Ok(Seq::empty())
    } else if chain.len() == 0 {
        Err(OleError::InvalidEntryChain)
    } else {
        match chain[0] {
            SectorType::RegularSect(m) => {
                let fanout = ss / MINI_SECTOR_SIZE as nat;
                let q = m as nat / fanout;
                if q >= root.len() {
                    Err(OleError::InvalidEntryChain)
                } else {
                    match root[q as int] {
                        SectorType::RegularSect(k) => if k >= body.len() {
                            Err(OleError::InvalidEntryIndex)
                        } else {
                            let off = (m as nat % fanout) * MINI_SECTOR_SIZE as nat;
                            let n = if rem < MINI_SECTOR_SIZE as nat {
                                rem
                            } else {
                                MINI_SECTOR_SIZE as nat
                            };
                            prepend_bytes(
                                body[k as int].subrange(off as int, (off + n) as int),
                                mini_read(body, ss, root, chain.drop_first(), (rem - n) as nat),
                            )
                        },
                        _ => Err(OleError::InvalidEntryChain),
                    }
                }
            },
            _ => mini_read(body, ss, root, chain.drop_first(), rem),
        }
    }
}

/// A container: the header and the body of the file, and, once parsed, the
/// allocation tables and the directory.
#[derive(Debug, Clone)]
pub struct Ole {
    pub header: Header,
    pub version: MajorVersion,
    pub difat: Vec<SectorType>,
    pub directory: Option<Vec<SectorType>>,
    pub mini_fat: Option<Vec<SectorType>>,
    pub fat: Option<Vec<SectorType>>,
    pub entries: Option<Vec<Entry>>,
    pub inline_difat: Vec<SectorType>,
    pub body: Vec<Vec<u8>>,
}

impl Ole {
    /// The body sectors, each as its bytes.
    pub open spec fn body_view(self) -> Seq<Seq<u8>> {
        Seq::new(self.body@.len(), |i: int| self.body@[i]@)
    }

    /// The FAT locations held inline in the header.
    pub open spec fn inline_difat_view(self) -> Seq<SectorType> {
        self.inline_difat@
    }

    pub open spec fn fat_view(self) -> Seq<SectorType> {
        match self.fat {
            Some(f) => f@,
            None => Seq::empty(),
        }
    }

    pub open spec fn mini_fat_view(self) -> Seq<SectorType> {
        match self.mini_fat {
            Some(f) => f@,
            None => Seq::empty(),
        }
    }

    /// What every container keeps from the moment it is opened: a header
    /// that passed its checks, body sectors of the version's size, and
    /// inline FAT locations that are all regular.
    pub open spec fn wf(self) -> bool {
        &&& self.version == self.header.major_version
        &&& self.header.mini_stream_cutoff_size == MINI_STREAM_CUTOFF
        &&& self.header.mini_sector_shift == 6
        &&& self.header.sector_shift == shift_of(self.version)
        &&& forall|k: int|
            0 <= k < self.body@.len() ==> (#[trigger] self.body@[k])@.len() == sector_size(
                self.version,
            )
        &&& forall|j: int|
            0 <= j < self.inline_difat@.len() ==> (#[trigger] self.inline_difat@[j]).is_regular()
    }

    /// Tests the invariant that `parse` and `read` rely on.
    pub fn is_well_formed(&self) -> (r: bool)
        ensures
            r == self.wf(),
    {
        if self.version != self.header.major_version
            || self.header.mini_stream_cutoff_size != MINI_STREAM_CUTOFF
            || self.header.mini_sector_shift != 6 {
            return false;
        }
        let shift: u16 = match self.version {
            MajorVersion::Version3 => 9,
            MajorVersion::Version4 => 12,
        };
        if self.header.sector_shift != shift {
            return false;
        }
        let ss = get_sector_size(&self.version);
        let mut k: usize = 0;
        while k < self.body.len()
            invariant
                ss == sector_size(self.version),
                k <= self.body@.len(),
                forall|i: int| 0 <= i < k ==> (#[trigger] self.body@[i])@.len() == ss,
            decreases self.body@.len() - k,
        {
            if self.body[k].len() != ss {
                return false;
            }
            k = k + 1;
        }
        let mut j: usize = 0;
        while j < self.inline_difat.len()
            invariant
                j <= self.inline_difat@.len(),
                forall|i: int| 0 <= i < j ==> (#[trigger] self.inline_difat@[i]).is_regular(),
            decreases self.inline_difat@.len() - j,
        {
            if !self.inline_difat[j].is_regular_sect() {
                return false;
            }
            j = j + 1;
        }
        true
    }

    /// Decodes the header of `buf` and cuts the rest of it into sectors.
    /// The allocation tables and the directory are left for `parse`.
    pub fn from_bytes(buf: &Vec<u8>) -> (r: OleResult<Ole>)
        ensures
            r is Ok <==> decode_header_spec(buf@) is Ok,
            r matches Err(e) ==> decode_header_spec(buf@) == Err::<Header, OleError>(e),
            r matches Ok(o) ==> {
                &&& o.wf()
                &&& o.header == header_of(buf@)
                &&& o.version == o.header.major_version
                &&& o.inline_difat_view() == valid_prefix(
                    sector_ids(buf@, INLINE_DIFAT_OFFSET as int, INLINE_DIFAT_ENTRIES as nat),
                )
                &&& o.difat@ == o.inline_difat_view()
                &&& o.body_view() == partition(buf@, sector_size(o.version))
                &&& o.fat is None && o.mini_fat is None && o.directory is None
                &&& o.entries is None
            },
    {
        let header = Header::decode(buf)?;
        let inline = AllEntryDifat::decode(buf);
        let inline_difat = get_valid_entries(&inline.entries);
        let difat = copy_ids(&inline_difat);
        let version = header.major_version;
        let ss = get_sector_size(&version);
        let len = buf.len();
        let mut body: Vec<Vec<u8>> = Vec::new();
        let mut pos: usize = ss;
        let mut n: usize = 0;
        while pos <= len && len - pos >= ss
            invariant
                ss == sector_size(version),
                len == buf@.len(),
                len >= HEADER_SIZE,
                pos == (n + 1) * ss,
                n > 0 ==> pos <= len,
                body@.len() == n,
                forall|i: int|
                    0 <= i < n ==> (#[trigger] body@[i])@ == buf@.subrange(
                        (i + 1) * ss,
                        (i + 2) * ss,
                    ),
            decreases len - pos,
        {
            let mut s: Vec<u8> = Vec::with_capacity(ss);
            append_bytes(&mut s, buf, pos, ss);
            proof {
                assert(s@ =~= buf@.subrange(pos as int, pos + ss));
                assert((n + 2) * ss == (n + 1) * ss + ss) by (nonlinear_arith);
            }
            body.push(s);
            n = n + 1;
            pos = pos + ss;
        }
        let o = Ole {
            header,
            version,
            difat,
            directory: None,
            mini_fat: None,
            fat: None,
            entries: None,
            inline_difat,
            body,
        };
        proof {
            if pos <= len {
                lemma_fundamental_div_mod_converse_div(
                    len as int,
                    ss as int,
                    (n + 1) as int,
                    len - pos,
                );
            } else {
                assert(n == 0);
            }
            assert(o.body_view() =~= partition(buf@, sector_size(o.version)));
            assert forall|k: int| 0 <= k < o.body@.len() implies (#[trigger] o.body@[k])@.len()
                == sector_size(o.version) by {
                assert((k + 2) * ss == (k + 1) * ss + ss) by (nonlinear_arith);
                assert((k + 2) * ss <= len) by (nonlinear_arith)
                    requires
                        k + 1 <= n,
                        (n + 1) * ss <= len,
                        ss > 0,
                ;
            }
        }
        Ok(o)
    }

    /// The chain that starts at `index` in the FAT.
    pub fn get_fat_chain(&self, index: &SectorType) -> (r: OleResult<Vec<SectorType>>)
        ensures
            r is Ok <==> chain_of(self.fat_view(), *index) is Some,
            r matches Ok(c) ==> chain_of(self.fat_view(), *index) == Some(c@),
            r is Err ==> r == Err::<Vec<SectorType>, OleError>(OleError::InvalidEntryChain),
    {
        match &self.fat {
            Some(f) => walk_chain(f, *index),
            None => walk_chain(&Vec::new(), *index),
        }
    }

    /// The chain that starts at `index` in the mini FAT.
    pub fn get_mini_fat_chain(&self, index: &SectorType) -> (r: OleResult<Vec<SectorType>>)
        ensures
            r is Ok <==> chain_of(self.mini_fat_view(), *index) is Some,
            r matches Ok(c) ==> chain_of(self.mini_fat_view(), *index) == Some(c@),
            r is Err ==> r == Err::<Vec<SectorType>, OleError>(OleError::InvalidEntryChain),
    {
        match &self.mini_fat {
            Some(f) => walk_chain(f, *index),
            None => walk_chain(&Vec::new(), *index),
        }
    }
    /// The assembled DIFAT: the inline locations, then those of the DIFAT
    /// sector chain, which must be exactly as long as the header says; the
    /// whole must name as many FAT sectors as the header counts.
    pub open spec fn difat_spec(self) -> Result<Seq<SectorType>, OleError> {
        match difat_walk(
            self.body_view(),
            ids_per_sector(self.version),
            self.header.first_difat_sector_location,
            self.header.number_of_difat_sectors as nat,
        ) {
            None => Err(OleError::InvalidDifat),
            Some(ext) => if self.inline_difat@.len() + ext.len()
                == self.header.number_of_fat_sectors {
                Ok(self.inline_difat@ + ext)
            } else {
                Err(OleError::InvalidDifat)
            },
        }
    }

    /// The mini FAT: the tables in the FAT chain from the header's mini FAT
    /// head, whose length the header gives; empty without a head.
    pub open spec fn mini_fat_spec(self, fat: Seq<SectorType>) -> Result<Seq<SectorType>, OleError> {
        match self.header.first_mini_fat_sector_location {
            SectorType::RegularSect(_) => match chain_of(
                fat,
                self.header.first_mini_fat_sector_location,
            ) {
                None => Err(OleError::InvalidEntryChain),
                Some(c) => if c.len() == self.header.number_of_mini_fat_sectors {
                    tables_from(self.body_view(), ids_per_sector(self.version), c)
                } else {
                    Err(OleError::InvalidEntryChain)
                },
            },
            _ => Ok(Seq::empty()),
        }
    }

    /// What parsing derives from the opened container, in order: the DIFAT,
    /// the FAT, the mini FAT, the directory sector chain and the records of
    /// the directory entries; or the first error met.
    pub open spec fn parse_spec(self) -> Result<
        (Seq<SectorType>, Seq<SectorType>, Seq<SectorType>, Seq<SectorType>, Seq<Seq<u8>>),
        OleError,
    > {
        match self.difat_spec() {
            Err(e) => Err(e),
            Ok(d) => match tables_from(self.body_view(), ids_per_sector(self.version), d) {
                Err(e) => Err(e),
                Ok(f) => match self.mini_fat_spec(f) {
                    Err(e) => Err(e),
                    Ok(m) => match chain_of(f, self.header.first_directory_sector_location) {
                        None => Err(OleError::InvalidEntryChain),
                        Some(c) => match directory_records(
                            self.body_view(),
                            entries_per_directory_sector(self.version),
                            c,
                        ) {
                            Err(e) => Err(e),
                            Ok(recs) => Ok((d, f, m, c, recs)),
                        },
                    },
                },
            },
        }
    }

    /// Whether `self` is `old` with the tables `t` and the directory they
    /// describe filled in.
    pub open spec fn parsed_from(
        self,
        old: Ole,
        t: (Seq<SectorType>, Seq<SectorType>, Seq<SectorType>, Seq<SectorType>, Seq<Seq<u8>>),
    ) -> bool {
        &&& self.header == old.header
        &&& self.version == old.version
        &&& self.inline_difat@ == old.inline_difat@
        &&& self.body@ == old.body@
        &&& self.difat@ == t.0
        &&& self.fat matches Some(f) && f@ == t.1
        &&& self.mini_fat matches Some(m) && m@ == t.2
        &&& self.directory matches Some(c) && c@ == t.3
        &&& self.entries matches Some(es) && es@.len() == t.4.len() && forall|g: int|
            0 <= g < es@.len() ==> entry_fields(#[trigger] es@[g], t.4[g]) && es@[g].chain_view()
                == entry_chain_spec(es@[g], self.version, t.1, t.2)
    }

    fn assemble_difat(&self) -> (r: OleResult<Vec<SectorType>>)
        requires
            self.wf(),
        ensures
            seq_result(r) == self.difat_spec(),
    {
        let per = get_ids_per_sector(&self.version);
        let nd = self.header.number_of_difat_sectors;
        let head = self.header.first_difat_sector_location;
        let ghost bv = self.body_view();
        let mut ext: Vec<SectorType> = Vec::new();
        let mut cur = head;
        let mut visited: u32 = 0;
        while cur.is_regular_sect()
            invariant
                self.wf(),
                bv == self.body_view(),
                per == ids_per_sector(self.version),
                head == self.header.first_difat_sector_location,
                nd == self.header.number_of_difat_sectors,
                visited <= nd,
                difat_walk(bv, per as nat, head, nd as nat) == prepend(
                    ext@,
                    difat_walk(bv, per as nat, cur, (nd - visited) as nat),
                ),
            decreases nd - visited,
        {
            let k = match cur {
                SectorType::RegularSect(k) => k,
                _ => 0,
            };
            if visited == nd || k as usize >= self.body.len() {
                assert(bv.len() == self.body@.len());
                return Err(OleError::InvalidDifat);
            }
            let sector = &self.body[k as usize];
            assert(sector@ == bv[k as int]);
            let d = Difat::decode(sector, per - 1);
            let mut valid = get_valid_entries(&d.entries);
            let ghost before = ext@;
            let ghost rest = difat_walk(bv, per as nat, d.next, (nd - visited - 1) as nat);
            ext.append(&mut valid);
            proof {
                if let Some(c) = rest {
                    assert(before + (valid_prefix(d.entries@) + c) =~= ext@ + c);
                }
            }
            cur = d.next;
            visited = visited + 1;
        }
        if visited != nd {
            return Err(OleError::InvalidDifat);
        }
        proof {
            assert(ext@ + Seq::<SectorType>::empty() =~= ext@);
        }
        let mut difat = copy_ids(&self.inline_difat);
        difat.append(&mut ext);
        if difat.len() != self.header.number_of_fat_sectors as usize {
            return Err(OleError::InvalidDifat);
        }
        Ok(difat)
    }

    fn load_tables(&self, sectors: &Vec<SectorType>) -> (r: OleResult<Vec<SectorType>>)
        requires
            self.wf(),
        ensures
            seq_result(r) == tables_from(self.body_view(), ids_per_sector(self.version), sectors@),
    {
        let per = get_ids_per_sector(&self.version);
        let ghost bv = self.body_view();
        let mut acc: Vec<SectorType> = Vec::new();
        let mut i: usize = 0;
        while i < sectors.len()
            invariant
                self.wf(),
                bv == self.body_view(),
                per == ids_per_sector(self.version),
                i <= sectors@.len(),
                tables_from(bv, per as nat, sectors@.take(i as int)) == Ok::<
                    Seq<SectorType>,
                    OleError,
                >(acc@),
            decreases sectors@.len() - i,
        {
            assert(sectors@.take(i + 1).drop_last() =~= sectors@.take(i as int));
            match sectors[i] {
                SectorType::RegularSect(k) => {
                    if k as usize >= self.body.len() {
                        proof {
                            lemma_tables_prefix_err(bv, per as nat, sectors@, i + 1);
                        }
                        return Err(OleError::InvalidEntryIndex);
                    }
                    let sector = &self.body[k as usize];
                    assert(sector@ == bv[k as int]);
                    let mut f = Fat::decode(sector, per);
                    acc.append(&mut f.entries);
                },
                _ => {},
            }
            i = i + 1;
        }
        assert(sectors@.take(i as int) =~= sectors@);
        Ok(acc)
    }

    fn load_mini_fat(&self, fat: &Vec<SectorType>) -> (r: OleResult<Vec<SectorType>>)
        requires
            self.wf(),
        ensures
            seq_result(r) == self.mini_fat_spec(fat@),
    {
        let head = self.header.first_mini_fat_sector_location;
        if !head.is_regular_sect() {
            return Ok(Vec::new());
        }
        let chain = walk_chain(fat, head)?;
        if chain.len() != self.header.number_of_mini_fat_sectors as usize {
            return Err(OleError::InvalidEntryChain);
        }
        self.load_tables(&chain)
    }

    fn chain_for(&self, e: &Entry, fat: &Vec<SectorType>, mini_fat: &Vec<SectorType>) -> (r:
        Option<Vec<SectorType>>)
        ensures
            match r {
                Some(c) => entry_chain_spec(*e, self.version, fat@, mini_fat@) == Some(c@),
                None => entry_chain_spec(*e, self.version, fat@, mini_fat@) is None,
            },
    {
        let walked = match e.object_type {
            ObjectType::Stream => {
                if self.stream_len(e) < MINI_STREAM_CUTOFF as u64 {
                    walk_chain(mini_fat, e.starting_sector_location)
                } else {
                    walk_chain(fat, e.starting_sector_location)
                }
            },
            ObjectType::RootStorage => walk_chain(fat, e.starting_sector_location),
            _ => return None,
        };
        match walked {
            Ok(c) => Some(c),
            Err(_) => None,
        }
    }

    /// The size of the entry's stream: version 3 keeps the low 32 bits.
    pub fn stream_len(&self, e: &Entry) -> (r: u64)
        ensures
            r == stream_len(e.stream_size, self.version),
    {
        match self.version {
            MajorVersion::Version3 => e.stream_size % 0x1_0000_0000,
            MajorVersion::Version4 => e.stream_size,
        }
    }

    fn load_directory(
        &self,
        fat: &Vec<SectorType>,
        mini_fat: &Vec<SectorType>,
        chain: &Vec<SectorType>,
    ) -> (r: OleResult<Vec<Entry>>)
        requires
            self.wf(),
        ensures
            match directory_records(
                self.body_view(),
                entries_per_directory_sector(self.version),
                chain@,
            ) {
                Err(e) => r == Err::<Vec<Entry>, OleError>(e),
                Ok(recs) => r matches Ok(es) && es@.len() == recs.len() && forall|g: int|
                    0 <= g < es@.len() ==> entry_fields(#[trigger] es@[g], recs[g])
                        && es@[g].chain_view() == entry_chain_spec(
                        es@[g],
                        self.version,
                        fat@,
                        mini_fat@,
                    ),
            },
    {
        let dpe = get_entries_per_directory_sector(&self.version);
        let ghost bv = self.body_view();
        let mut es: Vec<Entry> = Vec::new();
        let ghost mut recs: Seq<Seq<u8>> = Seq::empty();
        let mut i: usize = 0;
        while i < chain.len()
            invariant
                self.wf(),
                bv == self.body_view(),
                dpe == entries_per_directory_sector(self.version),
                i <= chain@.len(),
                directory_records(bv, dpe as nat, chain@.take(i as int)) == Ok::<
                    Seq<Seq<u8>>,
                    OleError,
                >(recs),
                es@.len() == recs.len(),
                forall|g: int|
                    0 <= g < es@.len() ==> entry_fields(#[trigger] es@[g], recs[g])
                        && es@[g].chain_view() == entry_chain_spec(
                        es@[g],
                        self.version,
                        fat@,
                        mini_fat@,
                    ),
            decreases chain@.len() - i,
        {
            assert(chain@.take(i + 1).drop_last() =~= chain@.take(i as int));
            match chain[i] {
                SectorType::RegularSect(k) => {
                    if k as usize >= self.body.len() {
                        proof {
                            lemma_records_prefix_err(bv, dpe as nat, chain@, i + 1);
                        }
                        return Err(OleError::InvalidEntryIndex);
                    }
                    let sector = &self.body[k as usize];
                    assert(sector@ == bv[k as int]);
                    let mut d = match Directory::decode(sector, dpe) {
                        Ok(d) => d,
                        Err(err) => {
                            proof {
                                lemma_records_prefix_err(bv, dpe as nat, chain@, i + 1);
                            }
                            return Err(err);
                        },
                    };
                    let ghost orig = d.entries@;
                    let ghost base = recs;
                    let ghost srecs = sector_records(bv[k as int], dpe as nat);
                    let mut j: usize = 0;
                    while j < dpe
                        invariant
                            bv == self.body_view(),
                            0 <= k < bv.len(),
                            sector@ == bv[k as int],
                            dpe == entries_per_directory_sector(self.version),
                            j <= dpe,
                            orig.len() == dpe,
                            d.entries@ == orig.subrange(j as int, dpe as int),
                            forall|t: int|
                                0 <= t < dpe ==> entry_fields(#[trigger] orig[t], record_at(sector@, t))
                                    && orig[t].chain is None,
                            srecs == sector_records(bv[k as int], dpe as nat),
                            es@.len() == base.len() + j,
                            forall|g: int|
                                0 <= g < es@.len() ==> entry_fields(
                                    #[trigger] es@[g],
                                    (base + srecs)[g],
                                ) && es@[g].chain_view() == entry_chain_spec(
                                    es@[g],
                                    self.version,
                                    fat@,
                                    mini_fat@,
                                ),
                        decreases dpe - j,
                    {
                        let mut e = d.entries.remove(0);
                        assert(e == orig[j as int]);
                        assert(d.entries@ =~= orig.subrange(j + 1, dpe as int));
                        match self.chain_for(&e, fat, mini_fat) {
                            Some(c) => e.append_chain(c),
                            None => {},
                        }
                        assert((base + srecs)[base.len() + j] == srecs[j as int]);
                        es.push(e);
                        j = j + 1;
                    }
                    proof {
                        recs = base + srecs;
                    }
                },
                _ => {},
            }
            i = i + 1;
        }
        assert(chain@.take(i as int) =~= chain@);
        Ok(es)
    }

    /// Loads the DIFAT, the FAT, the mini FAT and the directory, attaching
    /// to each stream and to the root storage the chain of its data. On an
    /// error the container is left as it was.
    pub fn parse(&mut self) -> (r: OleResult<()>)
        requires
            old(self).wf(),
        ensures
            match old(self).parse_spec() {
                Ok(t) => r is Ok && final(self).parsed_from(*old(self), t) && final(self).wf()
                    && final(self).parse_spec() == old(self).parse_spec(),
                Err(e) => r == Err::<(), OleError>(e) && *final(self) == *old(self),
            },
    {
        let difat = self.assemble_difat()?;
        let fat = self.load_tables(&difat)?;
        let mini_fat = self.load_mini_fat(&fat)?;
        let dir_chain = walk_chain(&fat, self.header.first_directory_sector_location)?;
        let entries = self.load_directory(&fat, &mini_fat, &dir_chain)?;
        self.difat = difat;
        self.fat = Some(fat);
        self.mini_fat = Some(mini_fat);
        self.directory = Some(dir_chain);
        self.entries = Some(entries);
        proof {
            assert(self.body_view() =~= old(self).body_view());
        }
        Ok(())
    }
    /// The chain of the root storage, which must be the first directory
    /// entry: the mini stream.
    pub open spec fn root_chain(self) -> Option<Seq<SectorType>> {
        match self.entries {
            Some(es) => if es@.len() > 0 && es@[0].object_type == ObjectType::RootStorage {
                es@[0].chain_view()
            } else {
                None
            },
            None => None,
        }
    }

    /// What reading `e` gives: the root storage and streams of at least the
    /// cutoff are read sector by sector along their chain, smaller streams
    /// mini sector by mini sector through the mini stream.
    pub open spec fn read_spec(self, e: Entry) -> Result<Seq<u8>, OleError> {
        let size = stream_len(e.stream_size, self.version);
        if size == 0 {
            Err(OleError::InvalidEntrySize)
        } else if e.object_type != ObjectType::RootStorage && size < MINI_STREAM_CUTOFF {
            match (e.chain_view(), self.root_chain()) {
                (Some(c), Some(rc)) => mini_read(
                    self.body_view(),
                    sector_size(self.version),
                    rc,
                    c,
                    size,
                ),
                _ => Err(OleError::InvalidEntryChain),
            }
        } else {
            match e.chain_view() {
                Some(c) => large_read(self.body_view(), sector_size(self.version), c, size),
                None => Err(OleError::InvalidEntryChain),
            }
        }
    }

    /// The contents of the stream that `entry` describes.
    pub fn read(&self, entry: &Entry) -> (r: OleResult<Vec<u8>>)
        requires
            self.wf(),
        ensures
            seq_result(r) == self.read_spec(*entry),
            r matches Ok(v) ==> v@.len() == stream_len(entry.stream_size, self.version),
    {
        let size = self.stream_len(entry);
        if size == 0 {
            return Err(OleError::InvalidEntrySize);
        }
        let r = match entry.object_type {
            ObjectType::RootStorage => self.get_stream_data(entry, size),
            _ => if size < MINI_STREAM_CUTOFF as u64 {
                self.get_mini_stream_data(entry, size)
            } else {
                self.get_stream_data(entry, size)
            },
        };
        proof {
            if r is Ok {
                lemma_read_length(*self, *entry);
            }
        }
        r
    }

    fn get_stream_data(&self, entry: &Entry, size: u64) -> (r: OleResult<Vec<u8>>)
        requires
            self.wf(),
        ensures
            seq_result(r) == match entry.chain_view() {
                Some(c) => large_read(self.body_view(), sector_size(self.version), c, size as nat),
                None => Err(OleError::InvalidEntryChain),
            },
    {
        let chain = match &entry.chain {
            Some(c) => c,
            None => return Err(OleError::InvalidEntryChain),
        };
        let ss = get_sector_size(&self.version);
        let ghost bv = self.body_view();
        let ghost whole = large_read(bv, ss as nat, chain@, size as nat);
        let mut data: Vec<u8> = Vec::new();
        let mut rem: u64 = size;
        let mut i: usize = 0;
        assert(chain@.skip(0) =~= chain@);
        while rem > 0
            invariant
                self.wf(),
                bv == self.body_view(),
                ss == sector_size(self.version),
                i <= chain@.len(),
                entry.chain_view() == Some(chain@),
                whole == large_read(bv, ss as nat, chain@, size as nat),
                whole == prepend_bytes(data@, large_read(bv, ss as nat, chain@.skip(i as int), rem as nat)),
            decreases chain@.len() - i,
        {
            if i >= chain.len() {
                assert(chain@.skip(i as int).len() == 0);
                return Err(OleError::InvalidEntryChain);
            }
            assert(chain@.skip(i as int)[0] == chain@[i as int]);
            let ghost before = data@;
            let ghost tail = large_read(bv, ss as nat, chain@.skip(i + 1), rem as nat);
            assert(chain@.skip(i as int).drop_first() =~= chain@.skip(i + 1));
            match chain[i] {
                SectorType::RegularSect(k) => {
                    if k as usize >= self.body.len() {
                        return Err(OleError::InvalidEntryIndex);
                    }
                    let n: u64 = if rem < ss as u64 {
                        rem
                    } else {
                        ss as u64
                    };
                    let sector = &self.body[k as usize];
                    assert(sector@ == bv[k as int]);
                    append_bytes(&mut data, sector, 0, n as usize);
                    let ghost rest = large_read(bv, ss as nat, chain@.skip(i + 1), (rem - n) as nat);
                    proof {
                        assert(sector@.subrange(0, n as int) =~= sector@.take(n as int));
                        if let Ok(x) = rest {
                            assert(before + (sector@.take(n as int) + x) =~= data@ + x);
                        }
                    }
                    rem = rem - n;
                },
                _ => {},
            }
            i = i + 1;
        }
        proof {
            assert(data@ + Seq::<u8>::empty() =~= data@);
        }
        Ok(data)
    }

    fn get_mini_stream_data(&self, entry: &Entry, size: u64) -> (r: OleResult<Vec<u8>>)
        requires
            self.wf(),
        ensures
            seq_result(r) == match (entry.chain_view(), self.root_chain()) {
                (Some(c), Some(rc)) => mini_read(
                    self.body_view(),
                    sector_size(self.version),
                    rc,
                    c,
                    size as nat,
                ),
                _ => Err(OleError::InvalidEntryChain),
            },
    {
        let chain = match &entry.chain {
            Some(c) => c,
            None => return Err(OleError::InvalidEntryChain),
        };
        let root = match &self.entries {
            Some(es) => {
                if es.len() == 0 || es[0].object_type != ObjectType::RootStorage {
                    return Err(OleError::InvalidEntryChain);
                }
                match &es[0].chain {
                    Some(rc) => rc,
                    None => return Err(OleError::InvalidEntryChain),
                }
            },
            None => return Err(OleError::InvalidEntryChain),
        };
        let ss = get_sector_size(&self.version);
        let fanout = ss / MINI_SECTOR_SIZE;
        let ghost bv = self.body_view();
        let ghost whole = mini_read(bv, ss as nat, root@, chain@, size as nat);
        let mut data: Vec<u8> = Vec::new();
        let mut rem: u64 = size;
        let mut i: usize = 0;
        assert(chain@.skip(0) =~= chain@);
        while rem > 0
            invariant
                self.wf(),
                bv == self.body_view(),
                ss == sector_size(self.version),
                fanout == ss / MINI_SECTOR_SIZE,
                i <= chain@.len(),
                entry.chain_view() == Some(chain@),
                self.root_chain() == Some(root@),
                whole == mini_read(bv, ss as nat, root@, chain@, size as nat),
                whole == prepend_bytes(
                    data@,
                    mini_read(bv, ss as nat, root@, chain@.skip(i as int), rem as nat),
                ),
            decreases chain@.len() - i,
        {
            if i >= chain.len() {
                assert(chain@.skip(i as int).len() == 0);
                return Err(OleError::InvalidEntryChain);
            }
            assert(chain@.skip(i as int)[0] == chain@[i as int]);
            let ghost before = data@;
            assert(chain@.skip(i as int).drop_first() =~= chain@.skip(i + 1));
            match chain[i] {
                SectorType::RegularSect(m) => {
                    let q = m as usize / fanout;
                    if q >= root.len() {
                        return Err(OleError::InvalidEntryChain);
                    }
                    let k = match root[q] {
                        SectorType::RegularSect(k) => k,
                        _ => return Err(OleError::InvalidEntryChain),
                    };
                    if k as usize >= self.body.len() {
                        return Err(OleError::InvalidEntryIndex);
                    }
                    let off = (m as usize % fanout) * MINI_SECTOR_SIZE;
                    let n: u64 = if rem < MINI_SECTOR_SIZE as u64 {
                        rem
                    } else {
                        MINI_SECTOR_SIZE as u64
                    };
                    let sector = &self.body[k as usize];
                    assert(sector@ == bv[k as int]);
                    assert(off + MINI_SECTOR_SIZE <= ss) by {
                        if ss == 512 {
                            assert(fanout == 8);
                        } else {
                            assert(fanout == 64);
                        }
                    }
                    append_bytes(&mut data, sector, off, n as usize);
                    let ghost rest = mini_read(
                        bv,
                        ss as nat,
                        root@,
                        chain@.skip(i + 1),
                        (rem - n) as nat,
                    );
                    proof {
                        if let Ok(x) = rest {
                            assert(before + (sector@.subrange(off as int, off + n) + x) =~= data@
                                + x);
                        }
                    }
                    rem = rem - n;
                },
                _ => {},
            }
            i = i + 1;
        }
        proof {
            assert(data@ + Seq::<u8>::empty() =~= data@);
        }
        Ok(data)
    }
}

/// Whatever the large path reads holds exactly the bytes asked for.
pub proof fn lemma_large_read_length(body: Seq<Seq<u8>>, ss: nat, chain: Seq<SectorType>, rem: nat)
    requires
        forall|k: int| 0 <= k < body.len() ==> (#[trigger] body[k]).len() == ss,
        large_read(body, ss, chain, rem) is Ok,
    ensures
        large_read(body, ss, chain, rem)->Ok_0.len() == rem,
    decreases chain.len(),
{
    if rem > 0 && chain.len() > 0 {
        match chain[0] {
            SectorType::RegularSect(k) => {
                let n = if rem < ss {
                    rem
                } else {
                    ss
                };
                lemma_large_read_length(body, ss, chain.drop_first(), (rem - n) as nat);
            },
            _ => {
                lemma_large_read_length(body, ss, chain.drop_first(), rem);
            },
        }
    }
}

/// Whatever the mini path reads holds exactly the bytes asked for.
pub proof fn lemma_mini_read_length(
    body: Seq<Seq<u8>>,
    ss: nat,
    root: Seq<SectorType>,
    chain: Seq<SectorType>,
    rem: nat,
)
    requires
        ss == 512 || ss == 4096,
        forall|k: int| 0 <= k < body.len() ==> (#[trigger] body[k]).len() == ss,
        mini_read(body, ss, root, chain, rem) is Ok,
    ensures
        mini_read(body, ss, root, chain, rem)->Ok_0.len() == rem,
    decreases chain.len(),
{
    if rem > 0 && chain.len() > 0 {
        match chain[0] {
            SectorType::RegularSect(m) => {
                let n = if rem < MINI_SECTOR_SIZE as nat {
                    rem
                } else {
                    MINI_SECTOR_SIZE as nat
                };
                let fanout = ss / MINI_SECTOR_SIZE as nat;
                let off = (m as nat % fanout) * MINI_SECTOR_SIZE as nat;
                if ss == 512 {
                    assert(off + 64 <= 512);
                } else {
                    assert(off + 64 <= 4096);
                }
                lemma_mini_read_length(body, ss, root, chain.drop_first(), (rem - n) as nat);
            },
            _ => {
                lemma_mini_read_length(body, ss, root, chain.drop_first(), rem);
            },
        }
    }
}

/// Every successful read returns as many bytes as the stream's size says:
/// its low 32 bits in version 3.
pub proof fn lemma_read_length(o: Ole, e: Entry)
    requires
        o.wf(),
        o.read_spec(e) is Ok,
    ensures
        o.read_spec(e)->Ok_0.len() == stream_len(e.stream_size, o.version),
{
    let bv = o.body_view();
    let ss = sector_size(o.version);
    assert forall|k: int| 0 <= k < bv.len() implies (#[trigger] bv[k]).len() == ss by {
        assert(bv[k] == o.body@[k]@);
    }
    let size = stream_len(e.stream_size, o.version);
    if e.object_type != ObjectType::RootStorage && size < MINI_STREAM_CUTOFF {
        lemma_mini_read_length(bv, ss, o.root_chain()->0, e.chain_view()->0, size);
    } else {
        lemma_large_read_length(bv, ss, e.chain_view()->0, size);
    }
}

/// A chain that a walk completes holds regular identifiers only, each the
/// successor of the one before it in `table`, ends where the table holds a
/// marker, and is no longer than the fuel.
pub proof fn lemma_chain_walk_shape(table: Seq<SectorType>, cur: SectorType, fuel: nat)
    requires
        chain_walk(table, cur, fuel) is Some,
    ensures
        ({
            let c = chain_walk(table, cur, fuel)->0;
            &&& c.len() <= fuel
            &&& forall|i: int| 0 <= i < c.len() ==> (#[trigger] c[i]).is_regular()
            &&& forall|i: int| 0 <= i < c.len() ==> (#[trigger] c[i])->RegularSect_0 < table.len()
            &&& forall|i: int|
                0 <= i < c.len() - 1 ==> c[i + 1] == table[(#[trigger] c[i])->RegularSect_0 as int]
            &&& c.len() == 0 ==> !cur.is_regular()
            &&& c.len() > 0 ==> c[0] == cur && !table[c.last()->RegularSect_0 as int].is_regular()
        }),
    decreases fuel,
{
    match cur {
        SectorType::RegularSect(v) => {
            let next = table[v as int];
            lemma_chain_walk_shape(table, next, (fuel - 1) as nat);
            let rest = chain_walk(table, next, (fuel - 1) as nat)->0;
            let c = chain_walk(table, cur, fuel)->0;
            assert(c == seq![cur] + rest);
            assert forall|i: int| 0 <= i < c.len() - 1 implies c[i + 1] == table[(
            #[trigger] c[i])->RegularSect_0 as int] by {
                if i > 0 {
                    assert(c[i] == rest[i - 1]);
                }
            }
            if rest.len() > 0 {
                assert(c.last() == rest.last());
            }
        },
        _ => {},
    }
}

/// A chain walk takes at most as many steps as the table has entries: a
/// chain that it returns is no longer than the table and holds regular
/// identifiers only; a walk that would need more steps fails.
pub proof fn lemma_chain_bounded(table: Seq<SectorType>, head: SectorType)
    requires
        chain_of(table, head) is Some,
    ensures
        chain_of(table, head)->0.len() <= table.len(),
        forall|i: int|
            0 <= i < chain_of(table, head)->0.len() ==> (#[trigger] chain_of(
                table,
                head,
            )->0[i]).is_regular(),
{
    lemma_chain_walk_shape(table, head, table.len());
}

/// The geometry of every opened container: mini sectors of 64 bytes, a
/// cutoff of 4096, and per version the sector size, identifiers per FAT
/// sector and directory entries per sector.
pub proof fn lemma_container_geometry(o: Ole)
    requires
        o.wf(),
    ensures
        o.header.mini_stream_cutoff_size == 4096,
        o.header.mini_sector_shift == 6,
        o.version == MajorVersion::Version3 ==> sector_size(o.version) == 512 && ids_per_sector(
            o.version,
        ) == 128 && entries_per_directory_sector(o.version) == 4,
        o.version == MajorVersion::Version4 ==> sector_size(o.version) == 4096 && ids_per_sector(
            o.version,
        ) == 1024 && entries_per_directory_sector(o.version) == 32,
{
    crate::common::lemma_geometry(o.version);
}

/// After a successful parse the DIFAT names exactly as many FAT sectors as
/// the header counts, each of them regular.
pub proof fn lemma_difat_length(old: Ole, new: Ole)
    requires
        old.wf(),
        old.parse_spec() is Ok,
        new.parsed_from(old, old.parse_spec()->Ok_0),
    ensures
        new.difat@.len() == new.header.number_of_fat_sectors,
        forall|j: int| 0 <= j < new.difat@.len() ==> (#[trigger] new.difat@[j]).is_regular(),
{
    let d = old.difat_spec()->Ok_0;
    let ext = difat_walk(
        old.body_view(),
        ids_per_sector(old.version),
        old.header.first_difat_sector_location,
        old.header.number_of_difat_sectors as nat,
    )->0;
    lemma_difat_walk_regular(
        old.body_view(),
        ids_per_sector(old.version),
        old.header.first_difat_sector_location,
        old.header.number_of_difat_sectors as nat,
    );
    assert(d == old.inline_difat@ + ext);
    assert forall|j: int| 0 <= j < d.len() implies (#[trigger] d[j]).is_regular() by {
        if j >= old.inline_difat@.len() {
            assert(d[j] == ext[j - old.inline_difat@.len()]);
        }
    }
}

/// The locations that a DIFAT sector chain contributes are all regular.
pub proof fn lemma_difat_walk_regular(body: Seq<Seq<u8>>, per: nat, cur: SectorType, fuel: nat)
    requires
        difat_walk(body, per, cur, fuel) is Some,
    ensures
        forall|j: int|
            0 <= j < difat_walk(body, per, cur, fuel)->0.len() ==> (#[trigger] difat_walk(
                body,
                per,
                cur,
                fuel,
            )->0[j]).is_regular(),
    decreases fuel,
{
    match cur {
        SectorType::RegularSect(k) => {
            let s = body[k as int];
            let next = SectorType::decoded(le_u32(s, 4 * (per - 1)));
            let vp = valid_prefix(sector_ids(s, 0, (per - 1) as nat));
            crate::common::lemma_valid_prefix_regular(sector_ids(s, 0, (per - 1) as nat));
            lemma_difat_walk_regular(body, per, next, (fuel - 1) as nat);
            let rest = difat_walk(body, per, next, (fuel - 1) as nat)->0;
            let all = difat_walk(body, per, cur, fuel)->0;
            assert(all == vp + rest);
            assert forall|j: int| 0 <= j < all.len() implies (#[trigger] all[j]).is_regular() by {
                if j >= vp.len() {
                    assert(all[j] == rest[j - vp.len()]);
                }
            }
        },
        _ => {},
    }
}

/// Every chain attached by a parse holds regular identifiers only and is
/// no longer than the table it was walked in.
pub proof fn lemma_parsed_chains_regular(old: Ole, new: Ole, g: int)
    requires
        old.wf(),
        old.parse_spec() is Ok,
        new.parsed_from(old, old.parse_spec()->Ok_0),
        0 <= g < new.entries->0@.len(),
        new.entries->0@[g].chain_view() is Some,
    ensures
        ({
            let e = new.entries->0@[g];
            let c = e.chain_view()->0;
            &&& forall|i: int| 0 <= i < c.len() ==> (#[trigger] c[i]).is_regular()
            &&& c.len() <= new.fat_view().len() || c.len() <= new.mini_fat_view().len()
        }),
{
    let t = old.parse_spec()->Ok_0;
    let e = new.entries->0@[g];
    assert(entry_fields(e, t.4[g]));
    match e.object_type {
        ObjectType::Stream => {
            if stream_len(e.stream_size, new.version) < MINI_STREAM_CUTOFF {
                lemma_chain_bounded(t.2, e.starting_sector_location);
            } else {
                lemma_chain_bounded(t.1, e.starting_sector_location);
            }
        },
        _ => {
            lemma_chain_bounded(t.1, e.starting_sector_location);
        },
    }
}

/// Parsing a parsed container again derives the same tables and the same
/// directory: the outcome depends only on what opening the file set.
pub proof fn lemma_parse_idempotent(a: Ole, b: Ole, c: Ole)
    requires
        a.wf(),
        a.parse_spec() is Ok,
        b.parsed_from(a, a.parse_spec()->Ok_0),
        c.parsed_from(b, b.parse_spec()->Ok_0),
    ensures
        b.parse_spec() == a.parse_spec(),
        c.header == b.header,
        c.version == b.version,
        c.body@ == b.body@,
        c.difat@ == b.difat@,
        c.fat_view() == b.fat_view(),
        c.mini_fat_view() == b.mini_fat_view(),
        c.directory->0@ == b.directory->0@,
        c.entries->0@.len() == b.entries->0@.len(),
        forall|g: int|
            0 <= g < c.entries->0@.len() ==> (#[trigger] c.entries->0@[g]).same_fields(
                b.entries->0@[g],
            ) && c.entries->0@[g].chain_view() == b.entries->0@[g].chain_view(),
{
    assert(b.body_view() =~= a.body_view());
    assert(b.parse_spec() == a.parse_spec());
    let t = a.parse_spec()->Ok_0;
    assert forall|g: int| 0 <= g < c.entries->0@.len() implies (#[trigger] c.entries->0@[
        g
    ]).same_fields(b.entries->0@[g]) && c.entries->0@[g].chain_view()
        == b.entries->0@[g].chain_view() by {
        assert(entry_fields(c.entries->0@[g], t.4[g]));
        assert(entry_fields(b.entries->0@[g], t.4[g]));
    }
}

/// Two reads of one entry from one container give the same outcome, byte
/// for byte.
pub proof fn lemma_read_deterministic(
    o: Ole,
    e: Entry,
    r1: OleResult<Vec<u8>>,
    r2: OleResult<Vec<u8>>,
)
    requires
        seq_result(r1) == o.read_spec(e),
        seq_result(r2) == o.read_spec(e),
    ensures
        r1 is Ok <==> r2 is Ok,
        r1 matches Ok(v1) ==> r2 matches Ok(v2) && v1@ == v2@,
        r1 matches Err(e1) ==> r2 matches Err(e2) && e1 == e2,
{
}

/// A stream whose size is exactly the cutoff is no small stream: its chain
/// is walked in the FAT and it is read sector by sector.
pub proof fn lemma_cutoff_is_large(o: Ole, e: Entry, fat: Seq<SectorType>, mini: Seq<SectorType>)
    requires
        e.object_type == ObjectType::Stream,
        stream_len(e.stream_size, o.version) == MINI_STREAM_CUTOFF,
    ensures
        entry_chain_spec(e, o.version, fat, mini) == chain_of(fat, e.starting_sector_location),
        o.read_spec(e) == match e.chain_view() {
            Some(c) => large_read(o.body_view(), sector_size(o.version), c, 4096),
            None => Err(OleError::InvalidEntryChain),
        },
{
}

/// An empty stream cannot be read.
pub proof fn lemma_empty_stream(o: Ole, e: Entry)
    requires
        stream_len(e.stream_size, o.version) == 0,
    ensures
        o.read_spec(e) == Err::<Seq<u8>, OleError>(OleError::InvalidEntrySize),
{
}

/// The root storage is always read sector by sector: its contents are the
/// sectors of its chain one after the other, cut at its size.
pub proof fn lemma_root_read(o: Ole, e: Entry)
    requires
        e.object_type == ObjectType::RootStorage,
        stream_len(e.stream_size, o.version) > 0,
        e.chain_view() is Some,
    ensures
        o.read_spec(e) == large_read(
            o.body_view(),
            sector_size(o.version),
            e.chain_view()->0,
            stream_len(e.stream_size, o.version),
        ),
{
}

/// When less than a whole sector remains, exactly that many bytes are taken
/// from the start of the next sector of the chain.
pub proof fn lemma_large_partial_tail(body: Seq<Seq<u8>>, ss: nat, chain: Seq<SectorType>, rem: nat)
    requires
        0 < rem < ss,
        chain.len() > 0,
        chain[0] matches SectorType::RegularSect(k) && k < body.len(),
    ensures
        large_read(body, ss, chain, rem) == Ok::<Seq<u8>, OleError>(
            body[chain[0]->RegularSect_0 as int].take(rem as int),
        ),
{
    let k = chain[0]->RegularSect_0;
    assert(large_read(body, ss, chain.drop_first(), 0) == Ok::<Seq<u8>, OleError>(Seq::empty()));
    assert(body[k as int].take(rem as int) + Seq::<u8>::empty() =~= body[k as int].take(
        rem as int,
    ));
}

/// When less than a whole mini sector remains, exactly that many bytes are
/// taken from the next mini sector of the chain.
pub proof fn lemma_mini_partial_tail(
    body: Seq<Seq<u8>>,
    ss: nat,
    root: Seq<SectorType>,
    chain: Seq<SectorType>,
    rem: nat,
)
    requires
        0 < rem < MINI_SECTOR_SIZE as nat,
        ss == 512 || ss == 4096,
        chain.len() > 0,
        chain[0] is RegularSect,
        (chain[0]->RegularSect_0 as nat / (ss / MINI_SECTOR_SIZE as nat)) < root.len(),
        root[(chain[0]->RegularSect_0 as nat / (ss / MINI_SECTOR_SIZE as nat)) as int] matches SectorType::RegularSect(
            k,
        ) && k < body.len(),
    ensures
        ({
            let m = chain[0]->RegularSect_0 as nat;
            let fanout = ss / MINI_SECTOR_SIZE as nat;
            let k = root[(m / fanout) as int]->RegularSect_0;
            let off = (m % fanout) * MINI_SECTOR_SIZE as nat;
            mini_read(body, ss, root, chain, rem) == Ok::<Seq<u8>, OleError>(
                body[k as int].subrange(off as int, (off + rem) as int),
            )
        }),
{
    let m = chain[0]->RegularSect_0 as nat;
    let fanout = ss / MINI_SECTOR_SIZE as nat;
    let k = root[(m / fanout) as int]->RegularSect_0;
    let off = (m % fanout) * MINI_SECTOR_SIZE as nat;
    let x = body[k as int].subrange(off as int, (off + rem) as int);
    assert(mini_read(body, ss, root, chain.drop_first(), 0) == Ok::<Seq<u8>, OleError>(
        Seq::empty(),
    ));
    assert(x + Seq::<u8>::empty() =~= x);
}

/// The bytes that the large path reads at `q * ss + off` are those of the
/// `q`-th sector of the chain at `off`.
pub proof fn lemma_large_read_at(
    body: Seq<Seq<u8>>,
    ss: nat,
    chain: Seq<SectorType>,
    rem: nat,
    q: nat,
    off: nat,
    n: nat,
)
    requires
        ss > 0,
        forall|k: int| 0 <= k < body.len() ==> (#[trigger] body[k]).len() == ss,
        forall|i: int| 0 <= i < chain.len() ==> (#[trigger] chain[i]).is_regular(),
        large_read(body, ss, chain, rem) is Ok,
        q < chain.len(),
        0 < n,
        off + n <= ss,
        q * ss + off + n <= rem,
    ensures
        chain[q as int]->RegularSect_0 < body.len(),
        large_read(body, ss, chain, rem)->Ok_0.subrange(
            (q * ss + off) as int,
            (q * ss + off + n) as int,
        ) == body[chain[q as int]->RegularSect_0 as int].subrange(off as int, (off + n) as int),
    decreases chain.len(),
{
    assert(chain[0].is_regular());
    let k = chain[0]->RegularSect_0;
    let t = if rem < ss {
        rem
    } else {
        ss
    };
    let rest = large_read(body, ss, chain.drop_first(), (rem - t) as nat);
    let x = large_read(body, ss, chain, rem)->Ok_0;
    lemma_large_read_length(body, ss, chain, rem);
    assert(x == body[k as int].take(t as int) + rest->Ok_0);
    if q == 0 {
        assert(x.subrange(off as int, (off + n) as int) =~= body[k as int].subrange(
            off as int,
            (off + n) as int,
        ));
    } else {
        assert(q * ss == (q - 1) * ss + ss) by (nonlinear_arith);
        assert(ss <= q * ss) by (nonlinear_arith)
            requires
                q >= 1,
        ;
        assert(t == ss);
        let d = chain.drop_first();
        assert forall|i: int| 0 <= i < d.len() implies (#[trigger] d[i]).is_regular() by {
            assert(d[i] == chain[i + 1]);
        }
        lemma_large_read_at(body, ss, d, (rem - ss) as nat, (q - 1) as nat, off, n);
        assert(d[q - 1] == chain[q as int]);
        let a = ((q - 1) * ss + off) as int;
        assert(x.subrange(a + ss, a + ss + n) =~= rest->Ok_0.subrange(a, a + n));
    }
}

/// The mini stream is the root storage's own contents: mini sector `m` as
/// the small path copies it is the root's read at `64 * m`.
pub proof fn lemma_mini_stream_backing(o: Ole, root: Entry, m: nat, n: nat)
    requires
        o.wf(),
        root.object_type == ObjectType::RootStorage,
        root.chain_view() is Some,
        forall|i: int|
            0 <= i < root.chain_view()->0.len() ==> (#[trigger] root.chain_view()->0[i]).is_regular(),
        o.read_spec(root) is Ok,
        m / (sector_size(o.version) / MINI_SECTOR_SIZE as nat) < root.chain_view()->0.len(),
        0 < n <= MINI_SECTOR_SIZE as nat,
        MINI_SECTOR_SIZE as nat * m + n <= stream_len(root.stream_size, o.version),
    ensures
        ({
            let ss = sector_size(o.version);
            let fanout = ss / MINI_SECTOR_SIZE as nat;
            let k = root.chain_view()->0[(m / fanout) as int]->RegularSect_0;
            let off = (m % fanout) * MINI_SECTOR_SIZE as nat;
            &&& k < o.body_view().len()
            &&& o.read_spec(root)->Ok_0.subrange(
                (MINI_SECTOR_SIZE as nat * m) as int,
                (MINI_SECTOR_SIZE as nat * m + n) as int,
            ) == o.body_view()[k as int].subrange(off as int, (off + n) as int)
        }),
{
    let ss = sector_size(o.version);
    let fanout = ss / MINI_SECTOR_SIZE as nat;
    let q = m / fanout;
    let r = m % fanout;
    let bv = o.body_view();
    assert forall|k: int| 0 <= k < bv.len() implies (#[trigger] bv[k]).len() == ss by {
        assert(bv[k] == o.body@[k]@);
    }
    if ss == 512 {
        assert(fanout == 8);
        assert(m == 8 * q + r && r < 8);
        assert(64 * m == q * 512 + r * 64) by (nonlinear_arith)
            requires
                m == 8 * q + r,
        ;
    } else {
        assert(fanout == 64);
        assert(m == 64 * q + r && r < 64);
        assert(64 * m == q * 4096 + r * 64) by (nonlinear_arith)
            requires
                m == 64 * q + r,
        ;
    }
    lemma_large_read_at(
        bv,
        ss,
        root.chain_view()->0,
        stream_len(root.stream_size, o.version),
        q,
        r * 64,
        n,
    );
}

/// The sectors along `chain`, one after the other.
pub open spec fn concat_sectors(body: Seq<Seq<u8>>, chain: Seq<SectorType>) -> Seq<u8>
    decreases chain.len(),
{
    if chain.len() == 0 {
        Seq::empty()
    } else {
        let head = match chain[0] {
            SectorType::RegularSect(k) => if k < body.len() {
                body[k as int]
            } else {
                Seq::empty()
            },
            _ => Seq::empty(),
        };
        head + concat_sectors(body, chain.drop_first())
    }
}

/// Whether every element of `chain` is a regular sector inside the body.
pub open spec fn chain_in_body(body: Seq<Seq<u8>>, chain: Seq<SectorType>) -> bool {
    forall|i: int|
        0 <= i < chain.len() ==> (#[trigger] chain[i]).is_regular() && chain[i]->RegularSect_0
            < body.len()
}

/// Sectors of `ss` bytes each, laid end to end, take `ss` bytes apiece.
pub proof fn lemma_concat_len(body: Seq<Seq<u8>>, ss: nat, chain: Seq<SectorType>)
    requires
        forall|k: int| 0 <= k < body.len() ==> (#[trigger] body[k]).len() == ss,
        chain_in_body(body, chain),
    ensures
        concat_sectors(body, chain).len() == chain.len() * ss,
    decreases chain.len(),
{
    if chain.len() > 0 {
        let d = chain.drop_first();
        assert forall|i: int| 0 <= i < d.len() implies (#[trigger] d[i]).is_regular()
            && d[i]->RegularSect_0 < body.len() by {
            assert(d[i] == chain[i + 1]);
        }
        assert(chain[0].is_regular());
        lemma_concat_len(body, ss, d);
        assert(d.len() * ss + ss == chain.len() * ss) by (nonlinear_arith)
            requires
                d.len() + 1 == chain.len(),
        ;
    }
}

/// Along a chain of sectors inside the body that is long enough, the large
/// path reads the sectors laid end to end, cut at the size.
pub proof fn lemma_large_read_concat(body: Seq<Seq<u8>>, ss: nat, chain: Seq<SectorType>, rem: nat)
    requires
        ss > 0,
        forall|k: int| 0 <= k < body.len() ==> (#[trigger] body[k]).len() == ss,
        chain_in_body(body, chain),
        rem <= chain.len() * ss,
    ensures
        large_read(body, ss, chain, rem) == Ok::<Seq<u8>, OleError>(
            concat_sectors(body, chain).take(rem as int),
        ),
    decreases chain.len(),
{
    lemma_concat_len(body, ss, chain);
    if rem == 0 {
        assert(concat_sectors(body, chain).take(0) =~= Seq::<u8>::empty());
    } else {
        if chain.len() == 0 {
            assert(chain.len() * ss == 0) by (nonlinear_arith)
                requires
                    chain.len() == 0,
            ;
        }
        assert(chain[0].is_regular());
        let k = chain[0]->RegularSect_0;
        let d = chain.drop_first();
        assert forall|i: int| 0 <= i < d.len() implies (#[trigger] d[i]).is_regular()
            && d[i]->RegularSect_0 < body.len() by {
            assert(d[i] == chain[i + 1]);
        }
        let n = if rem < ss {
            rem
        } else {
            ss
        };
        assert(d.len() * ss + ss == chain.len() * ss) by (nonlinear_arith)
            requires
                d.len() + 1 == chain.len(),
        ;
        lemma_large_read_concat(body, ss, d, (rem - n) as nat);
        lemma_concat_len(body, ss, d);
        let rest = concat_sectors(body, d);
        assert(concat_sectors(body, chain) == body[k as int] + rest);
        assert(body[k as int].take(n as int) + rest.take((rem - n) as int) =~= (body[k as int]
            + rest).take(rem as int));
    }
}

/// The root storage, and any stream of at least the cutoff, read along a
/// chain of sectors inside the body that covers the size: the sectors laid
/// end to end, cut at the size.
pub proof fn lemma_large_path_concat(o: Ole, e: Entry)
    requires
        o.wf(),
        e.object_type == ObjectType::RootStorage || (e.object_type == ObjectType::Stream
            && stream_len(e.stream_size, o.version) >= MINI_STREAM_CUTOFF),
        stream_len(e.stream_size, o.version) > 0,
        e.chain_view() is Some,
        chain_in_body(o.body_view(), e.chain_view()->0),
        stream_len(e.stream_size, o.version) <= e.chain_view()->0.len() * sector_size(o.version),
    ensures
        o.read_spec(e) == Ok::<Seq<u8>, OleError>(
            concat_sectors(o.body_view(), e.chain_view()->0).take(
                stream_len(e.stream_size, o.version) as int,
            ),
        ),
{
    let bv = o.body_view();
    assert forall|k: int| 0 <= k < bv.len() implies (#[trigger] bv[k]).len() == sector_size(
        o.version,
    ) by {
        assert(bv[k] == o.body@[k]@);
    }
    lemma_large_read_concat(
        bv,
        sector_size(o.version),
        e.chain_view()->0,
        stream_len(e.stream_size, o.version),
    );
}

/// The large path succeeds only along a chain that covers the size: a chain
/// of regular sectors shorter than the size in sectors fails.
pub proof fn lemma_large_read_needs_chain(
    body: Seq<Seq<u8>>,
    ss: nat,
    chain: Seq<SectorType>,
    rem: nat,
)
    requires
        forall|i: int| 0 <= i < chain.len() ==> (#[trigger] chain[i]).is_regular(),
        large_read(body, ss, chain, rem) is Ok,
    ensures
        rem <= chain.len() * ss,
    decreases chain.len(),
{
    if rem > 0 {
        assert(chain[0].is_regular());
        let d = chain.drop_first();
        assert forall|i: int| 0 <= i < d.len() implies (#[trigger] d[i]).is_regular() by {
            assert(d[i] == chain[i + 1]);
        }
        let n = if rem < ss {
            rem
        } else {
            ss
        };
        lemma_large_read_needs_chain(body, ss, d, (rem - n) as nat);
        assert(d.len() * ss + ss == chain.len() * ss) by (nonlinear_arith)
            requires
                d.len() + 1 == chain.len(),
        ;
    }
}

/// The mini path succeeds only along a chain that covers the size: a chain
/// of regular mini sectors shorter than the size in mini sectors fails.
pub proof fn lemma_mini_read_needs_chain(
    body: Seq<Seq<u8>>,
    ss: nat,
    root: Seq<SectorType>,
    chain: Seq<SectorType>,
    rem: nat,
)
    requires
        forall|i: int| 0 <= i < chain.len() ==> (#[trigger] chain[i]).is_regular(),
        mini_read(body, ss, root, chain, rem) is Ok,
    ensures
        rem <= chain.len() * MINI_SECTOR_SIZE as nat,
    decreases chain.len(),
{
    if rem > 0 {
        assert(chain[0].is_regular());
        let d = chain.drop_first();
        assert forall|i: int| 0 <= i < d.len() implies (#[trigger] d[i]).is_regular() by {
            assert(d[i] == chain[i + 1]);
        }
        let n = if rem < MINI_SECTOR_SIZE as nat {
            rem
        } else {
            MINI_SECTOR_SIZE as nat
        };
        lemma_mini_read_needs_chain(body, ss, root, d, (rem - n) as nat);
    }
}

/// A successful read of an entry with a chain of regular ids means the chain
/// is at least as long as the size in units: mini sectors of 64 bytes on the
/// small path, sectors on the large path.
pub proof fn lemma_read_needs_chain(o: Ole, e: Entry)
    requires
        o.read_spec(e) is Ok,
        e.chain_view() is Some,
        forall|i: int|
            0 <= i < e.chain_view()->0.len() ==> (#[trigger] e.chain_view()->0[i]).is_regular(),
    ensures
        ({
            let size = stream_len(e.stream_size, o.version);
            let unit = if e.object_type != ObjectType::RootStorage && size < MINI_STREAM_CUTOFF {
                MINI_SECTOR_SIZE as nat
            } else {
                sector_size(o.version)
            };
            size <= e.chain_view()->0.len() * unit
        }),
{
    let size = stream_len(e.stream_size, o.version);
    if e.object_type != ObjectType::RootStorage && size < MINI_STREAM_CUTOFF {
        lemma_mini_read_needs_chain(
            o.body_view(),
            sector_size(o.version),
            o.root_chain()->0,
            e.chain_view()->0,
            size,
        );
    } else {
        lemma_large_read_needs_chain(o.body_view(), sector_size(o.version), e.chain_view()->0, size);
    }
}

} // verus!
