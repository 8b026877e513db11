//! FAT32 filesystem over a sector-addressed disk image: short names plus
//! FAT long-filename entries, create/write/rename/delete/copy.
use vstd::prelude::*;
use crate::text::push_char;


verus! {

pub const SECTOR_SIZE: usize = 512;
pub const DIR_ENTRY_SIZE: usize = 32;
pub const ATTR_DIRECTORY: u8 = 0x10;
pub const ATTR_ARCHIVE: u8 = 0x20;
pub const ATTR_LFN: u8 = 0x0F;
pub const FAT_ENTRY_MASK: u32 = 0x0FFF_FFFF;
pub const FAT_FREE: u32 = 0;
pub const FAT_EOC: u32 = 0x0FFF_FFFF;

/// Byte offsets of the thirteen UTF-16 units inside a long-filename slot.
pub open spec fn lfn_offset(i: int) -> int {
    if i < 5 {
        1 + 2 * i
    } else if i < 11 {
        14 + 2 * (i - 5)
    } else {
        28 + 2 * (i - 11)
    }
}

fn lfn_char_offset(i: usize) -> (r: usize)
    requires
        i < 13,
    ensures
        r == lfn_offset(i as int),
        r + 2 <= 32,
{
    if i < 5 {
        1 + 2 * i
    } else if i < 11 {
        14 + 2 * (i - 5)
    } else {
        28 + 2 * (i - 11)
    }
}

#[derive(Debug, Clone, Copy, PartialEq, Eq, Structural)]
pub enum FsError {
    AlreadyExists,
    InvalidPath,
    Io,
    NoSpace,
    NotDirectory,
    NotEmpty,
    NotFound,
    UnsupportedName,
}

impl FsError {
    pub fn as_str(self) -> (r: &'static str)
        ensures
            r@ == fs_error_text(self),
    {
        match self {
            FsError::AlreadyExists => "already exists",
            FsError::InvalidPath => "invalid path",
            FsError::Io => "disk I/O failed",
            FsError::NoSpace => "filesystem full",
            FsError::NotDirectory => "not a directory",
            FsError::NotEmpty => "directory not empty",
            FsError::NotFound => "not found",
            FsError::UnsupportedName => "invalid name",
        }
    }
}

pub open spec fn fs_error_text(e: FsError) -> Seq<char> {
    match e {
        FsError::AlreadyExists => "already exists"@,
        FsError::InvalidPath => "invalid path"@,
        FsError::Io => "disk I/O failed"@,
        FsError::NoSpace => "filesystem full"@,
        FsError::NotDirectory => "not a directory"@,
        FsError::NotEmpty => "directory not empty"@,
        FsError::NotFound => "not found"@,
        FsError::UnsupportedName => "invalid name"@,
    }
}

// ── Little-endian fields ────────────────────────────────────────────────────

pub open spec fn le16(s: Seq<u8>, o: int) -> int {
    s[o] as int + s[o + 1] as int * 256
}

pub open spec fn le32(s: Seq<u8>, o: int) -> int {
    le16(s, o) + le16(s, o + 2) * 65536
}

pub fn rd16(b: &[u8], o: usize) -> (r: u16)
    requires
        o + 2 <= b@.len(),
    ensures
        r as int == le16(b@, o as int),
{
    b[o] as u16 + (b[o + 1] as u16) * 256
}

pub fn rd32(b: &[u8], o: usize) -> (r: u32)
    requires
        o + 4 <= b@.len(),
    ensures
        r as int == le32(b@, o as int),
{
    let n = b.len();
    let lo = rd16(b, o) as u32;
    let hi = rd16(b, o + 2) as u32;
    lo + hi * 65536
}

/// `b` with the two bytes at `o` replaced by `v` in little-endian order.
pub open spec fn put16(b: Seq<u8>, o: int, v: int) -> Seq<u8> {
    b.update(o, (v % 256) as u8).update(o + 1, ((v / 256) % 256) as u8)
}

pub open spec fn put32(b: Seq<u8>, o: int, v: int) -> Seq<u8> {
    put16(put16(b, o, v % 65536), o + 2, (v / 65536) % 65536)
}

pub fn wr16(b: &mut Vec<u8>, o: usize, v: u16)
    requires
        o + 2 <= old(b)@.len(),
    ensures
        final(b)@ == put16(old(b)@, o as int, v as int),
{
    let n = b.len();
    b.set(o, (v % 256) as u8);
    b.set(o + 1, (v / 256) as u8);
}

pub fn wr32(b: &mut Vec<u8>, o: usize, v: u32)
    requires
        o + 4 <= old(b)@.len(),
    ensures
        final(b)@ == put32(old(b)@, o as int, v as int),
{
    let n = b.len();
    wr16(b, o, (v % 65536) as u16);
    wr16(b, o + 2, (v / 65536) as u16);
}

proof fn lemma_le16_put16(b: Seq<u8>, o: int, v: int)
    requires
        0 <= o,
        o + 2 <= b.len(),
        0 <= v < 65536,
    ensures
        le16(put16(b, o, v), o) == v,
        put16(b, o, v).len() == b.len(),
        forall|k: int| 0 <= k < b.len() && k != o && k != o + 1 ==> put16(b, o, v)[k] == b[k],
{
}

proof fn lemma_le32_put32(b: Seq<u8>, o: int, v: int)
    requires
        0 <= o,
        o + 4 <= b.len(),
        0 <= v < 0x1_0000_0000,
    ensures
        le32(put32(b, o, v), o) == v,
        put32(b, o, v).len() == b.len(),
        forall|k: int| 0 <= k < b.len() && (k < o || k >= o + 4) ==> put32(b, o, v)[k] == b[k],
{
    lemma_le16_put16(b, o, v % 65536);
    lemma_le16_put16(put16(b, o, v % 65536), o + 2, (v / 65536) % 65536);
}

// ── The disk ────────────────────────────────────────────────────────────────

/// A sector-addressed disk image of 512-byte sectors.
pub struct Disk {
    pub bytes: Vec<u8>,
}

pub open spec fn sector_in(d: Seq<u8>, lba: int) -> bool {
    0 <= lba && (lba + 1) * 512 <= d.len()
}

pub open spec fn sector_of(d: Seq<u8>, lba: int) -> Seq<u8> {
    d.subrange(lba * 512, lba * 512 + 512)
}

/// `d` with the sector at `lba` replaced by `data`.
pub open spec fn with_sector(d: Seq<u8>, lba: int, data: Seq<u8>) -> Seq<u8> {
    d.subrange(0, lba * 512) + data + d.subrange(lba * 512 + 512, d.len() as int)
}

impl Disk {
    pub open spec fn view(&self) -> Seq<u8> {
        self.bytes@
    }

    pub fn new(bytes: Vec<u8>) -> (r: Disk)
        ensures
            r@ == bytes@,
    {
        Disk { bytes }
    }

    /// Number of whole sectors on the disk.
    pub fn sector_count(&self) -> (r: usize)
        ensures
            r == self@.len() / 512,
    {
        self.bytes.len() / 512
    }

    /// Copies sector `lba` into `buf`; `false` when the sector lies beyond
    /// the end of the disk.
    pub fn read_sector(&self, lba: u32, buf: &mut Vec<u8>) -> (ok: bool)
        requires
            old(buf)@.len() == 512,
        ensures
            ok == sector_in(self@, lba as int),
            ok ==> final(buf)@ == sector_of(self@, lba as int),
            !ok ==> final(buf)@ == old(buf)@,
    {
        let start = lba as u64 * 512;
        if start + 512 > self.bytes.len() as u64 {
            return false;
        }
        let s = start as usize;
        let mut i: usize = 0;
        while i < 512
            invariant
                s + 512 <= self.bytes@.len(),
                s == lba as int * 512,
                buf@.len() == 512,
                i <= 512,
                forall|k: int| 0 <= k < i ==> buf@[k] == self.bytes@[s + k],
            decreases 512 - i,
        {
            buf.set(i, self.bytes[s + i]);
            i = i + 1;
        }
        assert(buf@ =~= sector_of(self@, lba as int));
        true
    }

    /// Writes `data` over sector `lba`; `false` (and no change) when the
    /// sector lies beyond the end of the disk.
    pub fn write_sector(&mut self, lba: u32, data: &[u8]) -> (ok: bool)
        requires
            data@.len() == 512,
        ensures
            ok == sector_in(old(self)@, lba as int),
            ok ==> final(self)@ == with_sector(old(self)@, lba as int, data@),
            !ok ==> final(self)@ == old(self)@,
    {
        let start = lba as u64 * 512;
        if start + 512 > self.bytes.len() as u64 {
            return false;
        }
        let s = start as usize;
        let ghost d0 = self.bytes@;
        let mut i: usize = 0;
        while i < 512
            invariant
                s + 512 <= d0.len(),
                s == lba as int * 512,
                data@.len() == 512,
                self.bytes@.len() == d0.len(),
                i <= 512,
                forall|k: int| 0 <= k < i ==> self.bytes@[s + k] == data@[k],
                forall|k: int|
                    0 <= k < d0.len() && (k < s || k >= s + i) ==> self.bytes@[k] == d0[k],
            decreases 512 - i,
        {
            self.bytes.set(s + i, data[i]);
            i = i + 1;
        }
        assert(self.bytes@ =~= with_sector(d0, lba as int, data@));
        true
    }
}

/// Reading a sector gives back what was last written to it, and a write
/// leaves the disk's size and every other sector unchanged.
pub proof fn lemma_with_sector_len(d: Seq<u8>, lba: int, data: Seq<u8>)
    requires
        sector_in(d, lba),
        data.len() == 512,
    ensures
        with_sector(d, lba, data).len() == d.len(),
        sector_of(with_sector(d, lba, data), lba) == data,
        forall|l: int| l != lba && sector_in(d, l) ==> sector_of(with_sector(d, lba, data), l)
            == sector_of(d, l),
{
    let w = with_sector(d, lba, data);
    assert(sector_of(w, lba) =~= data);
    assert forall|l: int| l != lba && sector_in(d, l) implies sector_of(w, l) == sector_of(d, l) by {
        assert(sector_of(w, l) =~= sector_of(d, l));
    }
}

// ── BIOS Parameter Block ────────────────────────────────────────────────────

/// Parsed FAT32 BPB fields used for navigation.
#[derive(Debug, Clone, Copy)]
pub struct Bpb {
    pub bytes_per_sector: u16,
    pub sectors_per_cluster: u8,
    pub reserved_sectors: u16,
    pub num_fats: u8,
    pub sectors_per_fat: u32,
    pub root_cluster: u32,
}

/// The BPB that sector 0 of `d` describes, when it carries the boot
/// signature.
pub open spec fn bpb_of(d: Seq<u8>) -> Option<Bpb> {
    if !sector_in(d, 0) || d[510] != 0x55 || d[511] != 0xAA {
        None
    } else {
        let fat16 = le16(d, 22);
        Some(
            Bpb {
                bytes_per_sector: le16(d, 11) as u16,
                sectors_per_cluster: d[13],
                reserved_sectors: le16(d, 14) as u16,
                num_fats: d[16],
                sectors_per_fat: if fat16 != 0 {
                    fat16 as u32
                } else {
                    le32(d, 36) as u32
                },
                root_cluster: le32(d, 44) as u32,
            },
        )
    }
}

impl Bpb {
    /// Reads and parses the BPB from sector 0.
    pub fn load(disk: &Disk) -> (r: Option<Bpb>)
        ensures
            r == bpb_of(disk@),
    {
        let mut sec: Vec<u8> = zeroed(512);
        if !disk.read_sector(0, &mut sec) {
            return None;
        }
        assert(sec@ =~= disk@.subrange(0, 512));
        if sec[510] != 0x55 || sec[511] != 0xAA {
            return None;
        }
        let bytes_per_sector = rd16(sec.as_slice(), 11);
        let sectors_per_cluster = sec[13];
        let reserved_sectors = rd16(sec.as_slice(), 14);
        let num_fats = sec[16];
        let fat16_spf = rd16(sec.as_slice(), 22);
        let sectors_per_fat = if fat16_spf != 0 {
            fat16_spf as u32
        } else {
            rd32(sec.as_slice(), 36)
        };
        let root_cluster = rd32(sec.as_slice(), 44);
        Some(
            Bpb {
                bytes_per_sector,
                sectors_per_cluster,
                reserved_sectors,
                num_fats,
                sectors_per_fat,
                root_cluster,
            },
        )
    }

    pub open spec fn fat_start(&self) -> int {
        self.reserved_sectors as int
    }

    pub open spec fn data_start(&self) -> int {
        self.fat_start() + self.num_fats as int * self.sectors_per_fat as int
    }

    pub open spec fn lba_of(&self, cluster: int) -> int {
        self.data_start() + (cluster - 2) * self.sectors_per_cluster as int
    }

    pub open spec fn entry_count(&self) -> int {
        self.sectors_per_fat as int * self.bytes_per_sector as int / 4
    }

    /// The geometry fits the 32-bit sector arithmetic the FAT code uses (the
    /// sectors of every cluster the FAT describes have 32-bit numbers), and a
    /// FAT entry never straddles the end of a 512-byte sector.
    pub open spec fn wf(&self) -> bool {
        &&& self.bytes_per_sector > 0
        &&& self.bytes_per_sector <= 512
        &&& self.bytes_per_sector % 4 == 0
        &&& self.sectors_per_cluster > 0
        &&& self.data_start() + self.entry_count() * self.sectors_per_cluster as int <= u32::MAX
        &&& self.sectors_per_fat as int * self.bytes_per_sector as int <= u32::MAX
        &&& self.fat_start() + self.num_fats as int * self.sectors_per_fat as int <= u32::MAX
        &&& self.entry_count() <= 0x0FFF_FFF8
    }

    pub fn fat_start_lba(&self) -> (r: u32)
        ensures
            r == self.fat_start(),
    {
        self.reserved_sectors as u32
    }

    pub fn data_start_lba(&self) -> (r: u32)
        requires
            self.data_start() <= u32::MAX,
        ensures
            r == self.data_start(),
    {
        self.fat_start_lba() + self.num_fats as u32 * self.sectors_per_fat
    }

    pub fn cluster_lba(&self, cluster: u32) -> (r: u32)
        requires
            cluster >= 2,
            self.data_start() + (cluster - 2) * self.sectors_per_cluster as int <= u32::MAX,
        ensures
            r == self.lba_of(cluster as int),
    {
        proof {
            assert((cluster - 2) * self.sectors_per_cluster as int >= 0) by (nonlinear_arith)
                requires
                    cluster >= 2,
            ;
        }
        self.data_start_lba() + (cluster - 2) * self.sectors_per_cluster as u32
    }

    pub fn fat_entry_count(&self) -> (r: u32)
        requires
            self.sectors_per_fat as int * self.bytes_per_sector as int <= u32::MAX,
        ensures
            r == self.entry_count(),
    {
        self.sectors_per_fat * self.bytes_per_sector as u32 / 4
    }

    /// FAT entries can be read: sectors of at most 512 bytes holding whole
    /// 4-byte entries.
    pub open spec fn fat_readable_geometry(&self) -> bool {
        &&& self.bytes_per_sector > 0
        &&& self.bytes_per_sector <= 512
        &&& self.bytes_per_sector % 4 == 0
    }

    /// The next cluster of a chain, read from the first FAT.
    pub fn fat_next(&self, disk: &Disk, cluster: u32) -> (r: Option<u32>)
        requires
            self.fat_readable_geometry(),
            cluster < 0x4000_0000,
        ensures
            r == fat_entry(disk@, *self, cluster as int),
    {
        let byte_offset = cluster * 4;
        let sector_index = byte_offset / self.bytes_per_sector as u32;
        let byte_in_sec = (byte_offset % self.bytes_per_sector as u32) as usize;
        if sector_index as u64 + self.fat_start_lba() as u64 > u32::MAX as u64 {
            return None;
        }
        let lba = self.fat_start_lba() + sector_index;
        let mut sec: Vec<u8> = zeroed(512);
        if !disk.read_sector(lba, &mut sec) {
            return None;
        }
        proof {
            assert(byte_in_sec + 4 <= 512) by (nonlinear_arith)
                requires
                    byte_in_sec == (cluster * 4) % (self.bytes_per_sector as int),
                    self.bytes_per_sector as int % 4 == 0,
                    0 < self.bytes_per_sector <= 512,
            {
                vstd::arithmetic::div_mod::lemma_mod_mod(
                    cluster * 4,
                    4,
                    self.bytes_per_sector as int / 4,
                );
            }
        }
        let raw = rd32(sec.as_slice(), byte_in_sec);
        Some(raw & FAT_ENTRY_MASK)
    }
}

/// The masked FAT entry for `cluster`, when its sector is on the disk.
pub open spec fn fat_entry(d: Seq<u8>, bpb: Bpb, cluster: int) -> Option<u32> {
    let off = cluster * 4;
    let sidx = off / bpb.bytes_per_sector as int;
    let lba = bpb.fat_start() + sidx;
    if lba > u32::MAX || !sector_in(d, lba) {
        None
    } else {
        Some((le32(sector_of(d, lba), off % bpb.bytes_per_sector as int) as u32) & 0x0FFF_FFFF)
    }
}

// ── Cluster chains ──────────────────────────────────────────────────────────

/// Links followed at most when walking a chain: more than any chain that
/// never revisits a cluster can have.
pub open spec fn chain_fuel() -> nat {
    0x0FFF_FFF8
}

/// The clusters of the chain that starts at `cluster`, following the first
/// FAT, stopping at an end-of-chain or free marker, at a link past the end
/// of the FAT, at an unreadable FAT sector, or when `fuel` runs out.
pub open spec fn chain_from(d: Seq<u8>, bpb: Bpb, cluster: int, fuel: nat) -> Seq<u32>
    decreases fuel,
{
    if fuel == 0 || cluster < 2 || cluster >= 0x0FFF_FFF8 || cluster >= bpb.entry_count() {
        Seq::empty()
    } else {
        seq![cluster as u32] + match fat_entry(d, bpb, cluster) {
            Some(next) => chain_from(d, bpb, next as int, (fuel - 1) as nat),
            None => Seq::empty(),
        }
    }
}

pub open spec fn chain(d: Seq<u8>, bpb: Bpb, start: int) -> Seq<u32> {
    chain_from(d, bpb, start, chain_fuel())
}

pub open spec fn valid_cluster(bpb: Bpb, c: int) -> bool {
    2 <= c < 0x0FFF_FFF8 && c < bpb.entry_count()
}

/// The sectors of the given clusters, in order.
pub open spec fn sectors_of(bpb: Bpb, cs: Seq<u32>) -> Seq<u32>
    decreases cs.len(),
{
    if cs.len() == 0 {
        Seq::empty()
    } else {
        sectors_of(bpb, cs.drop_last()) + Seq::new(
            bpb.sectors_per_cluster as nat,
            |i: int| (bpb.lba_of(cs.last() as int) + i) as u32,
        )
    }
}

pub proof fn lemma_chain_valid(d: Seq<u8>, bpb: Bpb, cluster: int, fuel: nat)
    ensures
        forall|i: int|
            0 <= i < chain_from(d, bpb, cluster, fuel).len() ==> valid_cluster(bpb, 
                #[trigger] chain_from(d, bpb, cluster, fuel)[i] as int,
            ),
    decreases fuel,
{
    if fuel == 0 || cluster < 2 || cluster >= 0x0FFF_FFF8 || cluster >= bpb.entry_count() {
    } else {
        match fat_entry(d, bpb, cluster) {
            Some(next) => {
                lemma_chain_valid(d, bpb, next as int, (fuel - 1) as nat);
                let rest = chain_from(d, bpb, next as int, (fuel - 1) as nat);
                assert forall|i: int|
                    0 <= i < chain_from(d, bpb, cluster, fuel).len() implies valid_cluster(bpb, 
                    #[trigger] chain_from(d, bpb, cluster, fuel)[i] as int,
                ) by {
                    if i > 0 {
                        assert(chain_from(d, bpb, cluster, fuel)[i] == rest[i - 1]);
                    }
                }
            },
            None => {},
        }
    }
}

impl Bpb {
    /// The clusters of the chain starting at `start`.
    pub fn cluster_chain_clusters(&self, disk: &Disk, start: u32) -> (r: Vec<u32>)
        requires
            self.fat_readable_geometry(),
        ensures
            r@ == chain(disk@, *self, start as int),
    {
        let mut clusters: Vec<u32> = Vec::new();
        let mut cluster = start;
        let mut fuel: u32 = 0x0FFF_FFF8;
        let ghost d = disk@;
        proof {
            assert(self.sectors_per_fat as int * self.bytes_per_sector as int <= 0xFFFF_FFFF
                * 0xFFFF) by (nonlinear_arith);
        }
        let entries: u64 = self.sectors_per_fat as u64 * self.bytes_per_sector as u64 / 4;
        while fuel > 0 && cluster >= 2 && cluster < 0x0FFF_FFF8 && (cluster as u64) < entries
            invariant
                self.fat_readable_geometry(),
                entries == self.entry_count(),
                d == disk@,
                clusters@ + chain_from(d, *self, cluster as int, fuel as nat) == chain(
                    d,
                    *self,
                    start as int,
                ),
            decreases fuel,
        {
            clusters.push(cluster);
            match self.fat_next(disk, cluster) {
                Some(next) => {
                    assert(chain_from(d, *self, cluster as int, fuel as nat) =~= seq![cluster]
                        + chain_from(d, *self, next as int, (fuel - 1) as nat));
                    cluster = next;
                    fuel = fuel - 1;
                },
                None => {
                    assert(chain_from(d, *self, cluster as int, fuel as nat) =~= seq![cluster]);
                    assert(clusters@ =~= chain(d, *self, start as int));
                    return clusters;
                },
            }
        }
        assert(clusters@ =~= chain(d, *self, start as int));
        clusters
    }

    /// The sectors of the chain starting at `start`.
    pub fn cluster_chain_sectors(&self, disk: &Disk, start: u32) -> (r: Vec<u32>)
        requires
            self.wf(),
        ensures
            r@ == sectors_of(*self, chain(disk@, *self, start as int)),
    {
        let cs = self.cluster_chain_clusters(disk, start);
        proof {
            lemma_chain_valid(disk@, *self, start as int, chain_fuel());
        }
        let mut sectors: Vec<u32> = Vec::new();
        let mut k: usize = 0;
        while k < cs.len()
            invariant
                self.wf(),
                k <= cs@.len(),
                forall|i: int| 0 <= i < cs@.len() ==> valid_cluster(*self, #[trigger] cs@[i] as int),
                sectors@ == sectors_of(*self, cs@.take(k as int)),
            decreases cs@.len() - k,
        {
            let cluster = cs[k];
            assert(valid_cluster(*self, cs@[k as int] as int));
            proof {
                assert((cluster - 2) * self.sectors_per_cluster as int + self.sectors_per_cluster
                    <= self.entry_count() * self.sectors_per_cluster as int) by (nonlinear_arith)
                    requires
                        2 <= cluster < self.entry_count(),
                ;
            }
            let lba = self.cluster_lba(cluster);
            let ghost base = sectors@;
            let mut i: u32 = 0;
            while i < self.sectors_per_cluster as u32
                invariant
                    self.wf(),
                    lba == self.lba_of(cluster as int),
                    lba + self.sectors_per_cluster as int <= u32::MAX,
                    i <= self.sectors_per_cluster,
                    sectors@ == base + Seq::new(
                        i as nat,
                        |j: int| (self.lba_of(cluster as int) + j) as u32,
                    ),
                decreases self.sectors_per_cluster - i,
            {
                sectors.push(lba + i);
                i = i + 1;
                assert(sectors@ =~= base + Seq::new(
                    i as nat,
                    |j: int| (self.lba_of(cluster as int) + j) as u32,
                ));
            }
            k = k + 1;
            assert(cs@.take(k as int).drop_last() =~= cs@.take(k - 1));
        }
        assert(cs@.take(cs@.len() as int) =~= cs@);
        sectors
    }
}

/// A zero-filled buffer of `n` bytes.
pub fn zeroed(n: usize) -> (r: Vec<u8>)
    ensures
        r@ == Seq::new(n as nat, |i: int| 0u8),
{
    let mut v: Vec<u8> = Vec::new();
    let mut i: usize = 0;
    while i < n
        invariant
            i <= n,
            v@ == Seq::new(i as nat, |k: int| 0u8),
        decreases n - i,
    {
        v.push(0);
        i = i + 1;
        assert(v@ =~= Seq::new(i as nat, |k: int| 0u8));
    }
    v
}

} // verus!

verus! {

// ── Short (8.3) names ───────────────────────────────────────────────────────

pub open spec fn up_b(b: u8) -> u8 {
    if 97 <= b && b <= 122 {
        (b - 32) as u8
    } else {
        b
    }
}

pub open spec fn strip_nul(s: Seq<u8>) -> Seq<u8> {
    if s.len() > 0 && s.last() == 0 {
        s.drop_last()
    } else {
        s
    }
}

pub open spec fn rfind_b(s: Seq<u8>, b: u8) -> Option<int>
    decreases s.len(),
{
    if s.len() == 0 {
        None
    } else if s.last() == b {
        Some(s.len() - 1)
    } else {
        rfind_b(s.drop_last(), b)
    }
}

pub open spec fn find_b(s: Seq<u8>, b: u8, i: int) -> Option<int>
    decreases s.len() - i,
{
    if i < 0 || i >= s.len() {
        None
    } else if s[i] == b {
        Some(i)
    } else {
        find_b(s, b, i + 1)
    }
}

/// The padded, upper-cased 11-byte short name for a path component: the text
/// before the last dot is the base (first 8 bytes), after it the extension
/// (first 3 bytes).
pub open spec fn name83(s: Seq<u8>) -> Seq<u8> {
    let t = strip_nul(s);
    let base = match rfind_b(t, 46) {
        Some(p) => t.take(p),
        None => t,
    };
    let ext = match rfind_b(t, 46) {
        Some(p) => t.skip(p + 1),
        None => Seq::empty(),
    };
    Seq::new(
        11,
        |i: int|
            if i < 8 {
                if i < base.len() {
                    up_b(base[i])
                } else {
                    32u8
                }
            } else {
                if i - 8 < ext.len() {
                    up_b(ext[i - 8])
                } else {
                    32u8
                }
            },
    )
}

proof fn lemma_rfind_b(s: Seq<u8>, b: u8)
    ensures
        match rfind_b(s, b) {
            Some(j) => 0 <= j < s.len() && s[j] == b && forall|k: int|
                j < k < s.len() ==> s[k] != b,
            None => forall|k: int| 0 <= k < s.len() ==> s[k] != b,
        },
    decreases s.len(),
{
    if s.len() > 0 && s.last() != b {
        lemma_rfind_b(s.drop_last(), b);
        assert forall|k: int| 0 <= k < s.len() - 1 implies s.drop_last()[k] == s[k] by {}
    }
}

proof fn lemma_rfind_b_last(s: Seq<u8>, b: u8, j: int)
    requires
        0 <= j < s.len(),
        s[j] == b,
        forall|k: int| j < k < s.len() ==> s[k] != b,
    ensures
        rfind_b(s, b) == Some(j),
    decreases s.len(),
{
    if j < s.len() - 1 {
        lemma_rfind_b_last(s.drop_last(), b, j);
    }
}

proof fn lemma_rfind_b_none(s: Seq<u8>, b: u8)
    requires
        forall|k: int| 0 <= k < s.len() ==> s[k] != b,
    ensures
        rfind_b(s, b) is None,
    decreases s.len(),
{
    if s.len() > 0 {
        lemma_rfind_b_none(s.drop_last(), b);
    }
}

proof fn lemma_find_b_first(s: Seq<u8>, b: u8, i: int, j: int)
    requires
        0 <= i <= j < s.len(),
        s[j] == b,
        forall|k: int| i <= k < j ==> s[k] != b,
    ensures
        find_b(s, b, i) == Some(j),
    decreases j - i,
{
    if i < j {
        lemma_find_b_first(s, b, i + 1, j);
    }
}

proof fn lemma_find_b_none(s: Seq<u8>, b: u8, i: int)
    requires
        0 <= i,
        forall|k: int| i <= k < s.len() ==> s[k] != b,
    ensures
        find_b(s, b, i) is None,
    decreases s.len() - i,
{
    if i < s.len() {
        lemma_find_b_none(s, b, i + 1);
    }
}

fn up_byte(b: u8) -> (r: u8)
    ensures
        r == up_b(b),
{
    if 97 <= b && b <= 122 {
        b - 32
    } else {
        b
    }
}

/// Last index of `b` in `s`.
fn rposition(s: &[u8], b: u8) -> (r: Option<usize>)
    ensures
        match r {
            Some(i) => rfind_b(s@, b) == Some(i as int),
            None => rfind_b(s@, b) is None,
        },
{
    let mut i: usize = s.len();
    while i > 0
        invariant
            i <= s@.len(),
            forall|k: int| i <= k < s@.len() ==> s@[k] != b,
        decreases i,
    {
        if s[i - 1] == b {
            proof {
                lemma_rfind_b_last(s@, b, i - 1);
            }
            return Some(i - 1);
        }
        i = i - 1;
    }
    proof {
        lemma_rfind_b_none(s@, b);
    }
    None
}

/// First index of `b` in `s`.
fn position(s: &[u8], b: u8) -> (r: Option<usize>)
    ensures
        match r {
            Some(i) => find_b(s@, b, 0) == Some(i as int) && i < s@.len(),
            None => find_b(s@, b, 0) is None,
        },
{
    let mut i: usize = 0;
    while i < s.len()
        invariant
            i <= s@.len(),
            forall|k: int| 0 <= k < i ==> s@[k] != b,
        decreases s@.len() - i,
    {
        if s[i] == b {
            proof {
                lemma_find_b_first(s@, b, 0, i as int);
            }
            return Some(i);
        }
        i = i + 1;
    }
    proof {
        lemma_find_b_none(s@, b, 0);
    }
    None
}

/// The 11-byte short name for a path component (see [`name83`]).
pub fn name_to_83(s: &[u8]) -> (r: Vec<u8>)
    ensures
        r@ == name83(s@),
{
    let len = if s.len() > 0 && s[s.len() - 1] == 0 {
        s.len() - 1
    } else {
        s.len()
    };
    let t = copy_bytes(s, 0, len);
    assert(t@ =~= strip_nul(s@));
    let dot = rposition(t.as_slice(), 46);
    proof {
        lemma_rfind_b(t@, 46);
    }
    let (base, ext) = match dot {
        Some(p) => (copy_bytes(t.as_slice(), 0, p), copy_bytes(t.as_slice(), p + 1, t.len())),
        None => (copy_bytes(t.as_slice(), 0, t.len()), Vec::new()),
    };
    let mut out: Vec<u8> = Vec::new();
    let mut i: usize = 0;
    while i < 11
        invariant
            i <= 11,
            base@ == (match rfind_b(strip_nul(s@), 46) {
                Some(p) => strip_nul(s@).take(p),
                None => strip_nul(s@),
            }),
            ext@ == (match rfind_b(strip_nul(s@), 46) {
                Some(p) => strip_nul(s@).skip(p + 1),
                None => Seq::<u8>::empty(),
            }),
            out@ == name83(s@).take(i as int),
        decreases 11 - i,
    {
        let b = if i < 8 {
            if i < base.len() {
                up_byte(base[i])
            } else {
                32u8
            }
        } else {
            if i - 8 < ext.len() {
                up_byte(ext[i - 8])
            } else {
                32u8
            }
        };
        out.push(b);
        i = i + 1;
        assert(out@ =~= name83(s@).take(i as int));
    }
    assert(name83(s@).take(11) =~= name83(s@));
    out
}

/// Copy of `s[from..to]`.
pub fn copy_bytes(s: &[u8], from: usize, to: usize) -> (r: Vec<u8>)
    requires
        from <= to <= s@.len(),
    ensures
        r@ == s@.subrange(from as int, to as int),
{
    let mut out: Vec<u8> = Vec::new();
    let mut k: usize = from;
    while k < to
        invariant
            from <= k <= to <= s@.len(),
            out@ == s@.subrange(from as int, k as int),
        decreases to - k,
    {
        out.push(s[k]);
        k = k + 1;
        assert(out@ =~= s@.subrange(from as int, k as int));
    }
    out
}

/// ASCII letters and digits plus `_ - $ ~`.
pub open spec fn valid_short_char(b: u8) -> bool {
    (48 <= b && b <= 57) || (65 <= b && b <= 90) || (97 <= b && b <= 122) || b == 95 || b == 45
        || b == 36 || b == 126
}

pub fn is_valid_short_name_char(b: u8) -> (r: bool)
    ensures
        r == valid_short_char(b),
{
    (48 <= b && b <= 57) || (65 <= b && b <= 90) || (97 <= b && b <= 122) || b == 95 || b == 45
        || b == 36 || b == 126
}

pub open spec fn all_short_chars(s: Seq<u8>) -> bool {
    forall|i: int| 0 <= i < s.len() ==> valid_short_char(#[trigger] s[i])
}

fn all_valid_short(s: &[u8]) -> (r: bool)
    ensures
        r == all_short_chars(s@),
{
    let mut i: usize = 0;
    while i < s.len()
        invariant
            i <= s@.len(),
            forall|k: int| 0 <= k < i ==> valid_short_char(#[trigger] s@[k]),
        decreases s@.len() - i,
    {
        if !is_valid_short_name_char(s[i]) {
            return false;
        }
        i = i + 1;
    }
    true
}

/// A name that fits 8.3 exactly: at most one dot, a base of 1–8 and an
/// extension of at most 3 short-name characters.
pub open spec fn checked83(name: Seq<u8>) -> Result<Seq<u8>, FsError> {
    if name.len() == 0 || name == seq![46u8] || name == seq![46u8, 46u8] {
        Err(FsError::InvalidPath)
    } else {
        let dot = find_b(name, 46, 0);
        let base = match dot {
            Some(p) => name.take(p),
            None => name,
        };
        let ext = match dot {
            Some(p) => name.skip(p + 1),
            None => Seq::empty(),
        };
        if dot is Some && find_b(name, 46, dot->0 + 1) is Some {
            Err(FsError::UnsupportedName)
        } else if base.len() == 0 || base.len() > 8 || ext.len() > 3 {
            Err(FsError::UnsupportedName)
        } else if !all_short_chars(base) || !all_short_chars(ext) {
            Err(FsError::UnsupportedName)
        } else {
            Ok(name83(name))
        }
    }
}

proof fn lemma_find_b_shift(s: Seq<u8>, b: u8, i: int)
    requires
        0 <= i <= s.len(),
    ensures
        (find_b(s, b, i) is Some) == (find_b(s.skip(i), b, 0) is Some),
{
    lemma_find_b_range(s, b, i);
    lemma_find_b_range(s.skip(i), b, 0);
    if find_b(s, b, i) is Some {
        let j = find_b(s, b, i)->0;
        assert(s.skip(i)[j - i] == b);
        if find_b(s.skip(i), b, 0) is None {
            assert(false);
        }
    }
    if find_b(s.skip(i), b, 0) is Some {
        let j = find_b(s.skip(i), b, 0)->0;
        assert(s[j + i] == b);
    }
}

proof fn lemma_find_b_range(s: Seq<u8>, b: u8, i: int)
    requires
        0 <= i,
    ensures
        match find_b(s, b, i) {
            Some(j) => i <= j < s.len() && s[j] == b,
            None => forall|k: int| i <= k < s.len() ==> s[k] != b,
        },
    decreases s.len() - i,
{
    if i < s.len() && s[i] != b {
        lemma_find_b_range(s, b, i + 1);
    }
}

pub fn name_to_83_checked(name: &[u8]) -> (r: Result<Vec<u8>, FsError>)
    ensures
        match r {
            Ok(v) => checked83(name@) == Ok::<Seq<u8>, FsError>(v@),
            Err(e) => checked83(name@) == Err::<Seq<u8>, FsError>(e),
        },
{
    let n = name.len();
    if n == 0 || (n == 1 && name[0] == 46) || (n == 2 && name[0] == 46 && name[1] == 46) {
        proof {
            if n == 1 {
                assert(name@ =~= seq![46u8]);
            }
            if n == 2 {
                assert(name@ =~= seq![46u8, 46u8]);
            }
        }
        return Err(FsError::InvalidPath);
    }
    assert(name@ != seq![46u8] && name@ != seq![46u8, 46u8]) by {
        if name@ == seq![46u8] {
            assert(name@[0] == 46);
        }
        if name@ == seq![46u8, 46u8] {
            assert(name@[0] == 46 && name@[1] == 46);
        }
    }
    let dot = position(name, 46);
    let (base, ext) = match dot {
        Some(p) => {
            let rest = copy_bytes(name, p + 1, n);
            let again = position(rest.as_slice(), 46);
            proof {
                lemma_find_b_shift(name@, 46, p + 1);
                assert(rest@ =~= name@.skip(p + 1));
            }
            if again.is_some() {
                return Err(FsError::UnsupportedName);
            }
            (copy_bytes(name, 0, p), rest)
        },
        None => (copy_bytes(name, 0, n), Vec::new()),
    };
    if base.len() == 0 || base.len() > 8 || ext.len() > 3 {
        return Err(FsError::UnsupportedName);
    }
    if !all_valid_short(base.as_slice()) || !all_valid_short(ext.as_slice()) {
        return Err(FsError::UnsupportedName);
    }
    proof {
        match dot {
            Some(p) => {
                assert(base@ =~= name@.take(p as int));
            },
            None => {
                assert(base@ =~= name@);
            },
        }
    }
    Ok(name_to_83(name))
}

// ── Long-filename checksums and fragments ───────────────────────────────────

pub open spec fn rot_b(x: u8) -> u8 {
    (x / 2 + (x % 2) * 128) as u8
}

/// The long-filename checksum of a short name.
pub open spec fn lfn_sum(s: Seq<u8>) -> u8
    decreases s.len(),
{
    if s.len() == 0 {
        0
    } else {
        ((rot_b(lfn_sum(s.drop_last())) as int + s.last() as int) % 256) as u8
    }
}

pub fn lfn_checksum(name83: &[u8]) -> (r: u8)
    ensures
        r == lfn_sum(name83@),
{
    let mut sum: u8 = 0;
    let mut i: usize = 0;
    while i < name83.len()
        invariant
            i <= name83@.len(),
            sum == lfn_sum(name83@.take(i as int)),
        decreases name83@.len() - i,
    {
        let rot: u8 = sum / 2 + (sum % 2) * 128;
        sum = ((rot as u16 + name83[i] as u16) % 256) as u8;
        i = i + 1;
        assert(name83@.take(i as int).drop_last() =~= name83@.take(i - 1));
    }
    assert(name83@.take(name83@.len() as int) =~= name83@);
    sum
}

/// One long-filename directory slot, decoded.
#[derive(Clone)]
pub struct LfnFragment {
    pub seq: u8,
    pub is_last: bool,
    pub checksum: u8,
    pub chars: Vec<u16>,
}

/// The thirteen UTF-16 units of a long-filename slot.
pub open spec fn lfn_units(b: Seq<u8>) -> Seq<u16> {
    Seq::new(13, |i: int| le16(b, lfn_offset(i)) as u16)
}

/// The long-filename fragment a slot holds, if it is a well-formed one.
pub open spec fn lfn_fragment_ok(b: Seq<u8>) -> bool {
    b.len() >= 32 && b[11] == 0x0F && (b[0] & 0x3F) != 0 && b[12] == 0 && b[26] == 0 && b[27]
        == 0
}

pub fn read_lfn_chars(b: &[u8]) -> (r: Vec<u16>)
    requires
        b@.len() >= 32,
    ensures
        r@ == lfn_units(b@),
{
    let mut chars: Vec<u16> = Vec::new();
    let mut i: usize = 0;
    while i < 13
        invariant
            i <= 13,
            b@.len() >= 32,
            chars@ == lfn_units(b@).take(i as int),
        decreases 13 - i,
    {
        let off = lfn_char_offset(i);
        chars.push(rd16(b, off));
        i = i + 1;
        assert(chars@ =~= lfn_units(b@).take(i as int));
    }
    assert(lfn_units(b@).take(13) =~= lfn_units(b@));
    chars
}

pub fn read_lfn_fragment(b: &[u8]) -> (r: Option<LfnFragment>)
    ensures
        r is Some <==> lfn_fragment_ok(b@),
        r matches Some(f) ==> f.seq == (b@[0] & 0x3F) && f.is_last == ((b@[0] & 0x40) != 0)
            && f.checksum == b@[13] && f.chars@ == lfn_units(b@),
{
    if b.len() < 32 || b[11] != ATTR_LFN {
        return None;
    }
    let seq = b[0] & 0x3F;
    if seq == 0 || b[12] != 0 || b[26] != 0 || b[27] != 0 {
        return None;
    }
    Some(
        LfnFragment {
            seq,
            is_last: b[0] & 0x40 != 0,
            checksum: b[13],
            chars: read_lfn_chars(b),
        },
    )
}

// ── UTF-16 ──────────────────────────────────────────────────────────────────

/// `char::from_u32`.
#[verifier::external_body]
fn char_from_u32(v: u32) -> (r: Option<char>)
    ensures
        r is Some <==> (v < 0xD800 || (0xE000 <= v && v <= 0x10FFFF)),
        r matches Some(c) ==> c as u32 == v,
{
    char::from_u32(v)
}

pub open spec fn is_high(u: u16) -> bool {
    0xD800 <= u && u < 0xDC00
}

pub open spec fn is_low(u: u16) -> bool {
    0xDC00 <= u && u < 0xE000
}

/// Strict UTF-16 decoding to code points: `None` on an unpaired surrogate.
pub open spec fn utf16_decode(u: Seq<u16>) -> Option<Seq<u32>>
    decreases u.len(),
{
    if u.len() == 0 {
        Some(Seq::empty())
    } else if is_high(u[0]) {
        if u.len() < 2 || !is_low(u[1]) {
            None
        } else {
            let code = 0x10000 + (u[0] - 0xD800) * 1024 + (u[1] - 0xDC00);
            match utf16_decode(u.skip(2)) {
                Some(rest) => Some(seq![code as u32] + rest),
                None => None,
            }
        }
    } else if is_low(u[0]) {
        None
    } else {
        match utf16_decode(u.skip(1)) {
            Some(rest) => Some(seq![u[0] as u32] + rest),
            None => None,
        }
    }
}

/// The code points of a character sequence.
pub open spec fn codes(s: Seq<char>) -> Seq<u32> {
    s.map_values(|c: char| c as u32)
}

pub fn utf16_to_string(utf16: &[u16]) -> (r: Option<String>)
    ensures
        match r {
            Some(s) => utf16_decode(utf16@) == Some(codes(s@)),
            None => utf16_decode(utf16@) is None,
        },
{
    let mut s = String::new();
    let mut i: usize = 0;
    let n = utf16.len();
    proof {
        assert(utf16@.skip(0) =~= utf16@);
        match utf16_decode(utf16@) {
            Some(rest) => {
                assert(codes(s@) + rest =~= rest);
            },
            None => {},
        }
    }
    while i < n
        invariant
            n == utf16@.len(),
            i <= n,
            utf16_decode(utf16@) == (match utf16_decode(utf16@.skip(i as int)) {
                Some(rest) => Some(codes(s@) + rest),
                None => None,
            }),
        decreases n - i,
    {
        let ch = utf16[i];
        let ghost u = utf16@.skip(i as int);
        let ghost s_old = s@;
        assert(u[0] == ch);
        if 0xD800 <= ch && ch < 0xDC00 {
            if i + 1 >= n {
                return None;
            }
            let low = utf16[i + 1];
            assert(u[1] == low);
            if !(0xDC00 <= low && low < 0xE000) {
                return None;
            }
            let hi: u32 = ch as u32 - 0xD800;
            assert(hi << 10 == hi * 1024) by (bit_vector)
                requires
                    hi < 1024,
            ;
            let code = 0x10000u32 + (hi << 10) + (low as u32 - 0xDC00);
            let c = match char_from_u32(code) {
                Some(c) => c,
                None => {
                    return None;
                },
            };
            push_char(&mut s, c);
            assert(u.skip(2) =~= utf16@.skip(i + 2));
            i = i + 2;
            proof {
                assert(codes(s@) =~= codes(s_old).push(code));
                match utf16_decode(utf16@.skip(i as int)) {
                    Some(rest) => {
                        assert(utf16_decode(u) == Some(seq![code] + rest));
                        assert(codes(s_old) + (seq![code] + rest) =~= codes(s@) + rest);
                    },
                    None => {
                        assert(utf16_decode(u) is None);
                    },
                }
            }
        } else if 0xDC00 <= ch && ch < 0xE000 {
            return None;
        } else {
            let c = match char_from_u32(ch as u32) {
                Some(c) => c,
                None => {
                    return None;
                },
            };
            push_char(&mut s, c);
            assert(u.skip(1) =~= utf16@.skip(i + 1));
            i = i + 1;
            proof {
                assert(codes(s@) =~= codes(s_old).push(ch as u32));
                match utf16_decode(utf16@.skip(i as int)) {
                    Some(rest) => {
                        assert(utf16_decode(u) == Some(seq![ch as u32] + rest));
                        assert(codes(s_old) + (seq![ch as u32] + rest) =~= codes(s@) + rest);
                    },
                    None => {
                        assert(utf16_decode(u) is None);
                    },
                }
            }
        }
    }
    assert(utf16@.skip(n as int) =~= Seq::<u16>::empty());
    assert(codes(s@) + Seq::<u32>::empty() =~= codes(s@));
    Some(s)
}

} // verus!

verus! {

// ── Long-filename assembly ──────────────────────────────────────────────────

pub open spec fn frag_model(f: LfnFragment) -> (u8, bool, u8, Seq<u16>) {
    (f.seq, f.is_last, f.checksum, f.chars@)
}

pub open spec fn frag_models(fs: Seq<LfnFragment>) -> Seq<(u8, bool, u8, Seq<u16>)> {
    fs.map_values(|f: LfnFragment| frag_model(f))
}

/// First fragment whose sequence number is `k`.
pub open spec fn seq_index(fs: Seq<(u8, bool, u8, Seq<u16>)>, k: int, from: int) -> Option<int>
    decreases fs.len() - from,
{
    if from < 0 || from >= fs.len() {
        None
    } else if fs[from].0 as int == k {
        Some(from)
    } else {
        seq_index(fs, k, from + 1)
    }
}

/// Every sequence number 1..=n occurs among the n fragments.
pub open spec fn seqs_complete(fs: Seq<(u8, bool, u8, Seq<u16>)>) -> bool {
    forall|k: int| 1 <= k <= fs.len() ==> #[trigger] seq_index(fs, k, 0) is Some
}

/// The units of fragments 1..=k, in sequence-number order.
pub open spec fn ordered_units(fs: Seq<(u8, bool, u8, Seq<u16>)>, k: nat) -> Seq<u16>
    decreases k,
{
    if k == 0 {
        Seq::empty()
    } else {
        ordered_units(fs, (k - 1) as nat) + match seq_index(fs, k as int, 0) {
            Some(j) => fs[j].3,
            None => Seq::empty(),
        }
    }
}

/// Units up to the first NUL, with 0xFFFF padding dropped.
pub open spec fn lfn_text_units(u: Seq<u16>) -> Seq<u16>
    decreases u.len(),
{
    if u.len() == 0 || u[0] == 0 {
        Seq::empty()
    } else if u[0] == 0xFFFF {
        lfn_text_units(u.skip(1))
    } else {
        seq![u[0]] + lfn_text_units(u.skip(1))
    }
}

/// The long name the fragments spell, as code points.
pub open spec fn assembled(fs: Seq<(u8, bool, u8, Seq<u16>)>) -> Option<Seq<u32>> {
    if fs.len() == 0 || !seqs_complete(fs) {
        None
    } else {
        utf16_decode(lfn_text_units(ordered_units(fs, fs.len())))
    }
}

proof fn lemma_seq_index(fs: Seq<(u8, bool, u8, Seq<u16>)>, k: int, from: int)
    requires
        0 <= from,
    ensures
        match seq_index(fs, k, from) {
            Some(j) => from <= j < fs.len() && fs[j].0 as int == k && forall|m: int|
                from <= m < j ==> fs[m].0 as int != k,
            None => forall|m: int| from <= m < fs.len() ==> fs[m].0 as int != k,
        },
    decreases fs.len() - from,
{
    if from < fs.len() && fs[from].0 as int != k {
        lemma_seq_index(fs, k, from + 1);
    }
}

proof fn lemma_seq_index_first(fs: Seq<(u8, bool, u8, Seq<u16>)>, k: int, from: int, j: int)
    requires
        0 <= from <= j < fs.len(),
        fs[j].0 as int == k,
        forall|m: int| from <= m < j ==> fs[m].0 as int != k,
    ensures
        seq_index(fs, k, from) == Some(j),
    decreases j - from,
{
    if from < j {
        lemma_seq_index_first(fs, k, from + 1, j);
    }
}

proof fn lemma_seq_index_none(fs: Seq<(u8, bool, u8, Seq<u16>)>, k: int, from: int)
    requires
        0 <= from,
        forall|m: int| from <= m < fs.len() ==> fs[m].0 as int != k,
    ensures
        seq_index(fs, k, from) is None,
    decreases fs.len() - from,
{
    if from < fs.len() {
        lemma_seq_index_none(fs, k, from + 1);
    }
}

fn find_seq(fs: &[LfnFragment], k: usize) -> (r: Option<usize>)
    ensures
        match r {
            Some(j) => seq_index(frag_models(fs@), k as int, 0) == Some(j as int) && j
                < fs@.len(),
            None => seq_index(frag_models(fs@), k as int, 0) is None,
        },
{
    let ghost m = frag_models(fs@);
    let mut j: usize = 0;
    while j < fs.len()
        invariant
            m == frag_models(fs@),
            j <= fs@.len(),
            forall|x: int| 0 <= x < j ==> m[x].0 as int != k,
        decreases fs@.len() - j,
    {
        assert(m[j as int].0 == fs@[j as int].seq);
        if fs[j].seq as usize == k {
            proof {
                lemma_seq_index_first(m, k as int, 0, j as int);
            }
            return Some(j);
        }
        j = j + 1;
    }
    proof {
        lemma_seq_index_none(m, k as int, 0);
    }
    None
}

fn text_units(u: &[u16]) -> (r: Vec<u16>)
    ensures
        r@ == lfn_text_units(u@),
{
    let mut out: Vec<u16> = Vec::new();
    let mut i: usize = 0;
    proof {
        assert(u@.skip(0) =~= u@);
    }
    while i < u.len()
        invariant
            i <= u@.len(),
            lfn_text_units(u@) == out@ + lfn_text_units(u@.skip(i as int)),
        decreases u@.len() - i,
    {
        let ghost rest = u@.skip(i as int);
        assert(rest.skip(1) =~= u@.skip(i + 1));
        if u[i] == 0 {
            assert(lfn_text_units(rest) =~= Seq::<u16>::empty());
            assert(out@ + Seq::<u16>::empty() =~= out@);
            return out;
        }
        if u[i] != 0xFFFF {
            let ghost o = out@;
            out.push(u[i]);
            assert(o + (seq![u@[i as int]] + lfn_text_units(u@.skip(i + 1))) =~= out@
                + lfn_text_units(u@.skip(i + 1)));
        }
        i = i + 1;
    }
    assert(lfn_text_units(u@.skip(i as int)) =~= Seq::<u16>::empty());
    assert(out@ + Seq::<u16>::empty() =~= out@);
    out
}

/// The long name spelled by the fragments (see [`assembled`]).
pub fn assemble_lfn(fragments: &[LfnFragment]) -> (r: Option<String>)
    ensures
        match r {
            Some(s) => assembled(frag_models(fragments@)) == Some(codes(s@)),
            None => assembled(frag_models(fragments@)) is None,
        },
{
    let ghost m = frag_models(fragments@);
    let n = fragments.len();
    if n == 0 {
        return None;
    }
    let mut units: Vec<u16> = Vec::new();
    let mut k: usize = 0;
    while k < n
        invariant
            m == frag_models(fragments@),
            n == fragments@.len(),
            n == m.len(),
            k <= n,
            forall|x: int| 1 <= x <= k ==> #[trigger] seq_index(m, x, 0) is Some,
            units@ == ordered_units(m, k as nat),
        decreases n - k,
    {
        let want = k + 1;
        match find_seq(fragments, want) {
            Some(j) => {
                let ghost before = units@;
                let mut t: usize = 0;
                let ch = &fragments[j].chars;
                assert(m[j as int].3 == ch@);
                while t < ch.len()
                    invariant
                        units@ == before + ch@.take(t as int),
                        t <= ch@.len(),
                    decreases ch@.len() - t,
                {
                    units.push(ch[t]);
                    t = t + 1;
                    assert(units@ =~= before + ch@.take(t as int));
                }
                assert(ch@.take(ch@.len() as int) =~= ch@);
            },
            None => {
                assert(!seqs_complete(m));
                return None;
            },
        }
        k = k + 1;
    }
    assert(seqs_complete(m));
    let text = text_units(units.as_slice());
    utf16_to_string(text.as_slice())
}

pub open spec fn count_last(fs: Seq<(u8, bool, u8, Seq<u16>)>) -> nat
    decreases fs.len(),
{
    if fs.len() == 0 {
        0
    } else {
        count_last(fs.drop_last()) + if fs.last().1 {
            1nat
        } else {
            0nat
        }
    }
}

pub open spec fn first_last(fs: Seq<(u8, bool, u8, Seq<u16>)>, from: int) -> Option<int>
    decreases fs.len() - from,
{
    if from < 0 || from >= fs.len() {
        None
    } else if fs[from].1 {
        Some(from)
    } else {
        first_last(fs, from + 1)
    }
}

/// The long name that the fragments gathered before a short entry give it:
/// every checksum must match the short name, exactly one fragment is marked
/// last and carries the count, and the sequence numbers are complete.
pub open spec fn lfn_for_entry(name: Seq<u8>, fs: Seq<(u8, bool, u8, Seq<u16>)>) -> Option<
    Seq<u32>,
> {
    if fs.len() == 0 {
        None
    } else if exists|j: int| 0 <= j < fs.len() && #[trigger] fs[j].2 != lfn_sum(name) {
        None
    } else if first_last(fs, 0) is None || count_last(fs) != 1 {
        None
    } else if fs[first_last(fs, 0)->0].0 as int != fs.len() {
        None
    } else {
        assembled(fs)
    }
}

pub fn assemble_lfn_for_entry(name: &[u8], fragments: &[LfnFragment]) -> (r: Option<String>)
    ensures
        match r {
            Some(s) => lfn_for_entry(name@, frag_models(fragments@)) == Some(codes(s@)),
            None => lfn_for_entry(name@, frag_models(fragments@)) is None,
        },
{
    let ghost m = frag_models(fragments@);
    let n = fragments.len();
    if n == 0 {
        return None;
    }
    let checksum = lfn_checksum(name);
    let mut j: usize = 0;
    while j < n
        invariant
            n == fragments@.len(),
            m == frag_models(fragments@),
            j <= n,
            checksum == lfn_sum(name@),
            forall|x: int| 0 <= x < j ==> (#[trigger] m[x]).2 == lfn_sum(name@),
        decreases n - j,
    {
        assert(m[j as int].2 == fragments@[j as int].checksum);
        if fragments[j].checksum != checksum {
            assert(m[j as int].2 != lfn_sum(name@));
            return None;
        }
        j = j + 1;
    }
    let mut first: Option<usize> = None;
    let mut count: usize = 0;
    let mut i: usize = 0;
    while i < n
        invariant
            n == fragments@.len(),
            m == frag_models(fragments@),
            i <= n,
            count == count_last(m.take(i as int)),
            count <= i,
            match first {
                Some(f) => f < i && first_last(m, 0) == Some(f as int),
                None => forall|x: int| 0 <= x < i ==> !m[x].1,
            },
        decreases n - i,
    {
        assert(m.take(i + 1).drop_last() =~= m.take(i as int));
        assert(m[i as int].1 == fragments@[i as int].is_last);
        if fragments[i].is_last {
            count = count + 1;
            if first.is_none() {
                proof {
                    lemma_first_last_at(m, 0, i as int);
                }
                first = Some(i);
            }
        }
        i = i + 1;
    }
    assert(m.take(n as int) =~= m);
    match first {
        None => {
            proof {
                lemma_first_last_none(m, 0);
            }
            None
        },
        Some(f) => {
            if count != 1 {
                return None;
            }
            if fragments[f].seq as usize != n {
                return None;
            }
            assemble_lfn(fragments)
        },
    }
}

proof fn lemma_first_last_at(fs: Seq<(u8, bool, u8, Seq<u16>)>, from: int, j: int)
    requires
        0 <= from <= j < fs.len(),
        fs[j].1,
        forall|x: int| from <= x < j ==> !fs[x].1,
    ensures
        first_last(fs, from) == Some(j),
    decreases j - from,
{
    if from < j {
        lemma_first_last_at(fs, from + 1, j);
    }
}

proof fn lemma_first_last_none(fs: Seq<(u8, bool, u8, Seq<u16>)>, from: int)
    requires
        0 <= from,
        forall|x: int| from <= x < fs.len() ==> !fs[x].1,
    ensures
        first_last(fs, from) is None,
    decreases fs.len() - from,
{
    if from < fs.len() {
        lemma_first_last_none(fs, from + 1);
    }
}

} // verus!

verus! {

// ── UTF-8 and directory-entry encodings ─────────────────────────────────────

pub proof fn lemma_char_range(c: char)
    ensures
        (c as u32) <= 0x10FFFF,
        !(0xD800 <= (c as u32) && (c as u32) <= 0xDFFF),
{
    assert((c as int) <= 0x10FFFF);
    assert(!(0xD800 <= (c as int) && (c as int) <= 0xDFFF));
}

/// The UTF-8 bytes of a character sequence.
pub fn utf8_bytes(cs: &[char]) -> (r: Vec<u8>)
    ensures
        r@ == vstd::utf8::encode_utf8(cs@),
{
    let mut out: Vec<u8> = Vec::new();
    let mut i: usize = 0;
    proof {
        assert(cs@.skip(0) =~= cs@);
        assert(out@ + vstd::utf8::encode_utf8(cs@) =~= vstd::utf8::encode_utf8(cs@));
    }
    while i < cs.len()
        invariant
            i <= cs@.len(),
            out@ + vstd::utf8::encode_utf8(cs@.skip(i as int)) == vstd::utf8::encode_utf8(cs@),
        decreases cs@.len() - i,
    {
        let ghost o = out@;
        let v = cs[i] as u32;
        proof {
            lemma_char_range(cs@[i as int]);
        }
        assert(cs@.skip(i as int).drop_first() =~= cs@.skip(i + 1));
        assert(cs@.skip(i as int)[0] == cs@[i as int]);
        if v <= 0x7F {
            out.push((v & 0x7F) as u8);
        } else if v <= 0x7FF {
            out.push(0xC0 | ((v >> 6) & 0x1F) as u8);
            out.push(0x80 | (v & 0x3F) as u8);
        } else if v <= 0xFFFF {
            out.push(0xE0 | ((v >> 12) & 0x0F) as u8);
            out.push(0x80 | ((v >> 6) & 0x3F) as u8);
            out.push(0x80 | (v & 0x3F) as u8);
        } else {
            out.push(0xF0 | ((v >> 18) & 0x7) as u8);
            out.push(0x80 | ((v >> 12) & 0x3F) as u8);
            out.push(0x80 | ((v >> 6) & 0x3F) as u8);
            out.push(0x80 | (v & 0x3F) as u8);
        }
        assert(out@ =~= o + vstd::utf8::encode_scalar(v));
        i = i + 1;
        assert(o + vstd::utf8::encode_utf8(cs@.skip(i - 1)) =~= out@ + vstd::utf8::encode_utf8(
            cs@.skip(i as int),
        ));
    }
    assert(cs@.skip(i as int) =~= Seq::<char>::empty());
    assert(out@ + Seq::<u8>::empty() =~= out@);
    out
}

/// `core::str::from_utf8`, owned.
#[verifier::external_body]
pub(crate) fn string_from_utf8(bytes: &[u8]) -> (r: Option<String>)
    ensures
        r is Some <==> vstd::utf8::valid_utf8(bytes@),
        r matches Some(s) ==> s@ == vstd::utf8::decode_utf8(bytes@),
{
    match core::str::from_utf8(bytes) {
        Ok(s) => Some(s.to_string()),
        Err(_) => None,
    }
}

/// The 32 bytes of a short directory entry.
pub open spec fn dir_entry_bytes(name: Seq<u8>, attr: u8, first_cluster: int, size: int) -> Seq<
    u8,
> {
    let base = name.take(11) + seq![attr] + Seq::new(20, |i: int| 0u8);
    put32(put16(put16(base, 20, first_cluster / 65536), 26, first_cluster % 65536), 28, size)
}

pub fn encode_dir_entry(name: &[u8], attr: u8, first_cluster: u32, file_size: u32) -> (r: Vec<u8>)
    requires
        name@.len() == 11,
    ensures
        r@ == dir_entry_bytes(name@, attr, first_cluster as int, file_size as int),
        r@.len() == 32,
{
    let mut entry = copy_bytes(name, 0, 11);
    entry.push(attr);
    let mut i: usize = 0;
    while i < 20
        invariant
            i <= 20,
            entry@ == name@.take(11) + seq![attr] + Seq::new(i as nat, |k: int| 0u8),
        decreases 20 - i,
    {
        entry.push(0);
        i = i + 1;
        assert(entry@ =~= name@.take(11) + seq![attr] + Seq::new(i as nat, |k: int| 0u8));
    }
    wr16(&mut entry, 20, (first_cluster / 65536) as u16);
    wr16(&mut entry, 26, (first_cluster % 65536) as u16);
    wr32(&mut entry, 28, file_size);
    entry
}

pub open spec fn dot_name_bytes() -> Seq<u8> {
    seq![46u8, 32, 32, 32, 32, 32, 32, 32, 32, 32, 32]
}

pub open spec fn dotdot_name_bytes() -> Seq<u8> {
    seq![46u8, 46, 32, 32, 32, 32, 32, 32, 32, 32, 32]
}

pub fn dot_name() -> (r: Vec<u8>)
    ensures
        r@ == dot_name_bytes(),
{
    let r = vec![46u8, 32, 32, 32, 32, 32, 32, 32, 32, 32, 32];
    assert(r@ =~= dot_name_bytes());
    r
}

pub fn dotdot_name() -> (r: Vec<u8>)
    ensures
        r@ == dotdot_name_bytes(),
{
    let r = vec![46u8, 46, 32, 32, 32, 32, 32, 32, 32, 32, 32];
    assert(r@ =~= dotdot_name_bytes());
    r
}

// ── Long names: validation and encoding ─────────────────────────────────────

pub open spec fn lfn_forbidden(c: char) -> bool {
    (c as u32) < 0x20 || c == '"' || c == '*' || c == '/' || c == ':' || c == '<' || c == '>'
        || c == '?' || c == '\\' || c == '|'
}

/// UTF-16 units of a character sequence.
pub open spec fn utf16_encode(cs: Seq<char>) -> Seq<u16>
    decreases cs.len(),
{
    if cs.len() == 0 {
        Seq::empty()
    } else {
        let v = cs.last() as u32;
        utf16_encode(cs.drop_last()) + if v >= 0x10000 {
            seq![
                (0xD800 + (v - 0x10000) / 1024) as u16,
                (0xDC00 + (v - 0x10000) % 1024) as u16,
            ]
        } else {
            seq![v as u16]
        }
    }
}

/// Whether a name may be stored as a long filename.
pub open spec fn lfn_name_check(name: Seq<char>) -> Result<(), FsError> {
    if name.len() == 0 || name == seq!['.'] || name == seq!['.', '.'] {
        Err(FsError::InvalidPath)
    } else if name.last() == '.' || name.last() == ' ' {
        Err(FsError::UnsupportedName)
    } else if exists|i: int| 0 <= i < name.len() && lfn_forbidden(#[trigger] name[i]) {
        Err(FsError::UnsupportedName)
    } else if utf16_encode(name).len() > 255 {
        Err(FsError::UnsupportedName)
    } else {
        Ok(())
    }
}

/// UTF-16 units of a character sequence.
pub fn encode_utf16(cs: &[char]) -> (r: Vec<u16>)
    ensures
        r@ == utf16_encode(cs@),
{
    let mut out: Vec<u16> = Vec::new();
    let mut i: usize = 0;
    while i < cs.len()
        invariant
            i <= cs@.len(),
            out@ == utf16_encode(cs@.take(i as int)),
        decreases cs@.len() - i,
    {
        let v = cs[i] as u32;
        proof {
            lemma_char_range(cs@[i as int]);
        }
        assert(cs@.take(i + 1).drop_last() =~= cs@.take(i as int));
        if v >= 0x10000 {
            assert(v <= 0x10FFFF);
            out.push((0xD800 + (v - 0x10000) / 1024) as u16);
            out.push((0xDC00 + (v - 0x10000) % 1024) as u16);
        } else {
            out.push(v as u16);
        }
        i = i + 1;
        assert(out@ =~= utf16_encode(cs@.take(i as int)));
    }
    assert(cs@.take(cs@.len() as int) =~= cs@);
    out
}

pub fn validate_lfn_name(name: &[char]) -> (r: Result<(), FsError>)
    ensures
        r == lfn_name_check(name@),
{
    let n = name.len();
    if n == 0 || (n == 1 && name[0] == '.') || (n == 2 && name[0] == '.' && name[1] == '.') {
        proof {
            if n == 1 {
                assert(name@ =~= seq!['.']);
            }
            if n == 2 {
                assert(name@ =~= seq!['.', '.']);
            }
        }
        return Err(FsError::InvalidPath);
    }
    assert(name@ != seq!['.'] && name@ != seq!['.', '.']) by {
        if name@ == seq!['.'] {
            assert(name@[0] == '.');
        }
        if name@ == seq!['.', '.'] {
            assert(name@[0] == '.' && name@[1] == '.');
        }
    }
    if name[n - 1] == '.' || name[n - 1] == ' ' {
        return Err(FsError::UnsupportedName);
    }
    let mut i: usize = 0;
    while i < n
        invariant
            n == name@.len(),
            i <= n,
            forall|k: int| 0 <= k < i ==> !lfn_forbidden(#[trigger] name@[k]),
        decreases n - i,
    {
        let c = name[i];
        if (c as u32) < 0x20 || c == '"' || c == '*' || c == '/' || c == ':' || c == '<' || c
            == '>' || c == '?' || c == '\\' || c == '|' {
            assert(lfn_forbidden(name@[i as int]));
            return Err(FsError::UnsupportedName);
        }
        i = i + 1;
    }
    let units = encode_utf16(name);
    if units.len() > 255 {
        return Err(FsError::UnsupportedName);
    }
    Ok(())
}

/// The UTF-16 unit at slot `i` of a long-filename fragment holding `chunk`:
/// the text, then one NUL, then 0xFFFF padding.
pub open spec fn lfn_slot_unit(chunk: Seq<u16>, i: int) -> u16 {
    if i < chunk.len() {
        chunk[i]
    } else if i == chunk.len() {
        0
    } else {
        0xFFFF
    }
}

pub open spec fn lfn_fill(b: Seq<u8>, chunk: Seq<u16>, i: nat) -> Seq<u8>
    decreases i,
{
    if i == 0 {
        b
    } else {
        put16(
            lfn_fill(b, chunk, (i - 1) as nat),
            lfn_offset(i - 1),
            lfn_slot_unit(chunk, i - 1) as int,
        )
    }
}

/// Long-filename slot number `seq` (1-based) of `count` for the units.
pub open spec fn lfn_entry(units: Seq<u16>, count: int, seq: int, sum: u8) -> Seq<u8> {
    let start = (seq - 1) * 13;
    let end = if start + 13 < units.len() {
        start + 13
    } else {
        units.len() as int
    };
    let head = Seq::new(32, |i: int| 0u8).update(
        0,
        (seq + if seq == count {
            64int
        } else {
            0
        }) as u8,
    ).update(11, 0x0Fu8).update(13, sum);
    lfn_fill(head, units.subrange(start, end), 13)
}

/// The long-filename slots for a name, last fragment first.
pub open spec fn lfn_entries(name: Seq<char>, sum: u8) -> Seq<Seq<u8>> {
    let units = utf16_encode(name);
    let count = (units.len() + 12) / 13;
    Seq::new(count as nat, |e: int| lfn_entry(units, count as int, count - e, sum))
}

pub fn encode_lfn_entries(name: &[char], name83: &[u8]) -> (r: Result<Vec<Vec<u8>>, FsError>)
    ensures
        match r {
            Ok(v) => {
                &&& 1 <= utf16_encode(name@).len() <= 255
                &&& views_u8(v@) == lfn_entries(name@, lfn_sum(name83@))
            },
            Err(e) => e == FsError::UnsupportedName && (utf16_encode(name@).len() == 0
                || utf16_encode(name@).len() > 255),
        },
{
    let utf16 = encode_utf16(name);
    if utf16.len() == 0 || utf16.len() > 255 {
        return Err(FsError::UnsupportedName);
    }
    let checksum = lfn_checksum(name83);
    let count = (utf16.len() + 12) / 13;
    let mut entries: Vec<Vec<u8>> = Vec::new();
    let mut e: usize = 0;
    while e < count
        invariant
            1 <= utf16@.len() <= 255,
            utf16@ == utf16_encode(name@),
            count == (utf16@.len() + 12) / 13,
            checksum == lfn_sum(name83@),
            e <= count,
            views_u8(entries@) == lfn_entries(name@, checksum).take(e as int),
        decreases count - e,
    {
        let seq = count - e;
        let start = (seq - 1) * 13;
        let end = if start + 13 < utf16.len() {
            start + 13
        } else {
            utf16.len()
        };
        let mut entry = zeroed(32);
        let first: u8 = if seq == count {
            seq as u8 + 64
        } else {
            seq as u8
        };
        entry.set(0, first);
        entry.set(11, ATTR_LFN);
        entry.set(13, checksum);
        let ghost head = entry@;
        assert(head =~= Seq::new(32, |i: int| 0u8).update(
            0,
            (seq + if seq == count {
                64int
            } else {
                0
            }) as u8,
        ).update(11, 0x0Fu8).update(13, checksum));
        let ghost chunk = utf16@.subrange(start as int, end as int);
        let mut i: usize = 0;
        while i < 13
            invariant
                i <= 13,
                start <= end <= utf16@.len(),
                chunk == utf16@.subrange(start as int, end as int),
                entry@.len() == 32,
                entry@ == lfn_fill(head, chunk, i as nat),
            decreases 13 - i,
        {
            let len = end - start;
            let value: u16 = if i < len {
                utf16[start + i]
            } else if i == len {
                0
            } else {
                0xFFFF
            };
            assert(value == lfn_slot_unit(chunk, i as int));
            let off = lfn_char_offset(i);
            wr16(&mut entry, off, value);
            i = i + 1;
        }
        let ghost prev = views_u8(entries@);
        entries.push(entry);
        e = e + 1;
        assert(views_u8(entries@) =~= prev.push(entry@));
        assert(views_u8(entries@) =~= lfn_entries(name@, checksum).take(e as int));
    }
    assert(lfn_entries(name@, checksum).take(count as int) =~= lfn_entries(name@, checksum));
    Ok(entries)
}

pub open spec fn views_u8(v: Seq<Vec<u8>>) -> Seq<Seq<u8>> {
    Seq::new(v.len(), |i: int| v[i]@)
}

} // verus!

verus! {

// ── Directory entries ───────────────────────────────────────────────────────

/// A short directory entry.
#[derive(Clone)]
pub struct DirEntry {
    pub name: Vec<u8>,
    pub attr: u8,
    pub first_cluster_hi: u16,
    pub first_cluster_lo: u16,
    pub file_size: u32,
}

/// Whether a 32-byte slot holds a short entry (in use, not a long-name slot).
pub open spec fn slot_is_entry(b: Seq<u8>) -> bool {
    b.len() >= 32 && b[0] != 0 && b[0] != 0xE5 && b[11] != 0x0F
}

pub open spec fn slot_cluster(b: Seq<u8>) -> int {
    le16(b, 20) * 65536 + le16(b, 26)
}

pub open spec fn slot_is_dir(b: Seq<u8>) -> bool {
    (b[11] & 0x10) != 0
}

/// The name before the first space.
pub open spec fn until_space(s: Seq<u8>) -> Seq<u8> {
    match find_b(s, 32, 0) {
        Some(p) => s.take(p),
        None => s,
    }
}

/// Display text of an 11-byte short name: `BASE.EXT`, or `BASE` without an
/// extension.
pub open spec fn short_name_text(name: Seq<u8>) -> Seq<char> {
    let base = until_space(name.take(8));
    let ext = until_space(name.subrange(8, 11));
    let b = if vstd::utf8::valid_utf8(base) {
        vstd::utf8::decode_utf8(base)
    } else {
        "????????"@
    };
    let e = if vstd::utf8::valid_utf8(ext) {
        vstd::utf8::decode_utf8(ext)
    } else {
        Seq::empty()
    };
    if e.len() == 0 {
        b
    } else {
        b + seq!['.'] + e
    }
}

impl DirEntry {
    pub fn from_bytes(b: &[u8]) -> (r: Option<DirEntry>)
        ensures
            r is Some <==> slot_is_entry(b@),
            r matches Some(e) ==> e.name@ == b@.take(11) && e.attr == b@[11]
                && e.first_cluster_hi as int == le16(b@, 20) && e.first_cluster_lo as int
                == le16(b@, 26) && e.file_size as int == le32(b@, 28),
    {
        if b.len() < DIR_ENTRY_SIZE {
            return None;
        }
        if b[0] == 0x00 || b[0] == 0xE5 {
            return None;
        }
        let attr = b[11];
        if attr == ATTR_LFN {
            return None;
        }
        Some(
            DirEntry {
                name: copy_bytes(b, 0, 11),
                attr,
                first_cluster_hi: rd16(b, 20),
                first_cluster_lo: rd16(b, 26),
                file_size: rd32(b, 28),
            },
        )
    }

    pub fn first_cluster(&self) -> (r: u32)
        ensures
            r as int == self.first_cluster_hi as int * 65536 + self.first_cluster_lo as int,
    {
        (self.first_cluster_hi as u32) * 65536 + self.first_cluster_lo as u32
    }

    pub fn is_dir(&self) -> (r: bool)
        ensures
            r == ((self.attr & 0x10) != 0),
    {
        self.attr & ATTR_DIRECTORY != 0
    }

    pub fn name_as_string(&self) -> (r: String)
        requires
            self.name@.len() == 11,
        ensures
            r@ == short_name_text(self.name@),
    {
        let head = copy_bytes(self.name.as_slice(), 0, 8);
        let tail = copy_bytes(self.name.as_slice(), 8, 11);
        let base = match position(head.as_slice(), 32) {
            Some(p) => copy_bytes(head.as_slice(), 0, p),
            None => head,
        };
        let ext = match position(tail.as_slice(), 32) {
            Some(p) => copy_bytes(tail.as_slice(), 0, p),
            None => tail,
        };
        assert(base@ == until_space(self.name@.take(8)));
        assert(ext@ == until_space(self.name@.subrange(8, 11)));
        let base_str = match string_from_utf8(base.as_slice()) {
            Some(s) => s,
            None => crate::text::string_from("????????"),
        };
        match string_from_utf8(ext.as_slice()) {
            Some(e) => {
                if e.as_str().unicode_len() == 0 {
                    base_str
                } else {
                    let mut s = base_str;
                    push_char(&mut s, '.');
                    crate::text::push_str(&mut s, e.as_str());
                    s
                }
            },
            None => base_str,
        }
    }

    pub fn matches(&self, component: &[u8]) -> (r: bool)
        ensures
            r == (self.name@ == name83(component@)),
    {
        let n = name_to_83(component);
        bytes_eq(self.name.as_slice(), n.as_slice())
    }
}

pub fn bytes_eq(a: &[u8], b: &[u8]) -> (r: bool)
    ensures
        r == (a@ == b@),
{
    if a.len() != b.len() {
        return false;
    }
    let mut i: usize = 0;
    while i < a.len()
        invariant
            a@.len() == b@.len(),
            i <= a@.len(),
            forall|k: int| 0 <= k < i ==> a@[k] == b@[k],
        decreases a@.len() - i,
    {
        if a[i] != b[i] {
            return false;
        }
        i = i + 1;
    }
    assert(a@ =~= b@);
    true
}

pub open spec fn lower_code(v: u32) -> u32 {
    if 65 <= v && v <= 90 {
        (v + 32) as u32
    } else {
        v
    }
}

pub open spec fn lowered(a: Seq<u32>) -> Seq<u32> {
    a.map_values(|v: u32| lower_code(v))
}

pub open spec fn eq_ic_codes(a: Seq<u32>, b: Seq<u32>) -> bool {
    lowered(a) == lowered(b)
}

/// Whether a long name equals a path component, ignoring ASCII case.
pub open spec fn lfn_matches(lfn: Seq<u32>, component: Seq<u8>) -> bool {
    vstd::utf8::valid_utf8(strip_nul(component)) && eq_ic_codes(
        lfn,
        codes(vstd::utf8::decode_utf8(strip_nul(component))),
    )
}

fn codes_eq_ic(a: &String, b: &String) -> (r: bool)
    ensures
        r == eq_ic_codes(codes(a@), codes(b@)),
{
    let x = crate::text::string_chars(a);
    let y = crate::text::string_chars(b);
    let ghost la = lowered(codes(x@));
    let ghost lb = lowered(codes(y@));
    if x.len() != y.len() {
        assert(la.len() != lb.len());
        return false;
    }
    let mut i: usize = 0;
    while i < x.len()
        invariant
            x@.len() == y@.len(),
            i <= x@.len(),
            la == lowered(codes(x@)),
            lb == lowered(codes(y@)),
            x@ == a@,
            y@ == b@,
            forall|k: int| 0 <= k < i ==> la[k] == lb[k],
        decreases x@.len() - i,
    {
        let a1 = x[i] as u32;
        let b1 = y[i] as u32;
        let la1 = if 65 <= a1 && a1 <= 90 {
            a1 + 32
        } else {
            a1
        };
        let lb1 = if 65 <= b1 && b1 <= 90 {
            b1 + 32
        } else {
            b1
        };
        assert(la[i as int] == la1 && lb[i as int] == lb1);
        if la1 != lb1 {
            assert(la[i as int] != lb[i as int]);
            return false;
        }
        i = i + 1;
    }
    assert(la =~= lb);
    true
}

pub fn lfn_name_matches(lfn_name: &String, component: &[u8]) -> (r: bool)
    ensures
        r == lfn_matches(codes(lfn_name@), component@),
{
    let len = if component.len() > 0 && component[component.len() - 1] == 0 {
        component.len() - 1
    } else {
        component.len()
    };
    let c = copy_bytes(component, 0, len);
    assert(c@ =~= strip_nul(component@));
    match string_from_utf8(c.as_slice()) {
        Some(s) => codes_eq_ic(lfn_name, &s),
        None => false,
    }
}

// ── Paths ───────────────────────────────────────────────────────────────────

pub open spec fn strip_slashes(p: Seq<char>) -> Seq<char>
    decreases p.len(),
{
    if p.len() > 1 && p.last() == '/' {
        strip_slashes(p.drop_last())
    } else {
        p
    }
}

/// An absolute path without its trailing slashes (the root stays `/`).
pub open spec fn trim_abs(p: Seq<char>) -> Option<Seq<char>> {
    if p.len() == 0 || p[0] != '/' {
        None
    } else {
        Some(strip_slashes(p))
    }
}

proof fn lemma_strip_slashes(p: Seq<char>)
    requires
        p.len() > 0,
        p[0] == '/',
    ensures
        strip_slashes(p).len() >= 1,
        strip_slashes(p)[0] == '/',
        strip_slashes(p).is_prefix_of(p),
        strip_slashes(p).len() > 1 ==> strip_slashes(p).last() != '/',
    decreases p.len(),
{
    if p.len() > 1 && p.last() == '/' {
        lemma_strip_slashes(p.drop_last());
    }
}

pub fn trim_abs_path(path: &[char]) -> (r: Option<Vec<char>>)
    ensures
        match r {
            Some(v) => trim_abs(path@) == Some(v@),
            None => trim_abs(path@) is None,
        },
{
    if path.len() == 0 || path[0] != '/' {
        return None;
    }
    let mut end = path.len();
    assert(path@.take(path@.len() as int) =~= path@);
    while end > 1 && path[end - 1] == '/'
        invariant
            1 <= end <= path@.len(),
            path@[0] == '/',
            strip_slashes(path@) == strip_slashes(path@.take(end as int)),
        decreases end,
    {
        assert(path@.take(end as int).drop_last() =~= path@.take(end - 1));
        end = end - 1;
    }
    assert(path@.take(path@.len() as int) =~= path@);
    Some(crate::text::slice_chars(path, 0, end))
}

/// Parent directory and final name of an absolute path.
pub open spec fn split_parent(p: Seq<char>) -> Result<(Seq<char>, Seq<char>), FsError> {
    match trim_abs(p) {
        None => Err(FsError::InvalidPath),
        Some(t) => if t == seq!['/'] {
            Err(FsError::InvalidPath)
        } else {
            match crate::text::rfind(t, '/') {
                None => Err(FsError::InvalidPath),
                Some(s) => {
                    let parent = if s == 0 {
                        seq!['/']
                    } else {
                        t.take(s)
                    };
                    let name = t.skip(s + 1);
                    if name.len() == 0 {
                        Err(FsError::InvalidPath)
                    } else {
                        Ok((parent, name))
                    }
                },
            }
        },
    }
}

pub fn split_parent_and_name(path: &[char]) -> (r: Result<(Vec<char>, Vec<char>), FsError>)
    ensures
        match r {
            Ok((a, b)) => split_parent(path@) == Ok::<(Seq<char>, Seq<char>), FsError>(
                (a@, b@),
            ),
            Err(e) => split_parent(path@) == Err::<(Seq<char>, Seq<char>), FsError>(e),
        },
{
    let t = match trim_abs_path(path) {
        Some(t) => t,
        None => {
            return Err(FsError::InvalidPath);
        },
    };
    if t.len() == 1 && t[0] == '/' {
        assert(t@ =~= seq!['/']);
        return Err(FsError::InvalidPath);
    }
    assert(t@ != seq!['/']) by {
        if t@ == seq!['/'] {
            assert(t@[0] == '/');
        }
    }
    let slash = match crate::text::rfind_char(t.as_slice(), '/') {
        Some(s) => s,
        None => {
            return Err(FsError::InvalidPath);
        },
    };
    proof {
        lemma_rfind_range(t@, '/');
    }
    let parent = if slash == 0 {
        let v = vec!['/'];
        assert(v@ =~= seq!['/']);
        v
    } else {
        crate::text::slice_chars(t.as_slice(), 0, slash)
    };
    let name = crate::text::slice_chars(t.as_slice(), slash + 1, t.len());
    assert(name@ =~= t@.skip(slash + 1));
    assert(slash != 0 ==> parent@ =~= t@.take(slash as int));
    if name.len() == 0 {
        return Err(FsError::InvalidPath);
    }
    Ok((parent, name))
}

proof fn lemma_rfind_range(s: Seq<char>, c: char)
    ensures
        crate::text::rfind(s, c) matches Some(j) ==> 0 <= j < s.len(),
    decreases s.len(),
{
    if s.len() > 0 && s.last() != c {
        lemma_rfind_range(s.drop_last(), c);
    }
}

/// The non-empty pieces of a path between slashes.
pub open spec fn components(p: Seq<char>) -> Seq<Seq<char>> {
    crate::text::split_on(p, '/').filter(|c: Seq<char>| c.len() > 0)
}

pub fn path_components(p: &[char]) -> (r: Vec<Vec<char>>)
    ensures
        crate::text::views(r@) == components(p@),
{
    let parts = crate::text::split_chars(p, '/');
    let mut out: Vec<Vec<char>> = Vec::new();
    let mut i: usize = 0;
    let ghost pv = crate::text::views(parts@);
    assert(pv.take(0).filter(|c: Seq<char>| c.len() > 0) =~= Seq::<Seq<char>>::empty());
    while i < parts.len()
        invariant
            pv == crate::text::views(parts@),
            i <= parts@.len(),
            crate::text::views(out@) == pv.take(i as int).filter(|c: Seq<char>| c.len() > 0),
        decreases parts@.len() - i,
    {
        let ghost before = crate::text::views(out@);
        assert(pv.take(i + 1).drop_last() =~= pv.take(i as int));
        assert(pv[i as int] == parts@[i as int]@);
        if parts[i].len() > 0 {
            let piece = crate::text::slice_chars(parts[i].as_slice(), 0, parts[i].len());
            assert(piece@ =~= pv[i as int]);
            out.push(piece);
            assert(crate::text::views(out@) =~= before.push(pv[i as int]));
        } else {
            assert(crate::text::views(out@) =~= before);
        }
        i = i + 1;
        proof {
            assert(pv.take(i as int).filter(|c: Seq<char>| c.len() > 0) =~= (if pv[i - 1].len()
                > 0 {
                before.push(pv[i - 1])
            } else {
                before
            })) by {
                lemma_filter_push(pv.take(i - 1), pv[i - 1]);
                assert(pv.take(i as int) =~= pv.take(i - 1).push(pv[i - 1]));
            }
        }
    }
    assert(pv.take(parts@.len() as int) =~= pv);
    out
}

proof fn lemma_filter_push(s: Seq<Seq<char>>, x: Seq<char>)
    ensures
        s.push(x).filter(|c: Seq<char>| c.len() > 0) == (if x.len() > 0 {
            s.filter(|c: Seq<char>| c.len() > 0).push(x)
        } else {
            s.filter(|c: Seq<char>| c.len() > 0)
        }),
{
    assert(s.push(x).drop_last() =~= s);
    reveal(Seq::filter);
}

} // verus!

verus! {

// ── Directory scans ─────────────────────────────────────────────────────────

/// A listed directory entry.
#[derive(Debug, Clone)]
pub struct DirEntryInfo {
    pub name: String,
    pub is_dir: bool,
    pub size: u32,
}

pub open spec fn info_model(e: DirEntryInfo) -> (Seq<u32>, bool, u32) {
    (codes(e.name@), e.is_dir, e.size)
}

pub open spec fn info_models(v: Seq<DirEntryInfo>) -> Seq<(Seq<u32>, bool, u32)> {
    v.map_values(|e: DirEntryInfo| info_model(e))
}

pub open spec fn slot_frag(b: Seq<u8>) -> (u8, bool, u8, Seq<u16>) {
    (b[0] & 0x3F, (b[0] & 0x40) != 0, b[13], lfn_units(b))
}

/// Slot `k` of the directory stored in the given sectors (16 per sector).
pub open spec fn slot_at(d: Seq<u8>, secs: Seq<u32>, k: int) -> Seq<u8> {
    sector_of(d, secs[k / 16] as int).subrange((k % 16) * 32, (k % 16) * 32 + 32)
}

/// The name a short entry is listed under: its long name when the preceding
/// fragments spell one for it, else its 8.3 text.
pub open spec fn entry_name(slot: Seq<u8>, frags: Seq<(u8, bool, u8, Seq<u16>)>) -> Seq<u32> {
    match lfn_for_entry(slot.take(11), frags) {
        Some(n) => n,
        None => codes(short_name_text(slot.take(11))),
    }
}

pub open spec fn is_dot_name(n: Seq<u32>) -> bool {
    n == seq![46u32] || n == seq![46u32, 46u32]
}

/// The fragments gathered after slot `slot`.
pub open spec fn next_frags(slot: Seq<u8>, frags: Seq<(u8, bool, u8, Seq<u16>)>) -> Seq<
    (u8, bool, u8, Seq<u16>),
> {
    if slot[0] != 0xE5 && slot[11] == 0x0F && lfn_fragment_ok(slot) {
        frags.push(slot_frag(slot))
    } else {
        Seq::empty()
    }
}

/// The entries of a directory listed from slot `k` on: long names are
/// assembled from the fragments before each short entry, `.` and `..` are
/// skipped, a slot starting with 0 ends the directory, and an unreadable
/// sector gives `None`.
pub open spec fn list_scan(
    d: Seq<u8>,
    secs: Seq<u32>,
    k: int,
    frags: Seq<(u8, bool, u8, Seq<u16>)>,
    acc: Seq<(Seq<u32>, bool, u32)>,
) -> Option<Seq<(Seq<u32>, bool, u32)>>
    decreases secs.len() * 16 - k,
{
    if k < 0 || k >= secs.len() * 16 {
        Some(acc)
    } else if !sector_in(d, secs[k / 16] as int) {
        None
    } else {
        let slot = slot_at(d, secs, k);
        if slot[0] == 0 {
            Some(acc)
        } else if slot[0] == 0xE5 || slot[11] == 0x0F {
            list_scan(d, secs, k + 1, next_frags(slot, frags), acc)
        } else {
            let name = entry_name(slot, frags);
            list_scan(
                d,
                secs,
                k + 1,
                Seq::empty(),
                if is_dot_name(name) {
                    acc
                } else {
                    acc.push((name, slot_is_dir(slot), le32(slot, 28) as u32))
                },
            )
        }
    }
}

proof fn lemma_slot_in_sector(d: Seq<u8>, secs: Seq<u32>, si: int, off: int, buf: Seq<u8>)
    requires
        0 <= si < secs.len(),
        0 <= off < 16,
        sector_in(d, secs[si] as int),
        buf == sector_of(d, secs[si] as int),
    ensures
        slot_at(d, secs, si * 16 + off) == buf.subrange(off * 32, off * 32 + 32),
{
    assert((si * 16 + off) / 16 == si) by (nonlinear_arith)
        requires
            0 <= off < 16,
    ;
    assert((si * 16 + off) % 16 == off) by (nonlinear_arith)
        requires
            0 <= off < 16,
    ;
}

proof fn lemma_sector_unreadable(d: Seq<u8>, secs: Seq<u32>, si: int)
    requires
        0 <= si < secs.len(),
    ensures
        (si * 16) / 16 == si,
        si * 16 < secs.len() * 16,
{
    assert((si * 16) / 16 == si) by (nonlinear_arith);
    assert(si * 16 < secs.len() * 16) by (nonlinear_arith)
        requires
            si < secs.len(),
    ;
}

fn slot_frag_of(slot: &[u8]) -> (r: Option<LfnFragment>)
    requires
        slot@.len() == 32,
    ensures
        r is Some <==> lfn_fragment_ok(slot@),
        r matches Some(f) ==> frag_model(f) == slot_frag(slot@),
{
    read_lfn_fragment(slot)
}

/// Lists the entries of the directory stored in `sectors` (see
/// [`list_scan`]).
pub fn scan_directory(disk: &Disk, sectors: &[u32]) -> (r: Option<Vec<DirEntryInfo>>)
    ensures
        match r {
            Some(v) => list_scan(disk@, sectors@, 0, Seq::empty(), Seq::empty()) == Some(
                info_models(v@),
            ),
            None => list_scan(disk@, sectors@, 0, Seq::empty(), Seq::empty()) is None,
        },
{
    let ghost d = disk@;
    let ghost secs = sectors@;
    let ghost goal = list_scan(d, secs, 0, Seq::empty(), Seq::empty());
    let mut buf: Vec<u8> = zeroed(512);
    let mut entries: Vec<DirEntryInfo> = Vec::new();
    let mut frags: Vec<LfnFragment> = Vec::new();
    assert(info_models(entries@) =~= Seq::<(Seq<u32>, bool, u32)>::empty());
    assert(frag_models(frags@) =~= Seq::<(u8, bool, u8, Seq<u16>)>::empty());
    let mut si: usize = 0;
    while si < sectors.len()
        invariant
            d == disk@,
            secs == sectors@,
            buf@.len() == 512,
            si <= secs.len(),
            goal == list_scan(d, secs, 0, Seq::empty(), Seq::empty()),
            goal == list_scan(d, secs, si * 16, frag_models(frags@), info_models(entries@)),
        decreases secs.len() - si,
    {
        let lba = sectors[si];
        proof {
            lemma_sector_unreadable(d, secs, si as int);
        }
        if !disk.read_sector(lba, &mut buf) {
            return None;
        }
        let mut off: usize = 0;
        while off < 16
            invariant
                d == disk@,
                secs == sectors@,
                si < secs.len(),
                lba == secs[si as int],
                sector_in(d, lba as int),
                buf@ == sector_of(d, lba as int),
                off <= 16,
                goal == list_scan(d, secs, 0, Seq::empty(), Seq::empty()),
                goal == list_scan(
                    d,
                    secs,
                    si * 16 + off,
                    frag_models(frags@),
                    info_models(entries@),
                ),
            decreases 16 - off,
        {
            let slot = copy_bytes(buf.as_slice(), off * 32, off * 32 + 32);
            let ghost k = si * 16 + off;
            proof {
                lemma_slot_in_sector(d, secs, si as int, off as int, buf@);
                assert(k < secs.len() * 16) by (nonlinear_arith)
                    requires
                        k == si * 16 + off,
                        si < secs.len(),
                        off < 16,
                ;
                assert(k / 16 == si) by (nonlinear_arith)
                    requires
                        k == si * 16 + off,
                        off < 16,
                ;
            }
            assert(slot@ == slot_at(d, secs, k));
            if slot[0] == 0x00 {
                return Some(entries);
            }
            if slot[0] == 0xE5 || slot[11] == ATTR_LFN {
                let ghost fm = frag_models(frags@);
                if slot[0] != 0xE5 {
                    match slot_frag_of(slot.as_slice()) {
                        Some(f) => {
                            frags.push(f);
                            assert(frag_models(frags@) =~= fm.push(slot_frag(slot@)));
                        },
                        None => {
                            frags = Vec::new();
                            assert(frag_models(frags@) =~= Seq::<
                                (u8, bool, u8, Seq<u16>),
                            >::empty());
                        },
                    }
                } else {
                    frags = Vec::new();
                    assert(frag_models(frags@) =~= Seq::<(u8, bool, u8, Seq<u16>)>::empty());
                }
                assert(frag_models(frags@) == next_frags(slot@, fm));
            } else {
                let entry = match DirEntry::from_bytes(slot.as_slice()) {
                    Some(e) => e,
                    None => {
                        return None;
                    },
                };
                let name = match assemble_lfn_for_entry(entry.name.as_slice(), frags.as_slice()) {
                    Some(n) => n,
                    None => entry.name_as_string(),
                };
                assert(codes(name@) == entry_name(slot@, frag_models(frags@)));
                let nc = crate::text::string_chars(&name);
                let dot = (nc.len() == 1 && nc[0] as u32 == 46) || (nc.len() == 2 && nc[0] as u32
                    == 46 && nc[1] as u32 == 46);
                proof {
                    assert(codes(name@).len() == nc@.len());
                    if nc@.len() >= 1 {
                        assert(codes(name@)[0] == nc@[0] as u32);
                    }
                    if nc@.len() == 2 {
                        assert(codes(name@)[1] == nc@[1] as u32);
                    }
                    if dot {
                        if nc@.len() == 1 {
                            assert(codes(name@) =~= seq![46u32]);
                        } else {
                            assert(codes(name@) =~= seq![46u32, 46u32]);
                        }
                    }
                }
                assert(dot == is_dot_name(codes(name@)));
                let ghost im = info_models(entries@);
                let is_dir = entry.is_dir();
                if !dot {
                    entries.push(DirEntryInfo { name, is_dir, size: entry.file_size });
                    assert(info_models(entries@) =~= im.push(
                        (entry_name(slot@, frag_models(frags@)), slot_is_dir(slot@), le32(
                            slot@,
                            28,
                        ) as u32),
                    ));
                }
                frags = Vec::new();
                assert(frag_models(frags@) =~= Seq::<(u8, bool, u8, Seq<u16>)>::empty());
            }
            off = off + 1;
            assert(si * 16 + off == k + 1);
        }
        si = si + 1;
        assert(si * 16 == (si - 1) * 16 + 16);
    }
    Some(entries)
}

} // verus!

verus! {

// ── Entry lookup ────────────────────────────────────────────────────────────

/// Where a directory entry lives: its short slot, and the slots of the long
/// name that belongs to it.
pub struct DirEntryLocation {
    pub entry: DirEntry,
    pub lba: u32,
    pub offset: usize,
    pub lfn_locations: Vec<(u32, usize)>,
}

/// Name, attribute, first cluster and size of an entry.
pub open spec fn entry_view(e: DirEntry) -> (Seq<u8>, u8, int, int) {
    (
        e.name@,
        e.attr,
        e.first_cluster_hi as int * 65536 + e.first_cluster_lo as int,
        e.file_size as int,
    )
}

/// Name, attribute, first cluster and size stored in a short slot.
pub open spec fn slot_view(b: Seq<u8>) -> (Seq<u8>, u8, int, int) {
    (b.take(11), b[11], slot_cluster(b), le32(b, 28))
}

pub open spec fn loc_view(l: DirEntryLocation) -> (
    (Seq<u8>, u8, int, int),
    u32,
    usize,
    Seq<(u32, usize)>,
) {
    (entry_view(l.entry), l.lba, l.offset, l.lfn_locations@)
}

/// Sector and byte offset of slot `k`.
pub open spec fn slot_pos(secs: Seq<u32>, k: int) -> (u32, usize) {
    (secs[k / 16], ((k % 16) * 32) as usize)
}

/// Whether a short slot answers to `name`, by its 8.3 name or by the long
/// name the preceding fragments give it (compared case-insensitively).
pub open spec fn entry_hit(slot: Seq<u8>, frags: Seq<(u8, bool, u8, Seq<u16>)>, name: Seq<u8>) -> bool {
    slot.take(11) == name83(name) || match lfn_for_entry(slot.take(11), frags) {
        Some(n) => lfn_matches(n, name),
        None => false,
    }
}

/// The first entry from slot `k` on that answers to `name`; the end marker,
/// the end of the chain or an unreadable sector give `None`.
pub open spec fn find_scan(
    d: Seq<u8>,
    secs: Seq<u32>,
    k: int,
    frags: Seq<(u8, bool, u8, Seq<u16>)>,
    locs: Seq<(u32, usize)>,
    name: Seq<u8>,
) -> Option<((Seq<u8>, u8, int, int), u32, usize, Seq<(u32, usize)>)>
    decreases secs.len() * 16 - k,
{
    if k < 0 || k >= secs.len() * 16 {
        None
    } else if !sector_in(d, secs[k / 16] as int) {
        None
    } else {
        let slot = slot_at(d, secs, k);
        if slot[0] == 0 {
            None
        } else if slot[0] == 0xE5 {
            find_scan(d, secs, k + 1, Seq::empty(), Seq::empty(), name)
        } else if slot[11] == 0x0F {
            if lfn_fragment_ok(slot) {
                find_scan(d, secs, k + 1, frags.push(slot_frag(slot)), locs.push(slot_pos(secs, k)), name)
            } else {
                find_scan(d, secs, k + 1, Seq::empty(), Seq::empty(), name)
            }
        } else if entry_hit(slot, frags, name) {
            Some(
                (
                    slot_view(slot),
                    slot_pos(secs, k).0,
                    slot_pos(secs, k).1,
                    if lfn_for_entry(slot.take(11), frags) is Some {
                        locs
                    } else {
                        Seq::empty()
                    },
                ),
            )
        } else {
            find_scan(d, secs, k + 1, Seq::empty(), Seq::empty(), name)
        }
    }
}

/// The lookup of `name` in the directory whose chain starts at `cluster`.
pub open spec fn find_in(d: Seq<u8>, bpb: Bpb, cluster: int, name: Seq<u8>) -> Option<
    ((Seq<u8>, u8, int, int), u32, usize, Seq<(u32, usize)>),
> {
    find_scan(d, sectors_of(bpb, chain(d, bpb, cluster)), 0, Seq::empty(), Seq::empty(), name)
}

fn scan_for_entry(disk: &Disk, sectors: &[u32], name: &[u8]) -> (r: Option<DirEntryLocation>)
    ensures
        match r {
            Some(l) => find_scan(disk@, sectors@, 0, Seq::empty(), Seq::empty(), name@) == Some(
                loc_view(l),
            ),
            None => find_scan(disk@, sectors@, 0, Seq::empty(), Seq::empty(), name@) is None,
        },
{
    let ghost d = disk@;
    let ghost secs = sectors@;
    let ghost goal = find_scan(d, secs, 0, Seq::empty(), Seq::empty(), name@);
    let mut buf: Vec<u8> = zeroed(512);
    let mut frags: Vec<LfnFragment> = Vec::new();
    let mut locs: Vec<(u32, usize)> = Vec::new();
    assert(frag_models(frags@) =~= Seq::<(u8, bool, u8, Seq<u16>)>::empty());
    let mut si: usize = 0;
    while si < sectors.len()
        invariant
            d == disk@,
            secs == sectors@,
            buf@.len() == 512,
            si <= secs.len(),
            goal == find_scan(d, secs, 0, Seq::empty(), Seq::empty(), name@),
            goal == find_scan(d, secs, si * 16, frag_models(frags@), locs@, name@),
        decreases secs.len() - si,
    {
        let lba = sectors[si];
        proof {
            lemma_sector_unreadable(d, secs, si as int);
        }
        if !disk.read_sector(lba, &mut buf) {
            return None;
        }
        let mut off: usize = 0;
        while off < 16
            invariant
                d == disk@,
                secs == sectors@,
                si < secs.len(),
                lba == secs[si as int],
                sector_in(d, lba as int),
                buf@ == sector_of(d, lba as int),
                off <= 16,
                goal == find_scan(d, secs, 0, Seq::empty(), Seq::empty(), name@),
                goal == find_scan(d, secs, si * 16 + off, frag_models(frags@), locs@, name@),
            decreases 16 - off,
        {
            let slot = copy_bytes(buf.as_slice(), off * 32, off * 32 + 32);
            let ghost k = si * 16 + off;
            proof {
                lemma_slot_in_sector(d, secs, si as int, off as int, buf@);
                assert(k < secs.len() * 16) by (nonlinear_arith)
                    requires
                        k == si * 16 + off,
                        si < secs.len(),
                        off < 16,
                ;
                assert(k / 16 == si && k % 16 == off) by (nonlinear_arith)
                    requires
                        k == si * 16 + off,
                        off < 16,
                ;
            }
            assert(slot@ == slot_at(d, secs, k));
            assert(slot_pos(secs, k) == (lba, (off * 32) as usize));
            if slot[0] == 0x00 {
                return None;
            }
            if slot[0] == 0xE5 {
                frags = Vec::new();
                locs = Vec::new();
                assert(frag_models(frags@) =~= Seq::<(u8, bool, u8, Seq<u16>)>::empty());
            } else if slot[11] == ATTR_LFN {
                let ghost fm = frag_models(frags@);
                match slot_frag_of(slot.as_slice()) {
                    Some(f) => {
                        frags.push(f);
                        locs.push((lba, off * 32));
                        assert(frag_models(frags@) =~= fm.push(slot_frag(slot@)));
                    },
                    None => {
                        frags = Vec::new();
                        locs = Vec::new();
                        assert(frag_models(frags@) =~= Seq::<(u8, bool, u8, Seq<u16>)>::empty());
                    },
                }
            } else {
                let entry = match DirEntry::from_bytes(slot.as_slice()) {
                    Some(e) => e,
                    None => {
                        return None;
                    },
                };
                let lfn = assemble_lfn_for_entry(entry.name.as_slice(), frags.as_slice());
                let short_hit = entry.matches(name);
                let long_hit = match &lfn {
                    Some(n) => lfn_name_matches(n, name),
                    None => false,
                };
                assert((short_hit || long_hit) == entry_hit(slot@, frag_models(frags@), name@));
                if short_hit || long_hit {
                    let lfn_locations = if lfn.is_some() {
                        locs
                    } else {
                        Vec::new()
                    };
                    let l = DirEntryLocation { entry, lba, offset: off * 32, lfn_locations };
                    assert(entry_view(l.entry) =~= slot_view(slot@));
                    assert(l.lfn_locations@ =~= (if lfn_for_entry(slot@.take(11), frag_models(frags@)) is Some {
                        locs@
                    } else {
                        Seq::empty()
                    }));
                    return Some(l);
                }
                frags = Vec::new();
                locs = Vec::new();
                assert(frag_models(frags@) =~= Seq::<(u8, bool, u8, Seq<u16>)>::empty());
            }
            off = off + 1;
            assert(si * 16 + off == k + 1);
        }
        si = si + 1;
        assert(si * 16 == (si - 1) * 16 + 16);
    }
    None
}

/// Finds `name` in the directory whose chain starts at `dir_cluster`.
pub fn find_entry_location(bpb: &Bpb, disk: &Disk, dir_cluster: u32, name: &[u8]) -> (r: Option<
    DirEntryLocation,
>)
    requires
        bpb.wf(),
    ensures
        match r {
            Some(l) => find_in(disk@, *bpb, dir_cluster as int, name@) == Some(loc_view(l)),
            None => find_in(disk@, *bpb, dir_cluster as int, name@) is None,
        },
{
    let sectors = bpb.cluster_chain_sectors(disk, dir_cluster);
    scan_for_entry(disk, sectors.as_slice(), name)
}

/// Finds `name` and gives its short entry.
pub fn find_entry(bpb: &Bpb, disk: &Disk, dir_cluster: u32, name: &[u8]) -> (r: Option<DirEntry>)
    requires
        bpb.wf(),
    ensures
        match r {
            Some(e) => find_in(disk@, *bpb, dir_cluster as int, name@) matches Some(l) && l.0
                == entry_view(e),
            None => find_in(disk@, *bpb, dir_cluster as int, name@) is None,
        },
{
    match find_entry_location(bpb, disk, dir_cluster, name) {
        Some(l) => Some(l.entry),
        None => None,
    }
}

/// Finds `name` and gives its first cluster and whether it is a directory.
pub fn find_in_dir(bpb: &Bpb, disk: &Disk, dir_cluster: u32, name: &[u8]) -> (r: Option<(u32, bool)>)
    requires
        bpb.wf(),
    ensures
        match r {
            Some((c, dir)) => find_in(disk@, *bpb, dir_cluster as int, name@) matches Some(l)
                && c as int == l.0.2 && dir == ((l.0.1 & 0x10) != 0),
            None => find_in(disk@, *bpb, dir_cluster as int, name@) is None,
        },
{
    match find_entry(bpb, disk, dir_cluster, name) {
        Some(e) => Some((e.first_cluster(), e.is_dir())),
        None => None,
    }
}

} // verus!

verus! {

// ── Path resolution and reads ───────────────────────────────────────────────

impl Bpb {
    /// Runtime check of [`Bpb::wf`].
    pub fn is_wf(&self) -> (r: bool)
        ensures
            r == self.wf(),
    {
        proof {
            assert(self.num_fats as int * self.sectors_per_fat as int <= 255 * 0xFFFF_FFFF)
                by (nonlinear_arith);
            assert(self.sectors_per_fat as int * self.bytes_per_sector as int <= 0xFFFF_FFFF
                * 0xFFFF) by (nonlinear_arith);
        }
        let fat_start = self.reserved_sectors as u64;
        let data_start = fat_start + self.num_fats as u64 * self.sectors_per_fat as u64;
        let spc = self.sectors_per_cluster as u64;
        let bps = self.bytes_per_sector as u64;
        let entries = self.sectors_per_fat as u64 * bps / 4;
        proof {
            assert(entries * spc <= 0xFFFF_FFFF * 0xFFFF * 255) by (nonlinear_arith)
                requires
                    entries <= 0xFFFF_FFFF * 0xFFFF,
                    spc <= 255,
            ;
        }
        bps > 0 && bps <= 512 && bps % 4 == 0 && spc > 0 && data_start + entries * spc
            <= 0xFFFF_FFFF && self.sectors_per_fat as u64 * bps <= 0xFFFF_FFFF && data_start
            <= 0xFFFF_FFFF && entries <= 0x0FFF_FFF8
    }
}

/// The UTF-8 bytes of each path component.
pub open spec fn utf8_parts(cs: Seq<Seq<char>>) -> Seq<Seq<u8>> {
    cs.map_values(|c: Seq<char>| vstd::utf8::encode_utf8(c))
}

/// The directory reached from `cluster` through `comps`: every component
/// must name a directory.
pub open spec fn resolve_from(d: Seq<u8>, bpb: Bpb, comps: Seq<Seq<u8>>, cluster: u32) -> Result<
    u32,
    FsError,
>
    decreases comps.len(),
{
    if comps.len() == 0 {
        Ok(cluster)
    } else {
        match find_in(d, bpb, cluster as int, comps[0]) {
            None => Err(FsError::NotFound),
            Some(l) => if (l.0.1 & 0x10) == 0 {
                Err(FsError::NotDirectory)
            } else {
                resolve_from(d, bpb, comps.drop_first(), l.0.2 as u32)
            },
        }
    }
}

/// The first cluster of the directory an absolute path names.
pub open spec fn resolve_path(d: Seq<u8>, bpb: Bpb, path: Seq<char>) -> Result<u32, FsError> {
    match trim_abs(path) {
        None => Err(FsError::InvalidPath),
        Some(t) => resolve_from(d, bpb, utf8_parts(components(t)), bpb.root_cluster),
    }
}

pub fn resolve_dir_cluster(bpb: &Bpb, disk: &Disk, path: &[char]) -> (r: Result<u32, FsError>)
    requires
        bpb.wf(),
    ensures
        r == resolve_path(disk@, *bpb, path@),
{
    let t = match trim_abs_path(path) {
        Some(t) => t,
        None => {
            return Err(FsError::InvalidPath);
        },
    };
    let comps = path_components(t.as_slice());
    let ghost parts = utf8_parts(crate::text::views(comps@));
    let ghost goal = resolve_path(disk@, *bpb, path@);
    let mut cluster = bpb.root_cluster;
    let mut i: usize = 0;
    assert(parts.skip(0) =~= parts);
    while i < comps.len()
        invariant
            bpb.wf(),
            parts == utf8_parts(crate::text::views(comps@)),
            parts.len() == comps@.len(),
            i <= comps@.len(),
            goal == resolve_path(disk@, *bpb, path@),
            goal == resolve_from(disk@, *bpb, parts.skip(i as int), cluster),
        decreases comps@.len() - i,
    {
        let name = utf8_bytes(comps[i].as_slice());
        assert(name@ == parts.skip(i as int)[0]);
        assert(parts.skip(i as int).drop_first() =~= parts.skip(i + 1));
        match find_entry(bpb, disk, cluster, name.as_slice()) {
            None => {
                return Err(FsError::NotFound);
            },
            Some(e) => {
                if !e.is_dir() {
                    return Err(FsError::NotDirectory);
                }
                cluster = e.first_cluster();
            },
        }
        i = i + 1;
    }
    Ok(cluster)
}

/// The bytes of the given sectors one after another, when all are on the
/// disk.
pub open spec fn sectors_data(d: Seq<u8>, secs: Seq<u32>) -> Option<Seq<u8>>
    decreases secs.len(),
{
    if secs.len() == 0 {
        Some(Seq::empty())
    } else {
        match sectors_data(d, secs.drop_last()) {
            None => None,
            Some(p) => if sector_in(d, secs.last() as int) {
                Some(p + sector_of(d, secs.last() as int))
            } else {
                None
            },
        }
    }
}

/// The first `size` bytes stored in the chain starting at `start` (all of
/// them when the chain holds fewer).
pub open spec fn chain_data(d: Seq<u8>, bpb: Bpb, start: int, size: int) -> Option<Seq<u8>> {
    match sectors_data(d, sectors_of(bpb, chain(d, bpb, start))) {
        None => None,
        Some(all) => Some(
            if size < all.len() {
                all.take(size)
            } else {
                all
            },
        ),
    }
}

proof fn lemma_sectors_data_none(d: Seq<u8>, secs: Seq<u32>, n: int)
    requires
        0 <= n < secs.len(),
        !sector_in(d, secs[n] as int),
    ensures
        sectors_data(d, secs) is None,
    decreases secs.len(),
{
    if n < secs.len() - 1 {
        lemma_sectors_data_none(d, secs.drop_last(), n);
    }
}

proof fn lemma_sectors_data_prefix(d: Seq<u8>, secs: Seq<u32>, n: int)
    requires
        0 <= n <= secs.len(),
        sectors_data(d, secs.take(n)) is None,
    ensures
        sectors_data(d, secs) is None,
    decreases secs.len() - n,
{
    if n < secs.len() {
        assert(secs.take(n + 1).drop_last() =~= secs.take(n));
        lemma_sectors_data_prefix(d, secs, n + 1);
    } else {
        assert(secs.take(n) =~= secs);
    }
}

pub fn read_clusters(bpb: &Bpb, disk: &Disk, start: u32, size: u32) -> (r: Option<Vec<u8>>)
    requires
        bpb.wf(),
    ensures
        match r {
            Some(v) => chain_data(disk@, *bpb, start as int, size as int) == Some(v@),
            None => chain_data(disk@, *bpb, start as int, size as int) is None,
        },
{
    let sectors = bpb.cluster_chain_sectors(disk, start);
    let ghost secs = sectors@;
    let mut data: Vec<u8> = Vec::new();
    let mut buf: Vec<u8> = zeroed(512);
    let mut i: usize = 0;
    assert(secs.take(0) =~= Seq::<u32>::empty());
    while i < sectors.len()
        invariant
            secs == sectors@,
            secs == sectors_of(*bpb, chain(disk@, *bpb, start as int)),
            buf@.len() == 512,
            i <= secs.len(),
            sectors_data(disk@, secs.take(i as int)) == Some(data@),
        decreases secs.len() - i,
    {
        assert(secs.take(i + 1).drop_last() =~= secs.take(i as int));
        if !disk.read_sector(sectors[i], &mut buf) {
            proof {
                assert(secs.take(i + 1)[i as int] == secs[i as int]);
                lemma_sectors_data_none(disk@, secs.take(i + 1), i as int);
                lemma_sectors_data_prefix(disk@, secs, i + 1);
            }
            return None;
        }
        let ghost before = data@;
        let mut j: usize = 0;
        while j < 512
            invariant
                buf@.len() == 512,
                j <= 512,
                data@ == before + buf@.take(j as int),
            decreases 512 - j,
        {
            data.push(buf[j]);
            j = j + 1;
            assert(data@ =~= before + buf@.take(j as int));
        }
        assert(buf@.take(512) =~= buf@);
        i = i + 1;
    }
    assert(secs.take(secs.len() as int) =~= secs);
    let ghost all = data@;
    assert(sectors_data(disk@, secs) == Some(all));
    if (size as usize) < data.len() {
        data.truncate(size as usize);
        assert(data@ =~= all.take(size as int));
    }
    Some(data)
}

/// The file reached from `cluster` through `comps`: every component but the
/// last names a directory, the last names a file.
pub open spec fn read_from(d: Seq<u8>, bpb: Bpb, comps: Seq<Seq<u8>>, cluster: u32) -> Option<
    Seq<u8>,
>
    decreases comps.len(),
{
    if comps.len() == 0 {
        None
    } else {
        match find_in(d, bpb, cluster as int, comps[0]) {
            None => None,
            Some(l) => {
                let is_dir = (l.0.1 & 0x10) != 0;
                if comps.len() == 1 {
                    if is_dir {
                        None
                    } else {
                        chain_data(d, bpb, l.0.2, l.0.3)
                    }
                } else if is_dir {
                    read_from(d, bpb, comps.drop_first(), l.0.2 as u32)
                } else {
                    None
                }
            },
        }
    }
}

/// The contents of the file at `path`; `None` when the volume carries no
/// usable boot sector, the path is not absolute or names no file, or a
/// sector cannot be read.
pub open spec fn file_contents(d: Seq<u8>, path: Seq<char>) -> Option<Seq<u8>> {
    match bpb_of(d) {
        None => None,
        Some(b) => if !b.wf() {
            None
        } else {
            match trim_abs(path) {
                None => None,
                Some(t) => read_from(d, b, utf8_parts(components(t)), b.root_cluster),
            }
        },
    }
}

pub fn read_file(disk: &Disk, path: &str) -> (r: Option<Vec<u8>>)
    ensures
        match r {
            Some(v) => file_contents(disk@, path@) == Some(v@),
            None => file_contents(disk@, path@) is None,
        },
{
    let bpb = match Bpb::load(disk) {
        Some(b) => b,
        None => {
            return None;
        },
    };
    if !bpb.is_wf() {
        return None;
    }
    let p = crate::text::chars_of(path);
    let t = match trim_abs_path(p.as_slice()) {
        Some(t) => t,
        None => {
            return None;
        },
    };
    let comps = path_components(t.as_slice());
    let ghost parts = utf8_parts(crate::text::views(comps@));
    let ghost goal = file_contents(disk@, path@);
    if comps.len() == 0 {
        return None;
    }
    let mut cluster = bpb.root_cluster;
    let mut i: usize = 0;
    assert(parts.skip(0) =~= parts);
    while i < comps.len()
        invariant
            bpb.wf(),
            bpb_of(disk@) == Some(bpb),
            parts == utf8_parts(crate::text::views(comps@)),
            parts.len() == comps@.len(),
            i < comps@.len(),
            goal == file_contents(disk@, path@),
            goal == read_from(disk@, bpb, parts.skip(i as int), cluster),
        decreases comps@.len() - i,
    {
        let name = utf8_bytes(comps[i].as_slice());
        assert(name@ == parts.skip(i as int)[0]);
        assert(parts.skip(i as int).drop_first() =~= parts.skip(i + 1));
        let e = match find_entry(&bpb, disk, cluster, name.as_slice()) {
            Some(e) => e,
            None => {
                return None;
            },
        };
        let is_last = i + 1 == comps.len();
        if is_last {
            if e.is_dir() {
                return None;
            }
            return read_clusters(&bpb, disk, e.first_cluster(), e.file_size);
        }
        if !e.is_dir() {
            return None;
        }
        cluster = e.first_cluster();
        i = i + 1;
    }
    None
}

/// The listing of the directory at `path` (see [`list_scan`]).
pub open spec fn dir_listing(d: Seq<u8>, path: Seq<char>) -> Option<Seq<(Seq<u32>, bool, u32)>> {
    match bpb_of(d) {
        None => None,
        Some(b) => if !b.wf() {
            None
        } else {
            match resolve_path(d, b, path) {
                Err(_) => None,
                Ok(c) => list_scan(d, sectors_of(b, chain(d, b, c as int)), 0, Seq::empty(), Seq::empty()),
            }
        },
    }
}

pub fn list_dir(disk: &Disk, path: &str) -> (r: Option<Vec<DirEntryInfo>>)
    ensures
        match r {
            Some(v) => dir_listing(disk@, path@) == Some(info_models(v@)),
            None => dir_listing(disk@, path@) is None,
        },
{
    let bpb = match Bpb::load(disk) {
        Some(b) => b,
        None => {
            return None;
        },
    };
    if !bpb.is_wf() {
        return None;
    }
    let p = crate::text::chars_of(path);
    let cluster = match resolve_dir_cluster(&bpb, disk, p.as_slice()) {
        Ok(c) => c,
        Err(_) => {
            return None;
        },
    };
    let sectors = bpb.cluster_chain_sectors(disk, cluster);
    scan_directory(disk, sectors.as_slice())
}

} // verus!

verus! {

// ── Volume statistics ───────────────────────────────────────────────────────

/// Cluster counts of a volume.
#[derive(Debug, Clone, Copy)]
pub struct FsStats {
    pub total_clusters: u32,
    pub free_clusters: u32,
    pub used_clusters: u32,
    pub bytes_per_cluster: u32,
}

/// Result of a consistency check.
#[derive(Debug, Clone, Copy)]
pub struct FsCheckReport {
    pub ok: bool,
    pub root_entries: usize,
    pub stats: FsStats,
}

/// FAT entries per FAT sector.
pub open spec fn per_sector(bpb: Bpb) -> int {
    bpb.bytes_per_sector as int / 4
}

/// The masked FAT entry of cluster `c`, read from its FAT sector.
pub open spec fn fat_value(d: Seq<u8>, bpb: Bpb, c: int) -> u32 {
    (le32(sector_of(d, bpb.fat_start() + c / per_sector(bpb)), (c % per_sector(bpb)) * 4) as u32)
        & 0x0FFF_FFFF
}

/// How many of the clusters `2..n` are free.
pub open spec fn free_upto(d: Seq<u8>, bpb: Bpb, n: int) -> nat
    decreases n,
{
    if n <= 2 {
        0
    } else {
        free_upto(d, bpb, n - 1) + if fat_value(d, bpb, n - 1) == 0 {
            1nat
        } else {
            0nat
        }
    }
}

/// Sector `si` of the first FAT has a 32-bit address on the disk.
pub open spec fn fat_sector_ok(d: Seq<u8>, bpb: Bpb, si: int) -> bool {
    bpb.fat_start() + si <= u32::MAX && sector_in(d, bpb.fat_start() + si)
}

/// Every sector of the first FAT is on the disk.
pub open spec fn fat_readable(d: Seq<u8>, bpb: Bpb) -> bool {
    forall|si: int| 0 <= si < bpb.sectors_per_fat ==> #[trigger] fat_sector_ok(d, bpb, si)
}

pub open spec fn clusters_above_two(n: int) -> int {
    if n >= 2 {
        n - 2
    } else {
        0
    }
}

pub open spec fn stats_view(s: FsStats) -> (int, int, int, int) {
    (
        s.total_clusters as int,
        s.free_clusters as int,
        s.used_clusters as int,
        s.bytes_per_cluster as int,
    )
}

/// Total, free and used data clusters and the cluster size, counted over
/// the first FAT.
pub open spec fn fs_stats(d: Seq<u8>) -> Option<(int, int, int, int)> {
    match bpb_of(d) {
        None => None,
        Some(b) => if !b.wf() || !fat_readable(d, b) {
            None
        } else {
            let total = b.entry_count();
            let free = free_upto(d, b, total) as int;
            Some(
                (
                    clusters_above_two(total),
                    free,
                    clusters_above_two(total) - free,
                    b.sectors_per_cluster as int * b.bytes_per_sector as int,
                ),
            )
        },
    }
}

proof fn lemma_free_upto_bound(d: Seq<u8>, bpb: Bpb, n: int)
    ensures
        free_upto(d, bpb, n) <= clusters_above_two(n),
    decreases n,
{
    if n > 2 {
        lemma_free_upto_bound(d, bpb, n - 1);
    }
}

pub fn stats(disk: &Disk) -> (r: Option<FsStats>)
    ensures
        match r {
            Some(s) => fs_stats(disk@) == Some(stats_view(s)),
            None => fs_stats(disk@) is None,
        },
{
    let bpb = match Bpb::load(disk) {
        Some(b) => b,
        None => {
            return None;
        },
    };
    if !bpb.is_wf() {
        return None;
    }
    let ghost d = disk@;
    let total = bpb.fat_entry_count();
    let eps = (bpb.bytes_per_sector / 4) as u64;
    let spf = bpb.sectors_per_fat as u64;
    proof {
        assert(total as int == spf * eps) by (nonlinear_arith)
            requires
                total as int == bpb.sectors_per_fat as int * bpb.bytes_per_sector as int / 4,
                bpb.bytes_per_sector as int % 4 == 0,
                eps == bpb.bytes_per_sector as int / 4,
                spf == bpb.sectors_per_fat,
        ;
    }
    let mut free: u32 = 0;
    let mut used: u32 = 0;
    let mut sec: Vec<u8> = zeroed(512);
    let mut si: u64 = 0;
    while si < spf
        invariant
            d == disk@,
            bpb_of(d) == Some(bpb),
            bpb.wf(),
            total as int == bpb.entry_count(),
            total as int == spf * eps,
            eps == per_sector(bpb),
            1 <= eps <= 128,
            spf == bpb.sectors_per_fat,
            sec@.len() == 512,
            si <= spf,
            forall|k: int| 0 <= k < si ==> #[trigger] fat_sector_ok(d, bpb, k),
            free as int == free_upto(d, bpb, si * eps),
            used as int == clusters_above_two(si * eps) - free_upto(d, bpb, si * eps),
        decreases spf - si,
    {
        let lba64 = bpb.fat_start_lba() as u64 + si;
        if lba64 > 0xFFFF_FFFF {
            assert(!fat_sector_ok(d, bpb, si as int));
            return None;
        }
        let lba = lba64 as u32;
        if !disk.read_sector(lba, &mut sec) {
            assert(!fat_sector_ok(d, bpb, si as int));
            return None;
        }
        proof {
            assert(si * eps + eps <= spf * eps) by (nonlinear_arith)
                requires
                    si < spf,
            ;
        }
        let mut ei: u64 = 0;
        while ei < eps
            invariant
                d == disk@,
                bpb.wf(),
                total as int == spf * eps,
                eps == per_sector(bpb),
                1 <= eps <= 128,
                si < spf,
                si * eps + eps <= spf * eps,
                lba == bpb.fat_start() + si,
                sec@ == sector_of(d, lba as int),
                sec@.len() == 512,
                ei <= eps,
                free as int == free_upto(d, bpb, si * eps + ei),
                used as int == clusters_above_two(si * eps + ei) - free_upto(d, bpb, si * eps + ei),
            decreases eps - ei,
        {
            let c = si * eps + ei;
            proof {
                lemma_free_upto_bound(d, bpb, c as int);
                assert(c / eps == si && c % eps == ei) by (nonlinear_arith)
                    requires
                        c == si * eps + ei,
                        ei < eps,
                ;
            }
            if c >= 2 {
                let off = (ei * 4) as usize;
                let value = rd32(sec.as_slice(), off) & FAT_ENTRY_MASK;
                assert(value == fat_value(d, bpb, c as int));
                if value == FAT_FREE {
                    free = free + 1;
                } else {
                    used = used + 1;
                }
            }
            ei = ei + 1;
        }
        assert(fat_sector_ok(d, bpb, si as int));
        si = si + 1;
        assert(si * eps == (si - 1) * eps + eps) by (nonlinear_arith);
    }
    proof {
        lemma_free_upto_bound(d, bpb, total as int);
        assert(si == spf);
        assert(fat_readable(d, bpb));
        assert(free as int == free_upto(d, bpb, bpb.entry_count()));
    }
    proof {
        assert(bpb.sectors_per_cluster as int * bpb.bytes_per_sector as int <= 255 * 512)
            by (nonlinear_arith)
            requires
                bpb.bytes_per_sector <= 512,
        ;
    }
    let total_clusters = if total >= 2 {
        total - 2
    } else {
        0
    };
    Some(
        FsStats {
            total_clusters,
            free_clusters: free,
            used_clusters: used,
            bytes_per_cluster: bpb.sectors_per_cluster as u32 * bpb.bytes_per_sector as u32,
        },
    )
}

/// The consistency report: the root listing's size and the statistics, and
/// whether free and used clusters add up to the total.
pub fn check(disk: &Disk) -> (r: Option<FsCheckReport>)
    ensures
        match r {
            Some(rep) => dir_listing(disk@, "/"@) matches Some(l) && rep.root_entries == l.len()
                && fs_stats(disk@) == Some(stats_view(rep.stats)) && rep.ok == (
            rep.stats.free_clusters + rep.stats.used_clusters == rep.stats.total_clusters),
            None => dir_listing(disk@, "/"@) is None || fs_stats(disk@) is None,
        },
{
    let root = match list_dir(disk, "/") {
        Some(v) => v,
        None => {
            return None;
        },
    };
    let st = match stats(disk) {
        Some(s) => s,
        None => {
            return None;
        },
    };
    let sum = st.free_clusters as u64 + st.used_clusters as u64;
    Some(
        FsCheckReport {
            ok: sum == st.total_clusters as u64,
            root_entries: root.len(),
            stats: st,
        },
    )
}

} // verus!

verus! {

// ── Sector writes ───────────────────────────────────────────────────────────

/// `s` with the bytes from `off` on replaced by `data`.
pub open spec fn patched(s: Seq<u8>, off: int, data: Seq<u8>) -> Seq<u8> {
    s.take(off) + data + s.skip(off + data.len())
}

/// Applies the sector writes in order, stopping at the first sector that is
/// not on the disk; gives the disk and whether every write landed.
pub open spec fn write_all(d: Seq<u8>, ws: Seq<(int, Seq<u8>)>) -> (Seq<u8>, bool)
    decreases ws.len(),
{
    if ws.len() == 0 {
        (d, true)
    } else {
        let prev = write_all(d, ws.drop_last());
        if !prev.1 {
            prev
        } else if sector_in(prev.0, ws.last().0) {
            (with_sector(prev.0, ws.last().0, ws.last().1), true)
        } else {
            (prev.0, false)
        }
    }
}

proof fn lemma_write_all_fail(d: Seq<u8>, ws: Seq<(int, Seq<u8>)>, n: int)
    requires
        0 <= n <= ws.len(),
        !write_all(d, ws.take(n)).1,
    ensures
        write_all(d, ws) == write_all(d, ws.take(n)),
    decreases ws.len() - n,
{
    if n < ws.len() {
        assert(ws.take(n + 1).drop_last() =~= ws.take(n));
        lemma_write_all_fail(d, ws, n + 1);
    } else {
        assert(ws.take(n) =~= ws);
    }
}

proof fn lemma_write_all_len(d: Seq<u8>, ws: Seq<(int, Seq<u8>)>)
    requires
        forall|i: int| 0 <= i < ws.len() ==> (#[trigger] ws[i]).1.len() == 512,
    ensures
        write_all(d, ws).0.len() == d.len(),
    decreases ws.len(),
{
    if ws.len() > 0 {
        lemma_write_all_len(d, ws.drop_last());
        let prev = write_all(d, ws.drop_last());
        if prev.1 && sector_in(prev.0, ws.last().0) {
            assert(ws[ws.len() - 1].1.len() == 512);
            lemma_with_sector_len(prev.0, ws.last().0, ws.last().1);
        }
    }
}

fn read_sector_exact(disk: &Disk, lba: u32, buf: &mut Vec<u8>) -> (r: Result<(), FsError>)
    requires
        old(buf)@.len() == 512,
    ensures
        r is Ok == sector_in(disk@, lba as int),
        r is Ok ==> final(buf)@ == sector_of(disk@, lba as int),
        r matches Err(e) ==> e == FsError::Io && final(buf)@ == old(buf)@,
{
    if disk.read_sector(lba, buf) {
        Ok(())
    } else {
        Err(FsError::Io)
    }
}

fn write_sector_exact(disk: &mut Disk, lba: u32, data: &[u8]) -> (r: Result<(), FsError>)
    requires
        data@.len() == 512,
    ensures
        r is Ok == sector_in(old(disk)@, lba as int),
        r is Ok ==> final(disk)@ == with_sector(old(disk)@, lba as int, data@),
        r matches Err(e) ==> e == FsError::Io && final(disk)@ == old(disk)@,
        final(disk)@.len() == old(disk)@.len(),
{
    proof {
        if sector_in(disk@, lba as int) {
            lemma_with_sector_len(disk@, lba as int, data@);
        }
    }
    if disk.write_sector(lba, data) {
        Ok(())
    } else {
        Err(FsError::Io)
    }
}

/// The 32-byte directory slot at `offset` in sector `lba`.
pub fn read_dir_slot(disk: &Disk, lba: u32, offset: usize) -> (r: Result<Vec<u8>, FsError>)
    requires
        offset + 32 <= 512,
    ensures
        match r {
            Ok(v) => sector_in(disk@, lba as int) && v@ == sector_of(disk@, lba as int).subrange(
                offset as int,
                offset + 32,
            ),
            Err(e) => e == FsError::Io && !sector_in(disk@, lba as int),
        },
{
    let mut sec: Vec<u8> = zeroed(512);
    read_sector_exact(disk, lba, &mut sec)?;
    Ok(copy_bytes(sec.as_slice(), offset, offset + 32))
}

/// Overwrites the 32-byte directory slot at `offset` in sector `lba`.
pub fn write_dir_slot(disk: &mut Disk, lba: u32, offset: usize, entry: &[u8]) -> (r: Result<
    (),
    FsError,
>)
    requires
        offset + 32 <= 512,
        entry@.len() == 32,
    ensures
        r is Ok == sector_in(old(disk)@, lba as int),
        r is Ok ==> final(disk)@ == with_sector(
            old(disk)@,
            lba as int,
            patched(sector_of(old(disk)@, lba as int), offset as int, entry@),
        ),
        r matches Err(e) ==> e == FsError::Io && final(disk)@ == old(disk)@,
        final(disk)@.len() == old(disk)@.len(),
{
    let mut sec: Vec<u8> = zeroed(512);
    read_sector_exact(disk, lba, &mut sec)?;
    let ghost s0 = sec@;
    let mut i: usize = 0;
    while i < 32
        invariant
            offset + 32 <= 512,
            entry@.len() == 32,
            sec@.len() == 512,
            i <= 32,
            forall|k: int|
                0 <= k < 512 ==> #[trigger] sec@[k] == if offset <= k < offset + i {
                    entry@[k - offset]
                } else {
                    s0[k]
                },
        decreases 32 - i,
    {
        sec.set(offset + i, entry[i]);
        i = i + 1;
    }
    assert(sec@ =~= patched(s0, offset as int, entry@));
    write_sector_exact(disk, lba, sec.as_slice())
}

/// Sets the first byte of a directory slot to `byte`.
fn set_slot_byte(disk: &mut Disk, lba: u32, offset: usize, byte: u8) -> (r: Result<(), FsError>)
    requires
        offset < 512,
    ensures
        r is Ok == sector_in(old(disk)@, lba as int),
        r is Ok ==> final(disk)@ == with_sector(
            old(disk)@,
            lba as int,
            sector_of(old(disk)@, lba as int).update(offset as int, byte),
        ),
        r matches Err(e) ==> e == FsError::Io && final(disk)@ == old(disk)@,
        final(disk)@.len() == old(disk)@.len(),
{
    let mut sec: Vec<u8> = zeroed(512);
    read_sector_exact(disk, lba, &mut sec)?;
    sec.set(offset, byte);
    write_sector_exact(disk, lba, sec.as_slice())
}

/// Marks the directory slot at `offset` in sector `lba` as deleted.
pub fn mark_dir_slot_deleted(disk: &mut Disk, lba: u32, offset: usize) -> (r: Result<(), FsError>)
    requires
        offset < 512,
    ensures
        r is Ok == sector_in(old(disk)@, lba as int),
        r is Ok ==> final(disk)@ == with_sector(
            old(disk)@,
            lba as int,
            sector_of(old(disk)@, lba as int).update(offset as int, 0xE5),
        ),
        r matches Err(e) ==> e == FsError::Io && final(disk)@ == old(disk)@,
        final(disk)@.len() == old(disk)@.len(),
{
    set_slot_byte(disk, lba, offset, 0xE5)
}

/// Marks the slots `locs[..n]` deleted one by one, stopping at the first
/// sector that is not on the disk; gives the disk and whether every mark
/// landed.
pub open spec fn slots_deleted(d: Seq<u8>, locs: Seq<(u32, usize)>, n: int) -> (Seq<u8>, bool)
    decreases n,
{
    if n <= 0 {
        (d, true)
    } else {
        let p = slots_deleted(d, locs, n - 1);
        let (lba, offset) = locs[n - 1];
        if !p.1 {
            p
        } else if sector_in(p.0, lba as int) {
            (with_sector(p.0, lba as int, sector_of(p.0, lba as int).update(offset as int, 0xE5)), true)
        } else {
            (p.0, false)
        }
    }
}

proof fn lemma_slots_deleted_ok(d: Seq<u8>, locs: Seq<(u32, usize)>, n: int)
    requires
        0 <= n <= locs.len(),
        forall|i: int| 0 <= i < locs.len() ==> sector_in(d, (#[trigger] locs[i]).0 as int),
        forall|i: int| 0 <= i < locs.len() ==> (#[trigger] locs[i]).1 < 512,
    ensures
        slots_deleted(d, locs, n).1,
        slots_deleted(d, locs, n).0.len() == d.len(),
    decreases n,
{
    if n > 0 {
        lemma_slots_deleted_ok(d, locs, n - 1);
        let p = slots_deleted(d, locs, n - 1);
        let (lba, offset) = locs[n - 1];
        assert(sector_in(d, lba as int));
        assert(sector_in(p.0, lba as int));
        lemma_with_sector_len(p.0, lba as int, sector_of(p.0, lba as int).update(offset as int, 0xE5));
    }
}

proof fn lemma_slots_deleted_stuck(d: Seq<u8>, locs: Seq<(u32, usize)>, i: int, n: int)
    requires
        0 <= i <= n,
        !slots_deleted(d, locs, i).1,
    ensures
        slots_deleted(d, locs, n) == slots_deleted(d, locs, i),
    decreases n - i,
{
    if n > i {
        lemma_slots_deleted_stuck(d, locs, i, n - 1);
    }
}

proof fn lemma_slots_deleted_prefix(d: Seq<u8>, locs: Seq<(u32, usize)>, more: Seq<(u32, usize)>, n: int)
    requires
        n <= locs.len(),
        locs.len() <= more.len(),
        forall|k: int| 0 <= k < locs.len() ==> more[k] == locs[k],
    ensures
        slots_deleted(d, more, n) == slots_deleted(d, locs, n),
    decreases n,
{
    if n > 0 {
        lemma_slots_deleted_prefix(d, locs, more, n - 1);
    }
}

// ── FAT writes ──────────────────────────────────────────────────────────────

/// A FAT entry's reserved top bits kept, its 28-bit value replaced.
pub open spec fn fat_patch(cur: u32, value: u32) -> u32 {
    (cur & 0xF000_0000u32) | (value & 0x0FFF_FFFFu32)
}

/// Writes `value` into the entry of `cluster` in every FAT copy from `copy`
/// on, stopping at a sector that is not on the disk.
pub open spec fn fat_write_from(d: Seq<u8>, bpb: Bpb, cluster: int, value: u32, copy: int) -> (
    Seq<u8>,
    bool,
)
    decreases bpb.num_fats - copy,
{
    if copy >= bpb.num_fats {
        (d, true)
    } else {
        let lba = bpb.fat_start() + copy * bpb.sectors_per_fat as int + (cluster * 4)
            / bpb.bytes_per_sector as int;
        let off = (cluster * 4) % bpb.bytes_per_sector as int;
        if lba > u32::MAX || !sector_in(d, lba) {
            (d, false)
        } else {
            let sec = sector_of(d, lba);
            let next = fat_patch(le32(sec, off) as u32, value);
            fat_write_from(
                with_sector(d, lba, put32(sec, off, next as int)),
                bpb,
                cluster,
                value,
                copy + 1,
            )
        }
    }
}

pub open spec fn fat_write(d: Seq<u8>, bpb: Bpb, cluster: int, value: u32) -> (Seq<u8>, bool) {
    fat_write_from(d, bpb, cluster, value, 0)
}

proof fn lemma_fat_write_len(d: Seq<u8>, bpb: Bpb, cluster: int, value: u32, copy: int)
    requires
        bpb.wf(),
        0 <= cluster < 0x4000_0000,
    ensures
        fat_write_from(d, bpb, cluster, value, copy).0.len() == d.len(),
    decreases bpb.num_fats - copy,
{
    if copy < bpb.num_fats {
        let lba = bpb.fat_start() + copy * bpb.sectors_per_fat as int + (cluster * 4)
            / bpb.bytes_per_sector as int;
        let off = (cluster * 4) % bpb.bytes_per_sector as int;
        if lba <= u32::MAX && sector_in(d, lba) {
            let sec = sector_of(d, lba);
            assert(0 <= off && off + 4 <= 512) by (nonlinear_arith)
                requires
                    off == (cluster * 4) % (bpb.bytes_per_sector as int),
                    bpb.bytes_per_sector as int % 4 == 0,
                    0 < bpb.bytes_per_sector <= 512,
                    cluster >= 0,
            {
                assert((cluster * 4) % (bpb.bytes_per_sector as int) % 4 == 0) by {
                    vstd::arithmetic::div_mod::lemma_mod_mod(
                        cluster * 4,
                        4,
                        bpb.bytes_per_sector as int / 4,
                    );
                }
            }
            let next = fat_patch(le32(sec, off) as u32, value);
            lemma_le32_put32(sec, off, next as int);
            lemma_with_sector_len(d, lba, put32(sec, off, next as int));
            lemma_fat_write_len(
                with_sector(d, lba, put32(sec, off, next as int)),
                bpb,
                cluster,
                value,
                copy + 1,
            );
        }
    }
}

/// Writes `value` into the entry of `cluster` in every FAT copy.
pub fn fat_write_entry(bpb: &Bpb, disk: &mut Disk, cluster: u32, value: u32) -> (r: Result<
    (),
    FsError,
>)
    requires
        bpb.wf(),
        cluster < 0x4000_0000,
    ensures
        r is Ok == fat_write(old(disk)@, *bpb, cluster as int, value).1,
        final(disk)@ == fat_write(old(disk)@, *bpb, cluster as int, value).0,
        r matches Err(e) ==> e == FsError::Io,
        final(disk)@.len() == old(disk)@.len(),
{
    let ghost d0 = disk@;
    let ghost goal = fat_write(d0, *bpb, cluster as int, value);
    proof {
        lemma_fat_write_len(d0, *bpb, cluster as int, value, 0);
    }
    let byte_offset = cluster * 4;
    let sector_index = byte_offset / bpb.bytes_per_sector as u32;
    let byte_in_sec = (byte_offset % bpb.bytes_per_sector as u32) as usize;
    proof {
        assert(byte_in_sec + 4 <= 512) by (nonlinear_arith)
            requires
                byte_in_sec == (cluster * 4) % (bpb.bytes_per_sector as int),
                bpb.bytes_per_sector as int % 4 == 0,
                0 < bpb.bytes_per_sector <= 512,
        {
            assert((cluster * 4) % (bpb.bytes_per_sector as int) % 4 == 0) by {
                vstd::arithmetic::div_mod::lemma_mod_mod(
                    cluster * 4,
                    4,
                    bpb.bytes_per_sector as int / 4,
                );
            }
        }
    }
    let mut sec: Vec<u8> = zeroed(512);
    let mut copy: u32 = 0;
    let mut res: Result<(), FsError> = Ok(());
    while copy < bpb.num_fats as u32
        invariant_except_break
            goal == fat_write_from(disk@, *bpb, cluster as int, value, copy as int),
            res is Ok,
        invariant
            bpb.wf(),
            cluster < 0x4000_0000,
            sector_index as int == (cluster * 4) / bpb.bytes_per_sector as int,
            byte_in_sec as int == (cluster * 4) % bpb.bytes_per_sector as int,
            byte_in_sec + 4 <= 512,
            sec@.len() == 512,
            copy <= bpb.num_fats,
            goal == fat_write(d0, *bpb, cluster as int, value),
            goal.0.len() == d0.len(),
            disk@.len() == d0.len(),
        ensures
            res is Ok ==> goal == fat_write_from(disk@, *bpb, cluster as int, value, copy as int)
                && copy >= bpb.num_fats,
            res is Err ==> res == Err::<(), FsError>(FsError::Io) && goal == (disk@, false),
        decreases bpb.num_fats - copy,
    {
        let ghost dc = disk@;
        proof {
            assert(copy as int * bpb.sectors_per_fat as int <= 255 * 0xFFFF_FFFF) by (nonlinear_arith)
                requires
                    copy <= 255,
            ;
        }
        let lba64 = bpb.fat_start_lba() as u64 + copy as u64 * bpb.sectors_per_fat as u64
            + sector_index as u64;
        if lba64 > 0xFFFF_FFFF {
            assert(fat_write_from(dc, *bpb, cluster as int, value, copy as int) == (dc, false));
            res = Err(FsError::Io);
            break;
        }
        let lba = lba64 as u32;
        if read_sector_exact(disk, lba, &mut sec).is_err() {
            assert(fat_write_from(dc, *bpb, cluster as int, value, copy as int) == (dc, false));
            res = Err(FsError::Io);
            break;
        }
        let current = rd32(sec.as_slice(), byte_in_sec);
        let next = (current & 0xF000_0000) | (value & FAT_ENTRY_MASK);
        assert(next == fat_patch(le32(sector_of(dc, lba as int), byte_in_sec as int) as u32, value));
        wr32(&mut sec, byte_in_sec, next);
        proof {
            lemma_le32_put32(sector_of(dc, lba as int), byte_in_sec as int, next as int);
        }
        let ghost sec_new = sec@;
        let w = write_sector_exact(disk, lba, sec.as_slice());
        assert(w is Ok);
        assert(fat_write_from(dc, *bpb, cluster as int, value, copy as int) == fat_write_from(
            with_sector(dc, lba as int, sec_new),
            *bpb,
            cluster as int,
            value,
            copy + 1,
        ));
        copy = copy + 1;
    }
    res
}

} // verus!

verus! {

// ── Runs of sector writes ───────────────────────────────────────────────────

pub open spec fn pairs(lbas: Seq<u32>, blocks: Seq<Seq<u8>>) -> Seq<(int, Seq<u8>)> {
    Seq::new(lbas.len(), |i: int| (lbas[i] as int, blocks[i]))
}

/// Writes `blocks[i]` to sector `lbas[i]`, in order, stopping at the first
/// failure.
pub fn write_sectors(disk: &mut Disk, lbas: &[u32], blocks: &[Vec<u8>]) -> (r: Result<(), FsError>)
    requires
        lbas@.len() == blocks@.len(),
        forall|i: int| 0 <= i < blocks@.len() ==> (#[trigger] blocks@[i])@.len() == 512,
    ensures
        final(disk)@ == write_all(old(disk)@, pairs(lbas@, views_u8(blocks@))).0,
        r is Ok == write_all(old(disk)@, pairs(lbas@, views_u8(blocks@))).1,
        r matches Err(e) ==> e == FsError::Io,
        final(disk)@.len() == old(disk)@.len(),
{
    let ghost d0 = disk@;
    let ghost ws = pairs(lbas@, views_u8(blocks@));
    proof {
        assert forall|i: int| 0 <= i < ws.len() implies (#[trigger] ws[i]).1.len() == 512 by {
            assert(blocks@[i]@.len() == 512);
        }
        lemma_write_all_len(d0, ws);
    }
    let mut i: usize = 0;
    let mut res: Result<(), FsError> = Ok(());
    assert(ws.take(0) =~= Seq::<(int, Seq<u8>)>::empty());
    assert(ws.take(ws.len() as int) =~= ws);
    assert(write_all(d0, ws.take(0)) == (d0, true));
    while i < lbas.len()
        invariant_except_break
            write_all(d0, ws.take(i as int)) == (disk@, true),
            res is Ok,
        invariant
            ws == pairs(lbas@, views_u8(blocks@)),
            ws.take(lbas@.len() as int) == ws,
            lbas@.len() == blocks@.len(),
            forall|k: int| 0 <= k < blocks@.len() ==> (#[trigger] blocks@[k])@.len() == 512,
            i <= lbas@.len(),
            disk@.len() == d0.len(),
        ensures
            res is Ok ==> write_all(d0, ws) == (disk@, true),
            res is Err ==> res == Err::<(), FsError>(FsError::Io) && write_all(d0, ws) == (
                disk@,
                false,
            ),
        decreases lbas@.len() - i,
    {
        let ghost dc = disk@;
        assert(ws.take(i + 1).drop_last() =~= ws.take(i as int));
        assert(blocks@[i as int]@.len() == 512);
        assert(ws.take(i + 1).last() == ws[i as int]);
        assert(ws[i as int] == (lbas@[i as int] as int, blocks@[i as int]@));
        let w = write_sector_exact(disk, lbas[i], blocks[i].as_slice());
        if w.is_err() {
            proof {
                lemma_write_all_fail(d0, ws, i + 1);
            }
            res = Err(FsError::Io);
            break;
        }
        i = i + 1;
    }
    res
}

pub open spec fn zero_block() -> Seq<u8> {
    Seq::new(512, |j: int| 0u8)
}

/// The writes that clear every sector of `cluster`.
pub open spec fn zero_writes(bpb: Bpb, cluster: int) -> Seq<(int, Seq<u8>)> {
    Seq::new(bpb.sectors_per_cluster as nat, |i: int| (bpb.lba_of(cluster) + i, zero_block()))
}

proof fn lemma_cluster_lbas(bpb: Bpb, cluster: int)
    requires
        bpb.wf(),
        valid_cluster(bpb, cluster),
    ensures
        bpb.lba_of(cluster) >= 0,
        bpb.lba_of(cluster) + bpb.sectors_per_cluster <= u32::MAX,
{
    assert((cluster - 2) * bpb.sectors_per_cluster as int + bpb.sectors_per_cluster <= bpb.entry_count()
        * bpb.sectors_per_cluster as int) by (nonlinear_arith)
        requires
            2 <= cluster < bpb.entry_count(),
    ;
    assert((cluster - 2) * bpb.sectors_per_cluster as int >= 0) by (nonlinear_arith)
        requires
            2 <= cluster,
    ;
}

/// The sectors of `cluster`, in order.
fn cluster_sector_lbas(bpb: &Bpb, cluster: u32) -> (r: Vec<u32>)
    requires
        bpb.wf(),
        valid_cluster(*bpb, cluster as int),
    ensures
        r@.len() == bpb.sectors_per_cluster,
        forall|i: int| 0 <= i < r@.len() ==> r@[i] as int == bpb.lba_of(cluster as int) + i,
{
    proof {
        lemma_cluster_lbas(*bpb, cluster as int);
    }
    let lba = bpb.cluster_lba(cluster);
    let mut out: Vec<u32> = Vec::new();
    let mut i: u32 = 0;
    while i < bpb.sectors_per_cluster as u32
        invariant
            bpb.wf(),
            lba == bpb.lba_of(cluster as int),
            lba + bpb.sectors_per_cluster <= u32::MAX,
            i <= bpb.sectors_per_cluster,
            out@.len() == i,
            forall|k: int| 0 <= k < i ==> out@[k] as int == lba + k,
        decreases bpb.sectors_per_cluster - i,
    {
        out.push(lba + i);
        i = i + 1;
    }
    out
}

/// Clears every sector of `cluster`.
pub fn zero_cluster(bpb: &Bpb, disk: &mut Disk, cluster: u32) -> (r: Result<(), FsError>)
    requires
        bpb.wf(),
        valid_cluster(*bpb, cluster as int),
    ensures
        final(disk)@ == write_all(old(disk)@, zero_writes(*bpb, cluster as int)).0,
        r is Ok == write_all(old(disk)@, zero_writes(*bpb, cluster as int)).1,
        r matches Err(e) ==> e == FsError::Io,
        final(disk)@.len() == old(disk)@.len(),
{
    let lbas = cluster_sector_lbas(bpb, cluster);
    let mut blocks: Vec<Vec<u8>> = Vec::new();
    let mut i: usize = 0;
    while i < lbas.len()
        invariant
            i <= lbas@.len(),
            blocks@.len() == i,
            forall|k: int| 0 <= k < i ==> (#[trigger] blocks@[k])@ == zero_block(),
        decreases lbas@.len() - i,
    {
        let z = zeroed(512);
        assert(z@ =~= zero_block());
        blocks.push(z);
        i = i + 1;
    }
    assert(pairs(lbas@, views_u8(blocks@)) =~= zero_writes(*bpb, cluster as int));
    write_sectors(disk, lbas.as_slice(), blocks.as_slice())
}

/// Sector `n` of `data`, zero-padded past its end.
pub open spec fn data_block(data: Seq<u8>, n: int) -> Seq<u8> {
    Seq::new(512, |j: int| if n * 512 + j < data.len() { data[n * 512 + j] } else { 0u8 })
}

/// The writes that store `data` across the clusters of `chain`, sector by
/// sector, zero-padding the last one.
pub open spec fn data_writes(bpb: Bpb, chain: Seq<u32>, data: Seq<u8>) -> Seq<(int, Seq<u8>)> {
    let spc = bpb.sectors_per_cluster as int;
    Seq::new(
        (chain.len() * spc) as nat,
        |n: int| (bpb.lba_of(chain[n / spc] as int) + n % spc, data_block(data, n)),
    )
}

fn make_data_block(data: &[u8], n: usize) -> (r: Vec<u8>)
    requires
        n * 512 + 512 <= usize::MAX,
    ensures
        r@ == data_block(data@, n as int),
{
    let start = n * 512;
    let mut out: Vec<u8> = Vec::new();
    let mut j: usize = 0;
    while j < 512
        invariant
            start == n * 512,
            start + 512 <= usize::MAX,
            j <= 512,
            out@ == data_block(data@, n as int).take(j as int),
        decreases 512 - j,
    {
        let b = if start + j < data.len() {
            data[start + j]
        } else {
            0u8
        };
        out.push(b);
        j = j + 1;
        assert(out@ =~= data_block(data@, n as int).take(j as int));
    }
    assert(out@ =~= data_block(data@, n as int));
    out
}

/// Stores `data` across the clusters of `chain`.
pub fn write_data_to_clusters(bpb: &Bpb, disk: &mut Disk, chain: &[u32], data: &[u8]) -> (r: Result<
    (),
    FsError,
>)
    requires
        bpb.wf(),
        forall|i: int| 0 <= i < chain@.len() ==> valid_cluster(*bpb, #[trigger] chain@[i] as int),
        chain@.len() * bpb.sectors_per_cluster * 512 + 512 <= usize::MAX,
    ensures
        final(disk)@ == write_all(old(disk)@, data_writes(*bpb, chain@, data@)).0,
        r is Ok == write_all(old(disk)@, data_writes(*bpb, chain@, data@)).1,
        r matches Err(e) ==> e == FsError::Io,
        final(disk)@.len() == old(disk)@.len(),
{
    let spc = bpb.sectors_per_cluster as usize;
    let mut lbas: Vec<u32> = Vec::new();
    let mut blocks: Vec<Vec<u8>> = Vec::new();
    let ghost ws = data_writes(*bpb, chain@, data@);
    let mut ci: usize = 0;
    while ci < chain.len()
        invariant
            bpb.wf(),
            spc == bpb.sectors_per_cluster,
            forall|i: int| 0 <= i < chain@.len() ==> valid_cluster(*bpb, #[trigger] chain@[i] as int),
            chain@.len() * spc * 512 + 512 <= usize::MAX,
            ws == data_writes(*bpb, chain@, data@),
            ci <= chain@.len(),
            lbas@.len() == ci * spc,
            blocks@.len() == ci * spc,
            forall|n: int|
                0 <= n < ci * spc ==> (lbas@[n] as int, (#[trigger] blocks@[n])@) == ws[n],
        decreases chain@.len() - ci,
    {
        let cs = cluster_sector_lbas(bpb, chain[ci]);
        proof {
            assert(ci * spc + spc <= chain@.len() * spc) by (nonlinear_arith)
                requires
                    ci < chain@.len(),
            ;
            assert(chain@.len() * spc * 512 == (chain@.len() * spc) * 512) by (nonlinear_arith);
        }
        let mut si: usize = 0;
        while si < spc
            invariant
                bpb.wf(),
                spc == bpb.sectors_per_cluster,
                ci < chain@.len(),
                ci * spc + spc <= chain@.len() * spc,
                chain@.len() * spc * 512 + 512 <= usize::MAX,
                (chain@.len() * spc) * 512 + 512 <= usize::MAX,
                cs@.len() == spc,
                forall|i: int| 0 <= i < cs@.len() ==> cs@[i] as int == bpb.lba_of(chain@[ci as int] as int) + i,
                ws == data_writes(*bpb, chain@, data@),
                si <= spc,
                lbas@.len() == ci * spc + si,
                blocks@.len() == ci * spc + si,
                forall|n: int|
                    0 <= n < ci * spc + si ==> (lbas@[n] as int, (#[trigger] blocks@[n])@) == ws[n],
            decreases spc - si,
        {
            let n = ci * spc + si;
            proof {
                assert(n * 512 + 512 <= (chain@.len() * spc) * 512 + 512) by (nonlinear_arith)
                    requires
                        n < chain@.len() * spc,
                ;
                assert((n as int) / (spc as int) == ci as int && (n as int) % (spc as int) == si as int) by (nonlinear_arith)
                    requires
                        n == ci * spc + si,
                        si < spc,
                ;
            }
            lbas.push(cs[si]);
            blocks.push(make_data_block(data, n));
            si = si + 1;
        }
        ci = ci + 1;
        assert(ci * spc == (ci - 1) * spc + spc) by (nonlinear_arith);
    }
    proof {
        assert(ws.len() == chain@.len() * spc);
        assert forall|n: int| 0 <= n < blocks@.len() implies (#[trigger] blocks@[n])@.len()
            == 512 by {
            assert((lbas@[n] as int, blocks@[n]@) == ws[n]);
        }
        assert(pairs(lbas@, views_u8(blocks@)) =~= ws) by {
            assert forall|n: int| 0 <= n < ws.len() implies #[trigger] pairs(
                lbas@,
                views_u8(blocks@),
            )[n] == ws[n] by {
                assert((lbas@[n] as int, blocks@[n]@) == ws[n]);
            }
        }
    }
    write_sectors(disk, lbas.as_slice(), blocks.as_slice())
}

} // verus!

verus! {

// ── Cluster allocation ──────────────────────────────────────────────────────

/// Applies the FAT entry writes in order, stopping at the first failure.
pub open spec fn fat_writes(d: Seq<u8>, bpb: Bpb, ws: Seq<(int, u32)>) -> (Seq<u8>, bool)
    decreases ws.len(),
{
    if ws.len() == 0 {
        (d, true)
    } else {
        let prev = fat_writes(d, bpb, ws.drop_last());
        if !prev.1 {
            prev
        } else {
            fat_write(prev.0, bpb, ws.last().0, ws.last().1)
        }
    }
}

proof fn lemma_fat_writes_fail(d: Seq<u8>, bpb: Bpb, ws: Seq<(int, u32)>, n: int)
    requires
        0 <= n <= ws.len(),
        !fat_writes(d, bpb, ws.take(n)).1,
    ensures
        fat_writes(d, bpb, ws) == fat_writes(d, bpb, ws.take(n)),
    decreases ws.len() - n,
{
    if n < ws.len() {
        assert(ws.take(n + 1).drop_last() =~= ws.take(n));
        lemma_fat_writes_fail(d, bpb, ws, n + 1);
    } else {
        assert(ws.take(n) =~= ws);
    }
}

/// The writes that mark each cluster of `cs` free.
pub open spec fn free_writes(cs: Seq<u32>) -> Seq<(int, u32)> {
    cs.map_values(|c: u32| (c as int, 0u32))
}

/// The whole volume the boot sector describes lies on the disk: every FAT
/// sector, and the sectors of every cluster the FAT can describe.
pub open spec fn volume_on_disk(d: Seq<u8>, bpb: Bpb) -> bool {
    (bpb.data_start() + bpb.entry_count() * bpb.sectors_per_cluster as int) * 512 <= d.len()
}

proof fn lemma_fat_lba_in(bpb: Bpb, c: int, copy: int)
    requires
        bpb.wf(),
        0 <= c < bpb.entry_count(),
        0 <= copy < bpb.num_fats,
    ensures
        0 <= bpb.fat_start() + copy * bpb.sectors_per_fat as int + (c * 4) / (bpb.bytes_per_sector as int),
        bpb.fat_start() + copy * bpb.sectors_per_fat as int + (c * 4) / (bpb.bytes_per_sector as int)
            < bpb.data_start(),
{
    let bps = bpb.bytes_per_sector as int;
    let spf = bpb.sectors_per_fat as int;
    let q = (c * 4) / bps;
    vstd::arithmetic::div_mod::lemma_fundamental_div_mod(spf * bps, 4);
    vstd::arithmetic::div_mod::lemma_fundamental_div_mod(c * 4, bps);
    vstd::arithmetic::div_mod::lemma_mod_pos_bound(c * 4, bps);
    vstd::arithmetic::div_mod::lemma_mod_pos_bound(spf * bps, 4);
    assert(c * 4 < spf * bps) by (nonlinear_arith)
        requires
            c < (spf * bps) / 4,
            spf * bps == 4 * ((spf * bps) / 4) + (spf * bps) % 4,
            0 <= (spf * bps) % 4,
    ;
    assert(q < spf) by (nonlinear_arith)
        requires
            c * 4 == bps * q + (c * 4) % bps,
            0 <= (c * 4) % bps,
            c * 4 < spf * bps,
            bps > 0,
    ;
    assert(q >= 0) by (nonlinear_arith)
        requires
            c >= 0,
            bps > 0,
            q == (c * 4) / bps,
    ;
    assert(copy * spf + q < bpb.num_fats as int * spf) by (nonlinear_arith)
        requires
            0 <= copy < bpb.num_fats,
            0 <= q < spf,
    ;
    assert(copy * spf >= 0) by (nonlinear_arith)
        requires
            copy >= 0,
            spf >= 0,
    ;
}

proof fn lemma_data_end(bpb: Bpb)
    requires
        bpb.wf(),
    ensures
        bpb.data_start() <= bpb.data_start() + bpb.entry_count() * bpb.sectors_per_cluster as int,
{
    assert(bpb.entry_count() * bpb.sectors_per_cluster as int >= 0) by (nonlinear_arith)
        requires
            bpb.entry_count() >= 0,
    ;
}

/// On a volume that lies on the disk, writing a FAT entry of a cluster the
/// FAT describes reaches every copy.
proof fn lemma_fat_write_ok(d: Seq<u8>, bpb: Bpb, c: int, value: u32, copy: int)
    requires
        bpb.wf(),
        volume_on_disk(d, bpb),
        0 <= c < bpb.entry_count(),
        0 <= copy,
    ensures
        fat_write_from(d, bpb, c, value, copy).1,
    decreases bpb.num_fats - copy,
{
    if copy < bpb.num_fats {
        lemma_fat_lba_in(bpb, c, copy);
        lemma_data_end(bpb);
        let lba = bpb.fat_start() + copy * bpb.sectors_per_fat as int + (c * 4) / (bpb.bytes_per_sector as int);
        assert(sector_in(d, lba));
        let sec = sector_of(d, lba);
        let off = (c * 4) % (bpb.bytes_per_sector as int);
        let next = fat_patch(le32(sec, off) as u32, value);
        vstd::arithmetic::div_mod::lemma_mod_pos_bound(c * 4, bpb.bytes_per_sector as int);
        assert(off + 4 <= 512) by (nonlinear_arith)
            requires
                off == (c * 4) % (bpb.bytes_per_sector as int),
                bpb.bytes_per_sector as int % 4 == 0,
                0 < bpb.bytes_per_sector <= 512,
                0 <= off < bpb.bytes_per_sector,
        {
            vstd::arithmetic::div_mod::lemma_mod_mod(c * 4, 4, bpb.bytes_per_sector as int / 4);
        }
        lemma_le32_put32(sec, off, next as int);
        lemma_with_sector_len(d, lba, put32(sec, off, next as int));
        lemma_fat_write_ok(with_sector(d, lba, put32(sec, off, next as int)), bpb, c, value, copy + 1);
    }
}

/// On a volume that lies on the disk, FAT writes to clusters the FAT
/// describes all land.
proof fn lemma_fat_writes_ok(d: Seq<u8>, bpb: Bpb, ws: Seq<(int, u32)>)
    requires
        bpb.wf(),
        volume_on_disk(d, bpb),
        forall|i: int| 0 <= i < ws.len() ==> 0 <= (#[trigger] ws[i]).0 < bpb.entry_count(),
    ensures
        fat_writes(d, bpb, ws).1,
        fat_writes(d, bpb, ws).0.len() == d.len(),
    decreases ws.len(),
{
    if ws.len() > 0 {
        let w = ws.drop_last();
        assert forall|i: int| 0 <= i < w.len() implies 0 <= (#[trigger] w[i]).0 < bpb.entry_count() by {
            assert(w[i] == ws[i]);
        }
        lemma_fat_writes_ok(d, bpb, w);
        let prev = fat_writes(d, bpb, w);
        assert(0 <= ws[ws.len() - 1].0 < bpb.entry_count());
        lemma_fat_write_ok(prev.0, bpb, ws.last().0, ws.last().1, 0);
        lemma_fat_write_len(prev.0, bpb, ws.last().0, ws.last().1, 0);
    }
}

/// Sector writes that all name sectors on the disk all land.
proof fn lemma_write_all_ok(d: Seq<u8>, ws: Seq<(int, Seq<u8>)>)
    requires
        forall|i: int| 0 <= i < ws.len() ==> (#[trigger] ws[i]).1.len() == 512,
        forall|i: int| 0 <= i < ws.len() ==> sector_in(d, (#[trigger] ws[i]).0),
    ensures
        write_all(d, ws).1,
    decreases ws.len(),
{
    if ws.len() > 0 {
        let w = ws.drop_last();
        assert forall|i: int| 0 <= i < w.len() implies (#[trigger] w[i]).1.len() == 512 && sector_in(d, w[i].0) by {
            assert(w[i] == ws[i]);
        }
        lemma_write_all_ok(d, w);
        lemma_write_all_len(d, w);
        assert(sector_in(d, ws[ws.len() - 1].0));
    }
}

/// The sectors of a cluster the FAT describes lie on a volume that is on
/// the disk.
proof fn lemma_cluster_sector_in(d: Seq<u8>, bpb: Bpb, c: int, i: int)
    requires
        bpb.wf(),
        volume_on_disk(d, bpb),
        2 <= c < bpb.entry_count(),
        0 <= i < bpb.sectors_per_cluster,
    ensures
        sector_in(d, bpb.lba_of(c) + i),
{
    let spc = bpb.sectors_per_cluster as int;
    assert((c - 2) * spc + i + 1 <= bpb.entry_count() * spc) by (nonlinear_arith)
        requires
            2 <= c < bpb.entry_count(),
            0 <= i < spc,
    ;
    assert((c - 2) * spc >= 0) by (nonlinear_arith)
        requires
            c >= 2,
            spc >= 0,
    ;
}

proof fn lemma_zero_writes_ok(d: Seq<u8>, bpb: Bpb, c: int)
    requires
        bpb.wf(),
        volume_on_disk(d, bpb),
        2 <= c < bpb.entry_count(),
    ensures
        write_all(d, zero_writes(bpb, c)).1,
{
    let ws = zero_writes(bpb, c);
    assert forall|i: int| 0 <= i < ws.len() implies sector_in(d, (#[trigger] ws[i]).0) by {
        lemma_cluster_sector_in(d, bpb, c, i);
    }
    assert forall|i: int| 0 <= i < ws.len() implies (#[trigger] ws[i]).1.len() == 512 by {}
    lemma_write_all_ok(d, ws);
}

proof fn lemma_fat_readable(d: Seq<u8>, bpb: Bpb)
    requires
        bpb.wf(),
        volume_on_disk(d, bpb),
    ensures
        fat_readable(d, bpb),
{
    lemma_data_end(bpb);
    assert forall|si: int| 0 <= si < bpb.sectors_per_fat implies #[trigger] fat_sector_ok(d, bpb, si) by {
        let bps = bpb.bytes_per_sector as int;
        let spf = bpb.sectors_per_fat as int;
        let spc = bpb.sectors_per_cluster as int;
        vstd::arithmetic::div_mod::lemma_fundamental_div_mod(spf * bps, 4);
        vstd::arithmetic::div_mod::lemma_mod_pos_bound(spf * bps, 4);
        assert(spf <= bpb.entry_count() * spc) by (nonlinear_arith)
            requires
                bps >= 4,
                spc >= 1,
                spf * bps == 4 * ((spf * bps) / 4) + (spf * bps) % 4,
                (spf * bps) % 4 < 4,
                bpb.entry_count() == (spf * bps) / 4,
                spf >= 0,
        ;
        assert(bpb.num_fats as int * spf >= 0) by (nonlinear_arith)
            requires
                spf >= 0,
        ;
    }
}

/// Marks every cluster of `clusters` free in every FAT copy.
pub fn free_cluster_list(bpb: &Bpb, disk: &mut Disk, clusters: &[u32]) -> (r: Result<(), FsError>)
    requires
        bpb.wf(),
        forall|i: int| 0 <= i < clusters@.len() ==> #[trigger] clusters@[i] < 0x4000_0000,
    ensures
        final(disk)@ == fat_writes(old(disk)@, *bpb, free_writes(clusters@)).0,
        r is Ok == fat_writes(old(disk)@, *bpb, free_writes(clusters@)).1,
        r matches Err(e) ==> e == FsError::Io,
        final(disk)@.len() == old(disk)@.len(),
{
    let ghost d0 = disk@;
    let ghost ws = free_writes(clusters@);
    let mut i: usize = 0;
    let mut res: Result<(), FsError> = Ok(());
    assert(ws.take(0) =~= Seq::<(int, u32)>::empty());
    assert(ws.take(ws.len() as int) =~= ws);
    while i < clusters.len()
        invariant_except_break
            fat_writes(d0, *bpb, ws.take(i as int)) == (disk@, true),
            res is Ok,
        invariant
            bpb.wf(),
            ws == free_writes(clusters@),
            ws.take(clusters@.len() as int) == ws,
            forall|k: int| 0 <= k < clusters@.len() ==> #[trigger] clusters@[k] < 0x4000_0000,
            i <= clusters@.len(),
            disk@.len() == d0.len(),
        ensures
            res is Ok ==> fat_writes(d0, *bpb, ws) == (disk@, true),
            res is Err ==> res == Err::<(), FsError>(FsError::Io) && fat_writes(d0, *bpb, ws)
                == (disk@, false),
        decreases clusters@.len() - i,
    {
        assert(ws.take(i + 1).drop_last() =~= ws.take(i as int));
        assert(ws.take(i + 1).last() == ws[i as int]);
        assert(clusters@[i as int] < 0x4000_0000);
        let w = fat_write_entry(bpb, disk, clusters[i], FAT_FREE);
        if w.is_err() {
            proof {
                lemma_fat_writes_fail(d0, *bpb, ws, i + 1);
            }
            res = Err(FsError::Io);
            break;
        }
        i = i + 1;
    }
    res
}

/// Marks the single cluster free.
pub fn free_single_cluster(bpb: &Bpb, disk: &mut Disk, cluster: u32) -> (r: Result<(), FsError>)
    requires
        bpb.wf(),
        cluster < 0x4000_0000,
    ensures
        final(disk)@ == fat_write(old(disk)@, *bpb, cluster as int, 0).0,
        r is Ok == fat_write(old(disk)@, *bpb, cluster as int, 0).1,
        r matches Err(e) ==> e == FsError::Io,
        final(disk)@.len() == old(disk)@.len(),
{
    fat_write_entry(bpb, disk, cluster, FAT_FREE)
}

/// Frees every cluster of the chain starting at `start`.
pub fn free_cluster_chain(bpb: &Bpb, disk: &mut Disk, start: u32) -> (r: Result<(), FsError>)
    requires
        bpb.wf(),
    ensures
        final(disk)@ == fat_writes(
            old(disk)@,
            *bpb,
            free_writes(chain(old(disk)@, *bpb, start as int)),
        ).0,
        r is Ok == fat_writes(old(disk)@, *bpb, free_writes(chain(old(disk)@, *bpb, start as int))).1,
        r matches Err(e) ==> e == FsError::Io,
        final(disk)@.len() == old(disk)@.len(),
{
    let cs = bpb.cluster_chain_clusters(disk, start);
    proof {
        lemma_chain_valid(disk@, *bpb, start as int, chain_fuel());
        assert forall|i: int| 0 <= i < cs@.len() implies #[trigger] cs@[i] < 0x4000_0000 by {
            assert(valid_cluster(*bpb, cs@[i] as int));
        }
    }
    free_cluster_list(bpb, disk, cs.as_slice())
}

/// Cluster `c` is the first free one: every earlier data cluster is in use
/// and every FAT sector up to `c`'s is on the disk.
pub open spec fn first_free(d: Seq<u8>, bpb: Bpb, c: int) -> bool {
    &&& 2 <= c < bpb.entry_count()
    &&& fat_value(d, bpb, c) == 0
    &&& forall|k: int| 2 <= k < c ==> #[trigger] fat_value(d, bpb, k) != 0
    &&& forall|si: int| 0 <= si <= c / per_sector(bpb) ==> #[trigger] fat_sector_ok(d, bpb, si)
}

/// No data cluster is free, and the whole first FAT is on the disk.
pub open spec fn fat_full(d: Seq<u8>, bpb: Bpb) -> bool {
    &&& fat_readable(d, bpb)
    &&& forall|k: int| 2 <= k < bpb.entry_count() ==> #[trigger] fat_value(d, bpb, k) != 0
}

/// The first free data cluster, read from the first FAT.
pub fn find_free_cluster(bpb: &Bpb, disk: &Disk) -> (r: Result<u32, FsError>)
    requires
        bpb.wf(),
    ensures
        match r {
            Ok(c) => first_free(disk@, *bpb, c as int),
            Err(FsError::NoSpace) => fat_full(disk@, *bpb),
            Err(e) => e == FsError::Io && !fat_readable(disk@, *bpb) && !fat_full(disk@, *bpb),
        },
{
    let ghost d = disk@;
    let total = bpb.fat_entry_count();
    let eps = (bpb.bytes_per_sector / 4) as u64;
    let spf = bpb.sectors_per_fat as u64;
    proof {
        assert(total as int == spf * eps) by (nonlinear_arith)
            requires
                total as int == bpb.sectors_per_fat as int * bpb.bytes_per_sector as int / 4,
                bpb.bytes_per_sector as int % 4 == 0,
                eps == bpb.bytes_per_sector as int / 4,
                spf == bpb.sectors_per_fat,
        ;
    }
    let mut sec: Vec<u8> = zeroed(512);
    let mut si: u64 = 0;
    while si < spf
        invariant
            d == disk@,
            bpb.wf(),
            total as int == bpb.entry_count(),
            total as int == spf * eps,
            eps == per_sector(*bpb),
            1 <= eps <= 128,
            spf == bpb.sectors_per_fat,
            sec@.len() == 512,
            si <= spf,
            forall|k: int| 0 <= k < si ==> #[trigger] fat_sector_ok(d, *bpb, k),
            forall|k: int| 2 <= k < si * eps ==> #[trigger] fat_value(d, *bpb, k) != 0,
        decreases spf - si,
    {
        let lba64 = bpb.fat_start_lba() as u64 + si;
        if lba64 > 0xFFFF_FFFF {
            assert(!fat_sector_ok(d, *bpb, si as int));
            return Err(FsError::Io);
        }
        let lba = lba64 as u32;
        if !disk.read_sector(lba, &mut sec) {
            assert(!fat_sector_ok(d, *bpb, si as int));
            return Err(FsError::Io);
        }
        assert(fat_sector_ok(d, *bpb, si as int));
        proof {
            assert(si * eps + eps <= spf * eps) by (nonlinear_arith)
                requires
                    si < spf,
            ;
        }
        let mut ei: u64 = 0;
        while ei < eps
            invariant
                d == disk@,
                bpb.wf(),
                total as int == spf * eps,
                total as int == bpb.entry_count(),
                eps == per_sector(*bpb),
                1 <= eps <= 128,
                si < spf,
                si * eps + eps <= spf * eps,
                lba == bpb.fat_start() + si,
                sec@ == sector_of(d, lba as int),
                sec@.len() == 512,
                ei <= eps,
                forall|k: int| 0 <= k <= si ==> #[trigger] fat_sector_ok(d, *bpb, k),
                forall|k: int| 2 <= k < si * eps + ei ==> #[trigger] fat_value(d, *bpb, k) != 0,
            decreases eps - ei,
        {
            let c = si * eps + ei;
            proof {
                assert(c / eps == si && c % eps == ei) by (nonlinear_arith)
                    requires
                        c == si * eps + ei,
                        ei < eps,
                ;
            }
            if c >= 2 {
                let off = (ei * 4) as usize;
                let value = rd32(sec.as_slice(), off) & FAT_ENTRY_MASK;
                assert(value == fat_value(d, *bpb, c as int));
                if value == FAT_FREE {
                    assert(first_free(d, *bpb, c as int));
                    return Ok(c as u32);
                }
            }
            ei = ei + 1;
        }
        si = si + 1;
        assert(si * eps == (si - 1) * eps + eps) by (nonlinear_arith);
    }
    assert(fat_full(d, *bpb));
    Err(FsError::NoSpace)
}

/// Takes the first free cluster: marks it end-of-chain in every FAT copy
/// and clears its sectors.
pub fn alloc_cluster(bpb: &Bpb, disk: &mut Disk) -> (r: Result<u32, FsError>)
    requires
        bpb.wf(),
    ensures
        match r {
            Ok(c) => first_free(old(disk)@, *bpb, c as int) && fat_write(
                old(disk)@,
                *bpb,
                c as int,
                FAT_EOC,
            ).1 && final(disk)@ == write_all(
                fat_write(old(disk)@, *bpb, c as int, FAT_EOC).0,
                zero_writes(*bpb, c as int),
            ).0,
            Err(FsError::NoSpace) => fat_full(old(disk)@, *bpb) && final(disk)@ == old(disk)@,
            Err(e) => e == FsError::Io && !fat_full(old(disk)@, *bpb),
        },
        volume_on_disk(old(disk)@, *bpb) ==> r != Err::<u32, FsError>(FsError::Io),
        final(disk)@.len() == old(disk)@.len(),
{
    proof {
        if volume_on_disk(disk@, *bpb) {
            lemma_fat_readable(disk@, *bpb);
        }
    }
    let c = find_free_cluster(bpb, disk)?;
    proof {
        assert(valid_cluster(*bpb, c as int));
        if volume_on_disk(disk@, *bpb) {
            lemma_fat_write_ok(disk@, *bpb, c as int, FAT_EOC, 0);
            lemma_fat_write_len(disk@, *bpb, c as int, FAT_EOC, 0);
            lemma_zero_writes_ok(fat_write(disk@, *bpb, c as int, FAT_EOC).0, *bpb, c as int);
        }
    }
    fat_write_entry(bpb, disk, c, FAT_EOC)?;
    zero_cluster(bpb, disk, c)?;
    Ok(c)
}

/// The disk after cluster `c` is taken: marked end-of-chain in every FAT
/// copy and its sectors cleared.
pub open spec fn taken_one(d: Seq<u8>, bpb: Bpb, c: int) -> Seq<u8> {
    write_all(fat_write(d, bpb, c, FAT_EOC).0, zero_writes(bpb, c)).0
}

/// The disk after the clusters `cs` are taken one by one.
pub open spec fn taken(d: Seq<u8>, bpb: Bpb, cs: Seq<u32>) -> Seq<u8>
    decreases cs.len(),
{
    if cs.len() == 0 {
        d
    } else {
        taken_one(taken(d, bpb, cs.drop_last()), bpb, cs.last() as int)
    }
}

/// Each cluster of `cs` was the first free one when its turn came.
pub open spec fn taken_in_order(d: Seq<u8>, bpb: Bpb, cs: Seq<u32>) -> bool {
    forall|i: int| 0 <= i < cs.len() ==> first_free(taken(d, bpb, cs.take(i)), bpb, #[trigger] cs[i] as int)
}

/// The FAT writes that link `cs` into one chain, each cluster pointing at
/// the next.
pub open spec fn link_writes(cs: Seq<u32>) -> Seq<(int, u32)> {
    Seq::new(if cs.len() > 0 { (cs.len() - 1) as nat } else { 0 }, |j: int| (cs[j] as int, cs[j + 1]))
}

/// Allocates `count` clusters and links them into one chain; on failure
/// the clusters taken so far are freed again.
pub fn alloc_cluster_chain(bpb: &Bpb, disk: &mut Disk, count: usize) -> (r: Result<Vec<u32>, FsError>)
    requires
        bpb.wf(),
    ensures
        match r {
            Ok(v) => v@.len() == count && (forall|i: int|
                0 <= i < v@.len() ==> 2 <= #[trigger] v@[i] < bpb.entry_count()) && taken_in_order(
                old(disk)@,
                *bpb,
                v@,
            ) && final(disk)@ == fat_writes(taken(old(disk)@, *bpb, v@), *bpb, link_writes(v@)).0,
            Err(e) => e == FsError::Io || e == FsError::NoSpace,
        },
        volume_on_disk(old(disk)@, *bpb) ==> (r matches Err(e) ==> e == FsError::NoSpace),
        final(disk)@.len() == old(disk)@.len(),
{
    let ghost d0 = disk@;
    let mut chain: Vec<u32> = Vec::new();
    let mut res: Result<(), FsError> = Ok(());
    let mut i: usize = 0;
    proof {
        assert(taken_in_order(d0, *bpb, chain@));
    }
    while i < count
        invariant_except_break
            res is Ok,
        invariant
            bpb.wf(),
            disk@.len() == d0.len(),
            chain@.len() == i,
            i <= count,
            forall|k: int| 0 <= k < chain@.len() ==> 2 <= #[trigger] chain@[k] < bpb.entry_count(),
            res is Err ==> res == Err::<(), FsError>(FsError::Io) || res == Err::<(), FsError>(
                FsError::NoSpace,
            ),
            res is Ok ==> disk@ == taken(d0, *bpb, chain@) && taken_in_order(d0, *bpb, chain@),
            volume_on_disk(d0, *bpb) ==> res != Err::<(), FsError>(FsError::Io),
        ensures
            res is Ok ==> chain@.len() == count,
        decreases count - i,
    {
        let ghost before = chain@;
        match alloc_cluster(bpb, disk) {
            Ok(c) => {
                chain.push(c);
                proof {
                    assert(chain@.drop_last() =~= before);
                    assert forall|k: int| 0 <= k < chain@.len() implies first_free(
                        taken(d0, *bpb, chain@.take(k)),
                        *bpb,
                        #[trigger] chain@[k] as int,
                    ) by {
                        if k < before.len() {
                            assert(chain@.take(k) =~= before.take(k));
                        } else {
                            assert(chain@.take(k) =~= before);
                        }
                    }
                }
            },
            Err(e) => {
                res = Err(e);
                break;
            },
        }
        i = i + 1;
    }
    if let Err(e) = res {
        proof {
            if volume_on_disk(d0, *bpb) {
                assert(volume_on_disk(disk@, *bpb));
                assert forall|k: int| 0 <= k < free_writes(chain@).len() implies 0 <= (
                #[trigger] free_writes(chain@)[k]).0 < bpb.entry_count() by {
                    assert(2 <= chain@[k] < bpb.entry_count());
                }
                lemma_fat_writes_ok(disk@, *bpb, free_writes(chain@));
            }
        }
        free_cluster_list(bpb, disk, chain.as_slice())?;
        return Err(e);
    }
    let ghost dt = disk@;
    let ghost lw = link_writes(chain@);
    proof {
        assert(lw.take(0) =~= Seq::<(int, u32)>::empty());
    }
    let mut j: usize = 1;
    let mut link: Result<(), FsError> = Ok(());
    while j < chain.len()
        invariant_except_break
            link is Ok,
            fat_writes(dt, *bpb, lw.take(j - 1)) == (disk@, true),
        invariant
            bpb.wf(),
            disk@.len() == d0.len(),
            forall|k: int| 0 <= k < chain@.len() ==> 2 <= #[trigger] chain@[k] < bpb.entry_count(),
            1 <= j,
            j <= chain@.len() || j == 1,
            chain@.len() == count,
            lw == link_writes(chain@),
            link is Err ==> link == Err::<(), FsError>(FsError::Io),
            d0.len() == disk@.len(),
            link is Err ==> !volume_on_disk(d0, *bpb),
        ensures
            link is Ok ==> fat_writes(dt, *bpb, lw.take(j - 1)) == (disk@, true) && (j
                == chain@.len() || chain@.len() == 0),
        decreases chain@.len() - j,
    {
        proof {
            assert(lw.take(j as int).drop_last() =~= lw.take(j - 1));
            assert(lw.take(j as int).last() == (chain@[j - 1] as int, chain@[j as int]));
        }
        proof {
            if volume_on_disk(d0, *bpb) {
                assert(volume_on_disk(disk@, *bpb));
                lemma_fat_write_ok(disk@, *bpb, chain@[j - 1] as int, chain@[j as int], 0);
            }
        }
        let w = fat_write_entry(bpb, disk, chain[j - 1], chain[j]);
        if w.is_err() {
            link = Err(FsError::Io);
            break;
        }
        j = j + 1;
    }
    link?;
    proof {
        assert(lw.take(j - 1) =~= lw);
    }
    Ok(chain)
}

/// Writes the `.` and `..` entries of a new directory into the first sector
/// of `cluster`.
pub open spec fn dir_head(cluster: int, parent: int) -> Seq<u8> {
    dir_entry_bytes(dot_name_bytes(), 0x10, cluster, 0) + dir_entry_bytes(
        dotdot_name_bytes(),
        0x10,
        parent,
        0,
    ) + Seq::new(448, |i: int| 0u8)
}

pub fn init_directory_cluster(bpb: &Bpb, disk: &mut Disk, cluster: u32, parent_cluster: u32) -> (r:
    Result<(), FsError>)
    requires
        bpb.wf(),
        valid_cluster(*bpb, cluster as int),
    ensures
        r is Ok == sector_in(old(disk)@, bpb.lba_of(cluster as int)),
        r is Ok ==> final(disk)@ == with_sector(
            old(disk)@,
            bpb.lba_of(cluster as int),
            dir_head(cluster as int, parent_cluster as int),
        ),
        r matches Err(e) ==> e == FsError::Io && final(disk)@ == old(disk)@,
        final(disk)@.len() == old(disk)@.len(),
{
    let dot = encode_dir_entry(dot_name().as_slice(), ATTR_DIRECTORY, cluster, 0);
    let dotdot = encode_dir_entry(dotdot_name().as_slice(), ATTR_DIRECTORY, parent_cluster, 0);
    let mut sec: Vec<u8> = Vec::new();
    let mut i: usize = 0;
    while i < 32
        invariant
            dot@.len() == 32,
            i <= 32,
            sec@ == dot@.take(i as int),
        decreases 32 - i,
    {
        sec.push(dot[i]);
        i = i + 1;
        assert(sec@ =~= dot@.take(i as int));
    }
    let mut i: usize = 0;
    while i < 32
        invariant
            dotdot@.len() == 32,
            dot@.len() == 32,
            i <= 32,
            sec@ == dot@ + dotdot@.take(i as int),
        decreases 32 - i,
    {
        sec.push(dotdot[i]);
        i = i + 1;
        assert(sec@ =~= dot@ + dotdot@.take(i as int));
    }
    let mut i: usize = 64;
    while i < 512
        invariant
            dotdot@.len() == 32,
            dot@.len() == 32,
            64 <= i <= 512,
            sec@ == dot@ + dotdot@ + Seq::new((i - 64) as nat, |k: int| 0u8),
        decreases 512 - i,
    {
        sec.push(0);
        i = i + 1;
        assert(sec@ =~= dot@ + dotdot@ + Seq::new((i - 64) as nat, |k: int| 0u8));
    }
    assert(dot@.take(32) =~= dot@);
    assert(dotdot@.take(32) =~= dotdot@);
    assert(sec@ =~= dir_head(cluster as int, parent_cluster as int));
    proof {
        lemma_cluster_lbas(*bpb, cluster as int);
    }
    let lba = bpb.cluster_lba(cluster);
    write_sector_exact(disk, lba, sec.as_slice())
}

} // verus!

verus! {

// ── Directory slot runs ─────────────────────────────────────────────────────

/// The first slot index from `k` on whose position is `(lba, off)`.
pub open spec fn first_pos(secs: Seq<u32>, lba: u32, off: usize, k: int) -> Option<int>
    decreases secs.len() * 16 - k,
{
    if k < 0 || k >= secs.len() * 16 {
        None
    } else if slot_pos(secs, k) == (lba, off) {
        Some(k)
    } else {
        first_pos(secs, lba, off, k + 1)
    }
}

/// The position of the slot that follows `(lba, off)` in the directory.
pub open spec fn slot_after(secs: Seq<u32>, lba: u32, off: usize) -> Option<(u32, usize)> {
    match first_pos(secs, lba, off, 0) {
        Some(k) => if k + 1 < secs.len() * 16 {
            Some(slot_pos(secs, k + 1))
        } else {
            None
        },
        None => None,
    }
}

proof fn lemma_slot_pos(secs: Seq<u32>, si: int, off: int)
    requires
        0 <= si < secs.len(),
        0 <= off < 16,
    ensures
        slot_pos(secs, si * 16 + off) == (secs[si], (off * 32) as usize),
        si * 16 + off < secs.len() * 16,
{
    assert((si * 16 + off) / 16 == si && (si * 16 + off) % 16 == off) by (nonlinear_arith)
        requires
            0 <= off < 16,
    ;
    assert(si * 16 + off < secs.len() * 16) by (nonlinear_arith)
        requires
            si < secs.len(),
            off < 16,
    ;
}

proof fn lemma_first_pos_within(secs: Seq<u32>, lba: u32, off: usize, si: int, j: int)
    requires
        0 <= si < secs.len(),
        secs[si] == lba,
        off % 32 == 0,
        off < 512,
        0 <= j <= off / 32,
    ensures
        first_pos(secs, lba, off, si * 16 + j) == Some(si * 16 + off / 32),
    decreases off / 32 - j,
{
    lemma_slot_pos(secs, si, j);
    if j < off / 32 {
        assert((j * 32) as usize != off);
        lemma_first_pos_within(secs, lba, off, si, j + 1);
    } else {
        assert(j * 32 == off);
    }
}

proof fn lemma_first_pos_skip(secs: Seq<u32>, lba: u32, off: usize, si: int, j: int)
    requires
        0 <= si < secs.len(),
        secs[si] != lba || off % 32 != 0 || off >= 512,
        0 <= j <= 16,
    ensures
        first_pos(secs, lba, off, si * 16 + j) == first_pos(secs, lba, off, si * 16 + 16),
    decreases 16 - j,
{
    if j < 16 {
        lemma_slot_pos(secs, si, j);
        assert(slot_pos(secs, si * 16 + j) != (lba, off)) by {
            if secs[si] == lba && off % 32 == 0 && off < 512 {
                assert(false);
            }
            assert((j * 32) < 512);
        }
        lemma_first_pos_skip(secs, lba, off, si, j + 1);
    }
}

fn slot_after_in(sectors: &[u32], lba: u32, offset: usize) -> (r: Option<(u32, usize)>)
    ensures
        r == slot_after(sectors@, lba, offset),
{
    let ghost secs = sectors@;
    let aligned = offset % 32 == 0 && offset < 512;
    let mut si: usize = 0;
    while si < sectors.len()
        invariant
            secs == sectors@,
            aligned == (offset % 32 == 0 && offset < 512),
            si <= secs.len(),
            first_pos(secs, lba, offset, 0) == first_pos(secs, lba, offset, si * 16),
        decreases secs.len() - si,
    {
        if aligned && sectors[si] == lba {
            let ghost k = si * 16 + offset / 32;
            proof {
                lemma_first_pos_within(secs, lba, offset, si as int, 0);
                assert(k < secs.len() * 16) by (nonlinear_arith)
                    requires
                        k == si * 16 + offset / 32,
                        offset < 512,
                        si < secs.len(),
                ;
            }
            if offset / 32 < 15 {
                proof {
                    assert((k + 1) / 16 == si && (k + 1) % 16 == offset / 32 + 1) by (nonlinear_arith)
                        requires
                            k == si * 16 + offset / 32,
                            offset / 32 < 15,
                    ;
                    assert(k + 1 < secs.len() * 16) by (nonlinear_arith)
                        requires
                            k == si * 16 + offset / 32,
                            offset / 32 < 15,
                            si < secs.len(),
                    ;
                }
                return Some((sectors[si], offset + 32));
            }
            if si + 1 < sectors.len() {
                proof {
                    assert((k + 1) / 16 == si + 1 && (k + 1) % 16 == 0) by (nonlinear_arith)
                        requires
                            k == si * 16 + offset / 32,
                            offset / 32 == 15,
                    ;
                    assert(k + 1 < secs.len() * 16) by (nonlinear_arith)
                        requires
                            k == si * 16 + 15,
                            si + 1 < secs.len(),
                    ;
                }
                return Some((sectors[si + 1], 0));
            }
            proof {
                assert(k + 1 >= secs.len() * 16) by (nonlinear_arith)
                    requires
                        k == si * 16 + offset / 32,
                        offset / 32 >= 15,
                        si + 1 >= secs.len(),
                ;
            }
            return None;
        }
        proof {
            lemma_first_pos_skip(secs, lba, offset, si as int, 0);
        }
        si = si + 1;
        assert(si * 16 == (si - 1) * 16 + 16);
    }
    proof {
        assert(first_pos(secs, lba, offset, si * 16) is None);
    }
    None
}

/// The slot that follows `(lba, offset)` in the directory at `dir_cluster`.
pub fn next_dir_slot(bpb: &Bpb, disk: &Disk, dir_cluster: u32, lba: u32, offset: usize) -> (r:
    Option<(u32, usize)>)
    requires
        bpb.wf(),
    ensures
        r == slot_after(sectors_of(*bpb, chain(disk@, *bpb, dir_cluster as int)), lba, offset),
{
    let sectors = bpb.cluster_chain_sectors(disk, dir_cluster);
    slot_after_in(sectors.as_slice(), lba, offset)
}

/// Writes an end-of-directory marker into the slot after `(lba, offset)`,
/// when there is one.
pub fn write_dir_end_marker_after(
    bpb: &Bpb,
    disk: &mut Disk,
    dir_cluster: u32,
    lba: u32,
    offset: usize,
) -> (r: Result<(), FsError>)
    requires
        bpb.wf(),
    ensures
        match slot_after(sectors_of(*bpb, chain(old(disk)@, *bpb, dir_cluster as int)), lba, offset) {
            None => r is Ok && final(disk)@ == old(disk)@,
            Some(p) => (r is Ok == sector_in(old(disk)@, p.0 as int)) && (r is Ok ==> final(disk)@
                == with_sector(
                old(disk)@,
                p.0 as int,
                sector_of(old(disk)@, p.0 as int).update(p.1 as int, 0),
            )) && (r is Err ==> final(disk)@ == old(disk)@),
        },
        r matches Err(e) ==> e == FsError::Io,
        final(disk)@.len() == old(disk)@.len(),
{
    match next_dir_slot(bpb, disk, dir_cluster, lba, offset) {
        Some((next_lba, next_offset)) => {
            proof {
                let secs = sectors_of(*bpb, chain(disk@, *bpb, dir_cluster as int));
                let k = first_pos(secs, lba, offset, 0)->0 + 1;
                assert((k % 16) * 32 < 512) by (nonlinear_arith);
            }
            set_slot_byte(disk, next_lba, next_offset, 0)
        },
        None => Ok(()),
    }
}

/// Looks from slot `k` on for `needed` consecutive free slots (deleted or
/// past the end marker); the flag tells whether the run reached the end
/// marker.
pub open spec fn run_scan(
    d: Seq<u8>,
    secs: Seq<u32>,
    k: int,
    run: Seq<(u32, usize)>,
    hit: bool,
    needed: int,
) -> Result<Option<(Seq<(u32, usize)>, bool)>, FsError>
    decreases secs.len() * 16 - k,
{
    if k < 0 || k >= secs.len() * 16 {
        Ok(None)
    } else if !sector_in(d, secs[k / 16] as int) {
        Err(FsError::Io)
    } else {
        let first = slot_at(d, secs, k)[0];
        if first == 0xE5 || first == 0 {
            let hit1 = first == 0 || (run.len() > 0 && hit);
            let run1 = run.push(slot_pos(secs, k));
            if run1.len() == needed {
                Ok(Some((run1, hit1)))
            } else {
                run_scan(d, secs, k + 1, run1, hit1, needed)
            }
        } else {
            run_scan(d, secs, k + 1, Seq::empty(), false, needed)
        }
    }
}

pub open spec fn slots_fit(v: Seq<(u32, usize)>) -> bool {
    forall|i: int| 0 <= i < v.len() ==> (#[trigger] v[i]).1 + 32 <= 512
}

/// Every sector of a list lies on the disk.
pub open spec fn all_in(d: Seq<u8>, secs: Seq<u32>) -> bool {
    forall|j: int| 0 <= j < secs.len() ==> sector_in(d, #[trigger] secs[j] as int)
}

/// The sectors of clusters the FAT describes lie on a volume that is on
/// the disk.
proof fn lemma_sectors_of_in(d: Seq<u8>, bpb: Bpb, cs: Seq<u32>)
    requires
        bpb.wf(),
        volume_on_disk(d, bpb),
        forall|i: int| 0 <= i < cs.len() ==> 2 <= #[trigger] cs[i] < bpb.entry_count(),
    ensures
        all_in(d, sectors_of(bpb, cs)),
    decreases cs.len(),
{
    if cs.len() > 0 {
        let w = cs.drop_last();
        assert forall|i: int| 0 <= i < w.len() implies 2 <= #[trigger] w[i] < bpb.entry_count() by {
            assert(w[i] == cs[i]);
        }
        lemma_sectors_of_in(d, bpb, w);
        let c = cs.last() as int;
        assert(2 <= cs[cs.len() - 1] < bpb.entry_count());
        let tail = Seq::new(
            bpb.sectors_per_cluster as nat,
            |i: int| (bpb.lba_of(c) + i) as u32,
        );
        let all = sectors_of(bpb, w) + tail;
        assert forall|j: int| 0 <= j < all.len() implies sector_in(d, #[trigger] all[j] as int) by {
            if j >= sectors_of(bpb, w).len() {
                let i = j - sectors_of(bpb, w).len();
                lemma_cluster_sector_in(d, bpb, c, i);
                lemma_cluster_lbas(bpb, c);
                assert(all[j] as int == bpb.lba_of(c) + i);
            } else {
                assert(all[j] == sectors_of(bpb, w)[j]);
            }
        }
    }
}

/// With every directory sector on the disk, the search for free slots
/// reads them all, and the slots it finds lie on the disk.
proof fn lemma_run_scan_in(
    d: Seq<u8>,
    secs: Seq<u32>,
    k: int,
    run: Seq<(u32, usize)>,
    hit: bool,
    needed: int,
)
    requires
        all_in(d, secs),
        0 <= k,
        forall|i: int| 0 <= i < run.len() ==> sector_in(d, (#[trigger] run[i]).0 as int),
    ensures
        run_scan(d, secs, k, run, hit, needed) is Ok,
        run_scan(d, secs, k, run, hit, needed) matches Ok(Some(p)) ==> forall|i: int|
            0 <= i < p.0.len() ==> sector_in(d, (#[trigger] p.0[i]).0 as int),
    decreases secs.len() * 16 - k,
{
    if k < secs.len() * 16 {
        assert(0 <= k / 16 < secs.len()) by (nonlinear_arith)
            requires
                0 <= k < secs.len() * 16,
        ;
        assert(sector_in(d, secs[k / 16] as int));
        let first = slot_at(d, secs, k)[0];
        if first == 0xE5 || first == 0 {
            let hit1 = first == 0 || (run.len() > 0 && hit);
            let run1 = run.push(slot_pos(secs, k));
            assert forall|i: int| 0 <= i < run1.len() implies sector_in(d, (#[trigger] run1[i]).0 as int) by {
                if i < run.len() {
                    assert(run1[i] == run[i]);
                }
            }
            if run1.len() != needed {
                lemma_run_scan_in(d, secs, k + 1, run1, hit1, needed);
            }
        } else {
            lemma_run_scan_in(d, secs, k + 1, Seq::empty(), false, needed);
        }
    }
}

/// Slot writes whose sectors are all on the disk all land.
proof fn lemma_slots_written_ok(d: Seq<u8>, entries: Seq<Seq<u8>>, locs: Seq<(u32, usize)>, n: int)
    requires
        0 <= n <= locs.len(),
        n <= entries.len(),
        forall|i: int| 0 <= i < locs.len() ==> sector_in(d, (#[trigger] locs[i]).0 as int),
        forall|i: int| 0 <= i < locs.len() ==> (#[trigger] locs[i]).1 + 32 <= 512,
        forall|i: int| 0 <= i < entries.len() ==> (#[trigger] entries[i]).len() == 32,
    ensures
        slots_written(d, entries, locs, n).1,
        slots_written(d, entries, locs, n).0.len() == d.len(),
    decreases n,
{
    if n > 0 {
        lemma_slots_written_ok(d, entries, locs, n - 1);
        let p = slots_written(d, entries, locs, n - 1);
        let (lba, offset) = locs[n - 1];
        assert(sector_in(d, lba as int));
        assert(sector_in(p.0, lba as int));
        let sec = sector_of(p.0, lba as int);
        assert(patched(sec, offset as int, entries[n - 1]).len() == 512);
        lemma_with_sector_len(p.0, lba as int, patched(sec, offset as int, entries[n - 1]));
    }
}

proof fn lemma_first_pos_range(secs: Seq<u32>, lba: u32, off: usize, k: int)
    requires
        0 <= k,
    ensures
        first_pos(secs, lba, off, k) matches Some(j) ==> k <= j < secs.len() * 16,
    decreases secs.len() * 16 - k,
{
    if k < secs.len() * 16 && slot_pos(secs, k) != (lba, off) {
        lemma_first_pos_range(secs, lba, off, k + 1);
    }
}

/// The slot after a given one lies in a sector of the list.
proof fn lemma_slot_after_in(d: Seq<u8>, secs: Seq<u32>, lba: u32, off: usize)
    requires
        all_in(d, secs),
    ensures
        slot_after(secs, lba, off) matches Some(q) ==> sector_in(d, q.0 as int),
{
    lemma_first_pos_range(secs, lba, off, 0);
    if let Some(k) = first_pos(secs, lba, off, 0) {
        if k + 1 < secs.len() * 16 {
            assert(0 <= (k + 1) / 16 < secs.len()) by (nonlinear_arith)
                requires
                    0 <= k + 1 < secs.len() * 16,
            ;
            assert(sector_in(d, secs[(k + 1) / 16] as int));
        }
    }
}

proof fn lemma_run_scan_shape(
    d: Seq<u8>,
    secs: Seq<u32>,
    k: int,
    run: Seq<(u32, usize)>,
    hit: bool,
    needed: int,
)
    requires
        slots_fit(run),
    ensures
        run_scan(d, secs, k, run, hit, needed) matches Err(e) ==> e == FsError::Io,
        run_scan(d, secs, k, run, hit, needed) matches Ok(Some(p)) ==> slots_fit(p.0),
    decreases secs.len() * 16 - k,
{
    if k < 0 || k >= secs.len() * 16 {
    } else if !sector_in(d, secs[k / 16] as int) {
    } else {
        let first = slot_at(d, secs, k)[0];
        if first == 0xE5 || first == 0 {
            let hit1 = first == 0 || (run.len() > 0 && hit);
            let run1 = run.push(slot_pos(secs, k));
            assert((k % 16) * 32 + 32 <= 512) by (nonlinear_arith)
                requires
                    k >= 0,
            ;
            assert(slots_fit(run1)) by {
                assert forall|i: int| 0 <= i < run1.len() implies (#[trigger] run1[i]).1 + 32
                    <= 512 by {
                    if i < run.len() {
                        assert(run1[i] == run[i]);
                    }
                }
            }
            if run1.len() != needed {
                lemma_run_scan_shape(d, secs, k + 1, run1, hit1, needed);
            }
        } else {
            lemma_run_scan_shape(d, secs, k + 1, Seq::empty(), false, needed);
        }
    }
}

fn run_in(disk: &Disk, sectors: &[u32], needed: usize) -> (r: Result<
    Option<(Vec<(u32, usize)>, bool)>,
    FsError,
>)
    ensures
        match r {
            Ok(Some((v, h))) => run_scan(disk@, sectors@, 0, Seq::empty(), false, needed as int)
                == Ok::<Option<(Seq<(u32, usize)>, bool)>, FsError>(Some((v@, h))),
            Ok(None) => run_scan(disk@, sectors@, 0, Seq::empty(), false, needed as int) == Ok::<
                Option<(Seq<(u32, usize)>, bool)>,
                FsError,
            >(None),
            Err(e) => run_scan(disk@, sectors@, 0, Seq::empty(), false, needed as int) == Err::<
                Option<(Seq<(u32, usize)>, bool)>,
                FsError,
            >(e),
        },
{
    let ghost d = disk@;
    let ghost secs = sectors@;
    let ghost goal = run_scan(d, secs, 0, Seq::empty(), false, needed as int);
    let mut sec: Vec<u8> = zeroed(512);
    let mut run: Vec<(u32, usize)> = Vec::new();
    let mut hit = false;
    let mut si: usize = 0;
    while si < sectors.len()
        invariant
            d == disk@,
            secs == sectors@,
            sec@.len() == 512,
            si <= secs.len(),
            goal == run_scan(d, secs, 0, Seq::empty(), false, needed as int),
            goal == run_scan(d, secs, si * 16, run@, hit, needed as int),
        decreases secs.len() - si,
    {
        let lba = sectors[si];
        proof {
            lemma_sector_unreadable(d, secs, si as int);
        }
        if read_sector_exact(disk, lba, &mut sec).is_err() {
            return Err(FsError::Io);
        }
        let mut off: usize = 0;
        while off < 16
            invariant
                d == disk@,
                secs == sectors@,
                si < secs.len(),
                lba == secs[si as int],
                sector_in(d, lba as int),
                sec@ == sector_of(d, lba as int),
                off <= 16,
                goal == run_scan(d, secs, 0, Seq::empty(), false, needed as int),
                goal == run_scan(d, secs, si * 16 + off, run@, hit, needed as int),
            decreases 16 - off,
        {
            let ghost k = si * 16 + off;
            proof {
                lemma_slot_in_sector(d, secs, si as int, off as int, sec@);
                lemma_slot_pos(secs, si as int, off as int);
            }
            let first = sec[off * 32];
            assert(first == slot_at(d, secs, k)[0]);
            if first == 0xE5 || first == 0x00 {
                if run.len() == 0 {
                    hit = false;
                }
                if first == 0x00 {
                    hit = true;
                }
                run.push((lba, off * 32));
                if run.len() == needed {
                    return Ok(Some((run, hit)));
                }
            } else {
                run = Vec::new();
                hit = false;
            }
            off = off + 1;
            assert(si * 16 + off == k + 1);
        }
        si = si + 1;
        assert(si * 16 == (si - 1) * 16 + 16);
    }
    Ok(None)
}

/// The first run of `needed` consecutive free slots in the directory at
/// `dir_cluster` (see [`run_scan`]).
pub fn find_free_dir_entry_run(bpb: &Bpb, disk: &Disk, dir_cluster: u32, needed: usize) -> (r:
    Result<Option<(Vec<(u32, usize)>, bool)>, FsError>)
    requires
        bpb.wf(),
    ensures
        match r {
            Ok(Some((v, h))) => run_scan(
                disk@,
                sectors_of(*bpb, chain(disk@, *bpb, dir_cluster as int)),
                0,
                Seq::empty(),
                false,
                needed as int,
            ) == Ok::<Option<(Seq<(u32, usize)>, bool)>, FsError>(Some((v@, h))),
            Ok(None) => run_scan(
                disk@,
                sectors_of(*bpb, chain(disk@, *bpb, dir_cluster as int)),
                0,
                Seq::empty(),
                false,
                needed as int,
            ) == Ok::<Option<(Seq<(u32, usize)>, bool)>, FsError>(None),
            Err(e) => run_scan(
                disk@,
                sectors_of(*bpb, chain(disk@, *bpb, dir_cluster as int)),
                0,
                Seq::empty(),
                false,
                needed as int,
            ) == Err::<Option<(Seq<(u32, usize)>, bool)>, FsError>(e),
        },
{
    let sectors = bpb.cluster_chain_sectors(disk, dir_cluster);
    run_in(disk, sectors.as_slice(), needed)
}

/// The disk after cluster `c` is taken and linked behind the last cluster
/// of the directory at `dir_cluster`.
pub open spec fn extended(d: Seq<u8>, bpb: Bpb, dir_cluster: int, c: u32) -> Seq<u8> {
    fat_write(taken_one(d, bpb, c as int), bpb, chain(d, bpb, dir_cluster).last() as int, c).0
}

/// Adds one free cluster to the end of the directory's chain.
pub fn extend_dir_chain(bpb: &Bpb, disk: &mut Disk, dir_cluster: u32) -> (r: Result<(), FsError>)
    requires
        bpb.wf(),
    ensures
        chain(old(disk)@, *bpb, dir_cluster as int).len() == 0 ==> r == Err::<(), FsError>(
            FsError::Io,
        ) && final(disk)@ == old(disk)@,
        r is Ok ==> exists|c: u32|
            first_free(old(disk)@, *bpb, c as int) && #[trigger] extended(
                old(disk)@,
                *bpb,
                dir_cluster as int,
                c,
            ) == final(disk)@,
        r == Err::<(), FsError>(FsError::NoSpace) ==> fat_full(old(disk)@, *bpb) && final(disk)@
            == old(disk)@,
        chain(old(disk)@, *bpb, dir_cluster as int).len() > 0 && fat_full(old(disk)@, *bpb) ==> r
            == Err::<(), FsError>(FsError::NoSpace),
        r matches Err(e) ==> e == FsError::Io || e == FsError::NoSpace,
        volume_on_disk(old(disk)@, *bpb) && chain(old(disk)@, *bpb, dir_cluster as int).len() > 0
            ==> r != Err::<(), FsError>(FsError::Io),
        final(disk)@.len() == old(disk)@.len(),
{
    let ghost d0 = disk@;
    let clusters = bpb.cluster_chain_clusters(disk, dir_cluster);
    if clusters.len() == 0 {
        return Err(FsError::Io);
    }
    proof {
        lemma_chain_valid(disk@, *bpb, dir_cluster as int, chain_fuel());
        assert(valid_cluster(*bpb, clusters@[clusters@.len() - 1] as int));
    }
    let last_cluster = clusters[clusters.len() - 1];
    let new_cluster = alloc_cluster(bpb, disk)?;
    proof {
        if volume_on_disk(d0, *bpb) {
            assert(volume_on_disk(disk@, *bpb));
            lemma_fat_write_ok(disk@, *bpb, last_cluster as int, new_cluster, 0);
        }
    }
    if fat_write_entry(bpb, disk, last_cluster, new_cluster).is_err() {
        let _ = free_single_cluster(bpb, disk, new_cluster);
        return Err(FsError::Io);
    }
    assert(extended(d0, *bpb, dir_cluster as int, new_cluster) == disk@);
    Ok(())
}

/// Writes `entries[..n]` into the slots `locs[..n]` one by one, stopping at
/// the first sector that is not on the disk; gives the disk and whether
/// every write landed.
pub open spec fn slots_written(d: Seq<u8>, entries: Seq<Seq<u8>>, locs: Seq<(u32, usize)>, n: int) -> (
    Seq<u8>,
    bool,
)
    decreases n,
{
    if n <= 0 {
        (d, true)
    } else {
        let p = slots_written(d, entries, locs, n - 1);
        let (lba, offset) = locs[n - 1];
        if !p.1 {
            p
        } else if sector_in(p.0, lba as int) {
            (
                with_sector(
                    p.0,
                    lba as int,
                    patched(sector_of(p.0, lba as int), offset as int, entries[n - 1]),
                ),
                true,
            )
        } else {
            (p.0, false)
        }
    }
}

proof fn lemma_slots_written_stuck(
    d: Seq<u8>,
    entries: Seq<Seq<u8>>,
    locs: Seq<(u32, usize)>,
    i: int,
    n: int,
)
    requires
        0 <= i <= n,
        !slots_written(d, entries, locs, i).1,
    ensures
        slots_written(d, entries, locs, n) == slots_written(d, entries, locs, i),
    decreases n - i,
{
    if n > i {
        lemma_slots_written_stuck(d, entries, locs, i, n - 1);
    }
}

proof fn lemma_slots_written_prefix(
    d: Seq<u8>,
    entries: Seq<Seq<u8>>,
    locs: Seq<(u32, usize)>,
    more_e: Seq<Seq<u8>>,
    more_l: Seq<(u32, usize)>,
    n: int,
)
    requires
        n <= entries.len(),
        n <= locs.len(),
        entries.len() <= more_e.len(),
        locs.len() <= more_l.len(),
        forall|k: int| 0 <= k < entries.len() ==> more_e[k] == entries[k],
        forall|k: int| 0 <= k < locs.len() ==> more_l[k] == locs[k],
    ensures
        slots_written(d, more_e, more_l, n) == slots_written(d, entries, locs, n),
    decreases n,
{
    if n > 0 {
        lemma_slots_written_prefix(d, entries, locs, more_e, more_l, n - 1);
    }
}

/// The end marker put into the slot after `(lba, offset)` in the directory,
/// when there is such a slot; gives the disk and whether the write landed.
pub open spec fn marker_written(d: Seq<u8>, bpb: Bpb, dir_cluster: int, lba: u32, offset: usize) -> (
    Seq<u8>,
    bool,
) {
    match slot_after(sectors_of(bpb, chain(d, bpb, dir_cluster)), lba, offset) {
        None => (d, true),
        Some(p) => if sector_in(d, p.0 as int) {
            (with_sector(d, p.0 as int, sector_of(d, p.0 as int).update(p.1 as int, 0)), true)
        } else {
            (d, false)
        },
    }
}

/// Entries written into a run of slots, then the end marker after the run's
/// last slot when asked for; gives the disk and whether it all landed.
pub open spec fn run_written(
    d: Seq<u8>,
    bpb: Bpb,
    dir_cluster: int,
    entries: Seq<Seq<u8>>,
    locs: Seq<(u32, usize)>,
    needs_end_marker: bool,
) -> (Seq<u8>, bool) {
    let m = if entries.len() < locs.len() { entries.len() } else { locs.len() };
    let p = slots_written(d, entries, locs, m as int);
    if !p.1 {
        p
    } else if needs_end_marker && locs.len() > 0 {
        marker_written(p.0, bpb, dir_cluster, locs.last().0, locs.last().1)
    } else {
        p
    }
}

/// `d` is reached from `d0` by growing the directory at `dir_cluster` `n`
/// times, each time by its first free cluster and because it had no run of
/// `needed` free slots.
pub open spec fn grown(d0: Seq<u8>, d: Seq<u8>, bpb: Bpb, dir_cluster: int, needed: int, n: nat) -> bool
    decreases n,
{
    if n == 0 {
        d == d0
    } else {
        exists|dm: Seq<u8>, c: u32|
            grown(d0, dm, bpb, dir_cluster, needed, (n - 1) as nat) && free_run(
                dm,
                bpb,
                dir_cluster,
                needed,
            ) == Ok::<Option<(Seq<(u32, usize)>, bool)>, FsError>(None) && first_free(
                dm,
                bpb,
                c as int,
            ) && #[trigger] extended(dm, bpb, dir_cluster, c) == d
    }
}

/// The first run of `needed` free slots in the directory at `dir_cluster`
/// (see [`run_scan`]).
pub open spec fn free_run(d: Seq<u8>, bpb: Bpb, dir_cluster: int, needed: int) -> Result<
    Option<(Seq<(u32, usize)>, bool)>,
    FsError,
> {
    run_scan(d, sectors_of(bpb, chain(d, bpb, dir_cluster)), 0, Seq::empty(), false, needed)
}

/// Every entry is a 32-byte slot.
pub open spec fn all_slots(entries: Seq<Vec<u8>>) -> bool {
    forall|i: int| 0 <= i < entries.len() ==> (#[trigger] entries[i])@.len() == 32
}

/// Writes `entries` into the first run of free slots long enough to hold
/// them, growing the directory until one exists, and puts an end marker
/// after them when the run reached the old end of the directory.
pub fn append_dir_entries(bpb: &Bpb, disk: &mut Disk, dir_cluster: u32, entries: &[Vec<u8>]) -> (r:
    Result<(), FsError>)
    requires
        bpb.wf(),
        all_slots(entries@),
    ensures
        entries@.len() == 0 ==> r is Ok && final(disk)@ == old(disk)@,
        entries@.len() > 0 ==> match free_run(old(disk)@, *bpb, dir_cluster as int, entries@.len() as int) {
            Err(e) => r == Err::<(), FsError>(e) && final(disk)@ == old(disk)@,
            Ok(Some(p)) => (final(disk)@, r is Ok) == run_written(
                old(disk)@,
                *bpb,
                dir_cluster as int,
                views_u8(entries@),
                p.0,
                p.1,
            ),
            Ok(None) => (fat_full(old(disk)@, *bpb) && chain(old(disk)@, *bpb, dir_cluster as int).len()
                > 0 ==> r == Err::<(), FsError>(FsError::NoSpace) && final(disk)@ == old(disk)@) && (
            chain(old(disk)@, *bpb, dir_cluster as int).len() == 0 ==> r == Err::<(), FsError>(
                FsError::Io,
            ) && final(disk)@ == old(disk)@),
        },
        r is Ok && entries@.len() > 0 ==> exists|
            n: nat,
            d1: Seq<u8>,
            locs: Seq<(u32, usize)>,
            marker: bool,
        |
            #[trigger] grown(old(disk)@, d1, *bpb, dir_cluster as int, entries@.len() as int, n)
                && free_run(
                d1,
                *bpb,
                dir_cluster as int,
                entries@.len() as int,
            ) == Ok::<Option<(Seq<(u32, usize)>, bool)>, FsError>(Some((locs, marker)))
                && #[trigger] run_written(d1, *bpb, dir_cluster as int, views_u8(entries@), locs, marker) == (
            final(disk)@,
            true,
        ),
        r matches Err(e) ==> e == FsError::Io || e == FsError::NoSpace,
        volume_on_disk(old(disk)@, *bpb) && chain(old(disk)@, *bpb, dir_cluster as int).len() > 0
            ==> r != Err::<(), FsError>(FsError::Io),
        final(disk)@.len() == old(disk)@.len(),
{
    if entries.len() == 0 {
        return Ok(());
    }
    let ghost d0 = disk@;
    let ghost n = entries@.len() as int;
    let ghost dc = dir_cluster as int;
    let ghost mut stopped = false;
    let ghost mut wd: Seq<u8> = d0;
    let ghost mut wl: Seq<(u32, usize)> = Seq::empty();
    let ghost mut wm = false;
    let ghost mut wn: nat = 0;
    let rounds = bpb.fat_entry_count();
    let mut round: u32 = 0;
    let mut res: Result<(), FsError> = Err(FsError::NoSpace);
    while round <= rounds
        invariant_except_break
            res == Err::<(), FsError>(FsError::NoSpace),
            !stopped,
            round == 0 ==> disk@ == d0,
            grown(d0, disk@, *bpb, dc, n, round as nat),
        invariant
            bpb.wf(),
            all_slots(entries@),
            entries@.len() > 0,
            n == entries@.len(),
            dc == dir_cluster,
            disk@.len() == d0.len(),
            rounds as int == bpb.entry_count(),
            round <= rounds + 1,
            res matches Err(e) ==> e == FsError::Io || e == FsError::NoSpace,
            volume_on_disk(d0, *bpb) && chain(d0, *bpb, dc).len() > 0 ==> res != Err::<(), FsError>(
                FsError::Io,
            ),
            round > 0 ==> free_run(d0, *bpb, dc, n) == Ok::<
                Option<(Seq<(u32, usize)>, bool)>,
                FsError,
            >(None),
            stopped && round == 0 ==> match free_run(d0, *bpb, dc, n) {
                Err(e) => res == Err::<(), FsError>(e) && disk@ == d0,
                Ok(Some(p)) => (disk@, res is Ok) == run_written(d0, *bpb, dc, views_u8(entries@), p.0, p.1),
                Ok(None) => (fat_full(d0, *bpb) && chain(d0, *bpb, dc).len() > 0 ==> res == Err::<
                    (),
                    FsError,
                >(FsError::NoSpace) && disk@ == d0) && (chain(d0, *bpb, dc).len() == 0 ==> res
                    == Err::<(), FsError>(FsError::Io) && disk@ == d0),
            },
            round > 0 ==> !fat_full(d0, *bpb) && chain(d0, *bpb, dc).len() > 0,
            res is Ok ==> grown(d0, wd, *bpb, dc, n, wn),
            res is Ok ==> free_run(wd, *bpb, dc, n) == Ok::<
                Option<(Seq<(u32, usize)>, bool)>,
                FsError,
            >(Some((wl, wm))) && run_written(wd, *bpb, dc, views_u8(entries@), wl, wm) == (disk@, true),
        ensures
            !stopped ==> round > 0,
        decreases rounds + 1 - round,
    {
        proof {
            lemma_run_scan_shape(
                disk@,
                sectors_of(*bpb, chain(disk@, *bpb, dir_cluster as int)),
                0,
                Seq::empty(),
                false,
                entries@.len() as int,
            );
        }
        let ghost before = disk@;
        let ghost good = volume_on_disk(d0, *bpb) && chain(d0, *bpb, dc).len() > 0;
        proof {
            if good {
                assert(volume_on_disk(disk@, *bpb));
                assert(chain(disk@, *bpb, dc).len() > 0);
                lemma_chain_valid(disk@, *bpb, dc, chain_fuel());
                let cs = chain(disk@, *bpb, dc);
                assert forall|k: int| 0 <= k < cs.len() implies 2 <= #[trigger] cs[k] < bpb.entry_count() by {
                    assert(valid_cluster(*bpb, cs[k] as int));
                }
                lemma_sectors_of_in(disk@, *bpb, cs);
                lemma_run_scan_in(disk@, sectors_of(*bpb, cs), 0, Seq::empty(), false, n);
            }
        }
        match find_free_dir_entry_run(bpb, disk, dir_cluster, entries.len()) {
            Err(e) => {
                proof {
                    stopped = true;
                }
                res = Err(e);
                break;
            },
            Ok(Some((locations, needs_end_marker))) => {
                res = write_run(bpb, disk, dir_cluster, entries, &locations, needs_end_marker);
                proof {
                    stopped = true;
                    wd = before;
                    wl = locations@;
                    wm = needs_end_marker;
                    wn = round as nat;
                }
                break;
            },
            Ok(None) => {
                if let Err(e) = extend_dir_chain(bpb, disk, dir_cluster) {
                    proof {
                        stopped = true;
                    }
                    res = Err(e);
                    break;
                }
                proof {
                    let c = choose|c: u32|
                        first_free(before, *bpb, c as int) && #[trigger] extended(
                            before,
                            *bpb,
                            dc,
                            c,
                        ) == disk@;
                    assert(grown(d0, before, *bpb, dc, n, round as nat));
                    assert(extended(before, *bpb, dc, c) == disk@);
                    assert(grown(d0, disk@, *bpb, dc, n, (round + 1) as nat));
                    assert(first_free(before, *bpb, c as int));
                }
            },
        }
        round = round + 1;
    }
    proof {
        if res is Ok {
            assert(run_written(wd, *bpb, dc, views_u8(entries@), wl, wm) == (disk@, true));
            assert(grown(d0, wd, *bpb, dc, n, wn));
        }
    }
    res
}

/// Writes each entry into its slot, then the end marker when asked for.
fn write_run(
    bpb: &Bpb,
    disk: &mut Disk,
    dir_cluster: u32,
    entries: &[Vec<u8>],
    locations: &Vec<(u32, usize)>,
    needs_end_marker: bool,
) -> (r: Result<(), FsError>)
    requires
        bpb.wf(),
        all_slots(entries@),
        forall|i: int| 0 <= i < locations@.len() ==> (#[trigger] locations@[i]).1 + 32 <= 512,
    ensures
        (final(disk)@, r is Ok) == run_written(
            old(disk)@,
            *bpb,
            dir_cluster as int,
            views_u8(entries@),
            locations@,
            needs_end_marker,
        ),
        r matches Err(e) ==> e == FsError::Io,
        volume_on_disk(old(disk)@, *bpb) && (forall|i: int|
            0 <= i < locations@.len() ==> sector_in(old(disk)@, (#[trigger] locations@[i]).0 as int))
            ==> r is Ok,
        final(disk)@.len() == old(disk)@.len(),
{
    let ghost d0 = disk@;
    let ghost m: int = if entries@.len() < locations@.len() {
        entries@.len() as int
    } else {
        locations@.len() as int
    };
    let mut i: usize = 0;
    let mut res: Result<(), FsError> = Ok(());
    while i < entries.len() && i < locations.len()
        invariant_except_break
            res is Ok,
            slots_written(d0, views_u8(entries@), locations@, i as int) == (disk@, true),
        invariant
            all_slots(entries@),
            forall|k: int| 0 <= k < locations@.len() ==> (#[trigger] locations@[k]).1 + 32 <= 512,
            disk@.len() == d0.len(),
            i <= m,
            m == (if entries@.len() < locations@.len() {
                entries@.len() as int
            } else {
                locations@.len() as int
            }),
            res matches Err(e) ==> e == FsError::Io && slots_written(d0, views_u8(entries@), locations@, m)
                == (disk@, false),
        ensures
            res is Ok ==> slots_written(d0, views_u8(entries@), locations@, m) == (disk@, true),
        decreases entries@.len() - i,
    {
        let (lba, offset) = locations[i];
        assert(locations@[i as int].1 + 32 <= 512);
        assert(entries@[i as int]@.len() == 32);
        if write_dir_slot(disk, lba, offset, entries[i].as_slice()).is_err() {
            proof {
                assert(slots_written(d0, views_u8(entries@), locations@, i + 1) == (disk@, false));
                lemma_slots_written_stuck(d0, views_u8(entries@), locations@, i + 1, m);
            }
            res = Err(FsError::Io);
            break;
        }
        i = i + 1;
    }
    proof {
        if volume_on_disk(d0, *bpb) && (forall|k: int|
            0 <= k < locations@.len() ==> sector_in(d0, (#[trigger] locations@[k]).0 as int)) {
            assert forall|k: int| 0 <= k < views_u8(entries@).len() implies (#[trigger] views_u8(entries@)[k]).len() == 32 by {
                assert(entries@[k]@.len() == 32);
            }
            lemma_slots_written_ok(d0, views_u8(entries@), locations@, m);
        }
    }
    if res.is_err() {
        return res;
    }
    if needs_end_marker && locations.len() > 0 {
        let (lba, offset) = locations[locations.len() - 1];
        proof {
            if volume_on_disk(d0, *bpb) {
                assert(volume_on_disk(disk@, *bpb));
                lemma_chain_valid(disk@, *bpb, dir_cluster as int, chain_fuel());
                let cs = chain(disk@, *bpb, dir_cluster as int);
                assert forall|k: int| 0 <= k < cs.len() implies 2 <= #[trigger] cs[k] < bpb.entry_count() by {
                    assert(valid_cluster(*bpb, cs[k] as int));
                }
                lemma_sectors_of_in(disk@, *bpb, cs);
                lemma_slot_after_in(disk@, sectors_of(*bpb, cs), lba, offset);
            }
        }
        return write_dir_end_marker_after(bpb, disk, dir_cluster, lba, offset);
    }
    Ok(())
}

} // verus!

verus! {

// ── Short names for new entries ─────────────────────────────────────────────

/// Whether a short entry from slot `k` on carries the 8.3 name `name`,
/// leaving out the slot at `exclude`; an unreadable sector counts as a
/// clash.
pub open spec fn short_scan(
    d: Seq<u8>,
    secs: Seq<u32>,
    k: int,
    name: Seq<u8>,
    exclude: Option<(u32, usize)>,
) -> bool
    decreases secs.len() * 16 - k,
{
    if k < 0 || k >= secs.len() * 16 {
        false
    } else if !sector_in(d, secs[k / 16] as int) {
        true
    } else {
        let slot = slot_at(d, secs, k);
        if slot[0] == 0 {
            false
        } else if slot[0] == 0xE5 || slot[11] == 0x0F {
            short_scan(d, secs, k + 1, name, exclude)
        } else if slot.take(11) == name && exclude != Some(slot_pos(secs, k)) {
            true
        } else {
            short_scan(d, secs, k + 1, name, exclude)
        }
    }
}

pub open spec fn short_exists(
    d: Seq<u8>,
    bpb: Bpb,
    dir_cluster: int,
    name: Seq<u8>,
    exclude: Option<(u32, usize)>,
) -> bool {
    short_scan(d, sectors_of(bpb, chain(d, bpb, dir_cluster)), 0, name, exclude)
}

fn short_in(disk: &Disk, sectors: &[u32], name83: &[u8], exclude: Option<(u32, usize)>) -> (r: bool)
    ensures
        r == short_scan(disk@, sectors@, 0, name83@, exclude),
{
    let ghost d = disk@;
    let ghost secs = sectors@;
    let ghost goal = short_scan(d, secs, 0, name83@, exclude);
    let mut buf: Vec<u8> = zeroed(512);
    let mut si: usize = 0;
    while si < sectors.len()
        invariant
            d == disk@,
            secs == sectors@,
            buf@.len() == 512,
            si <= secs.len(),
            goal == short_scan(d, secs, 0, name83@, exclude),
            goal == short_scan(d, secs, si * 16, name83@, exclude),
        decreases secs.len() - si,
    {
        let lba = sectors[si];
        proof {
            lemma_sector_unreadable(d, secs, si as int);
        }
        if !disk.read_sector(lba, &mut buf) {
            return true;
        }
        let mut off: usize = 0;
        while off < 16
            invariant
                d == disk@,
                secs == sectors@,
                si < secs.len(),
                lba == secs[si as int],
                sector_in(d, lba as int),
                buf@ == sector_of(d, lba as int),
                off <= 16,
                goal == short_scan(d, secs, 0, name83@, exclude),
                goal == short_scan(d, secs, si * 16 + off, name83@, exclude),
            decreases 16 - off,
        {
            let ghost k = si * 16 + off;
            proof {
                lemma_slot_in_sector(d, secs, si as int, off as int, buf@);
                lemma_slot_pos(secs, si as int, off as int);
            }
            let slot = copy_bytes(buf.as_slice(), off * 32, off * 32 + 32);
            assert(slot@ == slot_at(d, secs, k));
            if slot[0] == 0x00 {
                return false;
            }
            if slot[0] != 0xE5 && slot[11] != ATTR_LFN {
                let name = copy_bytes(slot.as_slice(), 0, 11);
                let excluded = match exclude {
                    Some((el, eo)) => el == lba && eo == off * 32,
                    None => false,
                };
                assert(excluded == (exclude == Some(slot_pos(secs, k))));
                if !excluded && bytes_eq(name.as_slice(), name83) {
                    return true;
                }
            }
            off = off + 1;
            assert(si * 16 + off == k + 1);
        }
        si = si + 1;
        assert(si * 16 == (si - 1) * 16 + 16);
    }
    false
}

/// Whether another short entry of the directory already uses `name83`.
pub fn short_name_exists_except(
    bpb: &Bpb,
    disk: &Disk,
    dir_cluster: u32,
    name83: &[u8],
    exclude: Option<(u32, usize)>,
) -> (r: bool)
    requires
        bpb.wf(),
    ensures
        r == short_exists(disk@, *bpb, dir_cluster as int, name83@, exclude),
{
    let sectors = bpb.cluster_chain_sectors(disk, dir_cluster);
    short_in(disk, sectors.as_slice(), name83, exclude)
}

/// Decimal digits of `n` as ASCII bytes.
pub open spec fn dec_b(n: nat) -> Seq<u8>
    decreases n,
{
    if n < 10 {
        seq![(48 + n) as u8]
    } else {
        dec_b(n / 10).push((48 + n % 10) as u8)
    }
}

proof fn lemma_dec_b_len(n: nat)
    ensures
        dec_b(n).len() >= 1,
        n < 10 ==> dec_b(n).len() <= 1,
        n < 100 ==> dec_b(n).len() <= 2,
        n < 1000 ==> dec_b(n).len() <= 3,
        n < 10000 ==> dec_b(n).len() <= 4,
        n < 100000 ==> dec_b(n).len() <= 5,
        n < 1_000_000 ==> dec_b(n).len() <= 6,
    decreases n,
{
    if n >= 10 {
        lemma_dec_b_len(n / 10);
    }
}

pub fn decimal_bytes(value: u32) -> (r: Vec<u8>)
    ensures
        r@ == dec_b(value as nat),
    decreases value,
{
    if value < 10 {
        let v = vec![48 + value as u8];
        assert(v@ =~= dec_b(value as nat));
        v
    } else {
        let mut v = decimal_bytes(value / 10);
        v.push(48 + (value % 10) as u8);
        v
    }
}

/// The bytes kept in a short-name component: upper-cased, and only those
/// allowed in 8.3 names.
pub open spec fn keep_short(s: Seq<u8>) -> Seq<u8>
    decreases s.len(),
{
    if s.len() == 0 {
        Seq::empty()
    } else {
        let p = keep_short(s.drop_last());
        if valid_short_char(up_b(s.last())) {
            p.push(up_b(s.last()))
        } else {
            p
        }
    }
}

pub open spec fn sanitized(s: Seq<u8>, fallback: Seq<u8>) -> Seq<u8> {
    if keep_short(s).len() == 0 {
        fallback
    } else {
        keep_short(s)
    }
}

pub fn sanitize_short_component(component: &[u8], fallback: &[u8]) -> (r: Vec<u8>)
    ensures
        r@ == sanitized(component@, fallback@),
{
    let mut out: Vec<u8> = Vec::new();
    let mut i: usize = 0;
    assert(component@.take(0) =~= Seq::<u8>::empty());
    while i < component.len()
        invariant
            i <= component@.len(),
            out@ == keep_short(component@.take(i as int)),
        decreases component@.len() - i,
    {
        assert(component@.take(i + 1).drop_last() =~= component@.take(i as int));
        let upper = up_byte(component[i]);
        if is_valid_short_name_char(upper) {
            out.push(upper);
        }
        i = i + 1;
    }
    assert(component@.take(component@.len() as int) =~= component@);
    if out.len() == 0 {
        return copy_bytes(fallback, 0, fallback.len());
    }
    out
}

/// Stem and extension of a long name, split at its last dot (a leading dot
/// or a trailing one does not split).
pub open spec fn stem_ext(name: Seq<char>) -> (Seq<char>, Seq<char>) {
    match crate::text::rfind(name, '.') {
        None => (name, Seq::empty()),
        Some(p) => if p == 0 || p + 1 >= name.len() {
            (name, Seq::empty())
        } else {
            (name.take(p), name.skip(p + 1))
        },
    }
}

pub fn split_lfn_stem_ext(name: &[char]) -> (r: (Vec<char>, Vec<char>))
    ensures
        (r.0@, r.1@) == stem_ext(name@),
{
    proof {
        lemma_rfind_range(name@, '.');
    }
    match crate::text::rfind_char(name, '.') {
        None => (crate::text::slice_chars(name, 0, name.len()), Vec::new()),
        Some(p) => {
            assert(p < name@.len());
            if p == 0 || p >= name.len() - 1 {
                assert(name@.subrange(0, name@.len() as int) =~= name@);
                (crate::text::slice_chars(name, 0, name.len()), Vec::new())
            } else {
                (crate::text::slice_chars(name, 0, p), crate::text::slice_chars(name, p + 1, name.len()))
            }
        },
    }
}

/// Candidate number `n` for a short alias: the base cut to make room for
/// `~n`, blank-padded to eight, then up to three extension bytes.
pub open spec fn alias_of(base: Seq<u8>, ext: Seq<u8>, n: nat) -> Seq<u8> {
    let suffix = seq![126u8] + dec_b(n);
    let p = if base.len() < 8 - suffix.len() {
        base.len() as int
    } else {
        8 - suffix.len()
    };
    let e = if ext.len() < 3 {
        ext.len() as int
    } else {
        3
    };
    base.take(p) + suffix + Seq::new((8 - p - suffix.len()) as nat, |i: int| 32u8) + ext.take(e)
        + Seq::new((3 - e) as nat, |i: int| 32u8)
}

/// Base and extension bytes a long name's alias is built from.
pub open spec fn alias_parts(name: Seq<char>) -> (Seq<u8>, Seq<u8>) {
    (
        sanitized(vstd::utf8::encode_utf8(stem_ext(name).0), "FILE"@.map_values(|c: char| c as u8)),
        sanitized(vstd::utf8::encode_utf8(stem_ext(name).1), Seq::empty()),
    )
}

fn alias_candidate(base: &[u8], ext: &[u8], n: u32) -> (r: Vec<u8>)
    requires
        1 <= n < 1_000_000,
    ensures
        r@ == alias_of(base@, ext@, n as nat),
        r@.len() == 11,
{
    let mut suffix: Vec<u8> = vec![126u8];
    let digits = decimal_bytes(n);
    proof {
        lemma_dec_b_len(n as nat);
    }
    let mut i: usize = 0;
    while i < digits.len()
        invariant
            i <= digits@.len(),
            digits@.len() <= 6,
            suffix@ == seq![126u8] + digits@.take(i as int),
        decreases digits@.len() - i,
    {
        suffix.push(digits[i]);
        i = i + 1;
        assert(suffix@ =~= seq![126u8] + digits@.take(i as int));
    }
    assert(digits@.take(digits@.len() as int) =~= digits@);
    let p = if base.len() < 8 - suffix.len() {
        base.len()
    } else {
        8 - suffix.len()
    };
    let mut out = copy_bytes(base, 0, p);
    let mut i: usize = 0;
    while i < suffix.len()
        invariant
            i <= suffix@.len(),
            out@ == base@.take(p as int) + suffix@.take(i as int),
        decreases suffix@.len() - i,
    {
        out.push(suffix[i]);
        i = i + 1;
        assert(out@ =~= base@.take(p as int) + suffix@.take(i as int));
    }
    assert(suffix@.take(suffix@.len() as int) =~= suffix@);
    let ghost head = out@;
    while out.len() < 8
        invariant
            head == base@.take(p as int) + suffix@,
            head.len() <= 8,
            head.len() <= out@.len() <= 8,
            out@ == head + Seq::new((out@.len() - head.len()) as nat, |i: int| 32u8),
        decreases 8 - out@.len(),
    {
        out.push(32);
        assert(out@ =~= head + Seq::new((out@.len() - head.len()) as nat, |i: int| 32u8));
    }
    let e = if ext.len() < 3 {
        ext.len()
    } else {
        3
    };
    let ghost mid = out@;
    let mut i: usize = 0;
    while i < 3
        invariant
            mid.len() == 8,
            e <= 3,
            e <= ext@.len(),
            i <= 3,
            out@ == mid + (if i <= e {
                ext@.take(i as int)
            } else {
                ext@.take(e as int) + Seq::new((i - e) as nat, |k: int| 32u8)
            }),
        decreases 3 - i,
    {
        if i < e {
            out.push(ext[i]);
        } else {
            out.push(32);
        }
        i = i + 1;
        assert(out@ =~= mid + (if i <= e {
            ext@.take(i as int)
        } else {
            ext@.take(e as int) + Seq::new((i - e) as nat, |k: int| 32u8)
        }));
    }
    assert(out@ =~= alias_of(base@, ext@, n as nat));
    out
}

/// A short alias for a long name: the first `BASE~n.EXT` candidate no
/// other entry of the directory uses.
pub fn generate_short_alias(
    bpb: &Bpb,
    disk: &Disk,
    dir_cluster: u32,
    name: &[char],
    exclude: Option<(u32, usize)>,
) -> (r: Result<Vec<u8>, FsError>)
    requires
        bpb.wf(),
    ensures
        match r {
            Ok(c) => exists|n: nat|
                1 <= n < 1_000_000 && c@ == alias_of(alias_parts(name@).0, alias_parts(name@).1, n)
                    && !short_exists(disk@, *bpb, dir_cluster as int, c@, exclude) && forall|m: nat|
                    1 <= m < n ==> #[trigger] short_exists(
                        disk@,
                        *bpb,
                        dir_cluster as int,
                        alias_of(alias_parts(name@).0, alias_parts(name@).1, m),
                        exclude,
                    ),
            Err(e) => e == FsError::NoSpace && forall|m: nat|
                1 <= m < 1_000_000 ==> #[trigger] short_exists(
                    disk@,
                    *bpb,
                    dir_cluster as int,
                    alias_of(alias_parts(name@).0, alias_parts(name@).1, m),
                    exclude,
                ),
        },
        r matches Ok(c) ==> c@.len() == 11,
{
    let (stem, ext) = split_lfn_stem_ext(name);
    let fallback = vec![70u8, 73u8, 76u8, 69u8];
    proof {
        reveal_strlit("FILE");
        assert(fallback@ =~= "FILE"@.map_values(|c: char| c as u8));
    }
    let base = sanitize_short_component(utf8_bytes(stem.as_slice()).as_slice(), fallback.as_slice());
    let none: Vec<u8> = Vec::new();
    let ext_b = sanitize_short_component(utf8_bytes(ext.as_slice()).as_slice(), none.as_slice());
    assert(ext_b@ == alias_parts(name@).1) by {
        assert(Seq::<u8>::empty() =~= none@);
    }
    let ghost bp = alias_parts(name@).0;
    let ghost ep = alias_parts(name@).1;
    let mut counter: u32 = 1;
    while counter < 1_000_000
        invariant
            bpb.wf(),
            bp == alias_parts(name@).0,
            ep == alias_parts(name@).1,
            base@ == bp,
            ext_b@ == ep,
            1 <= counter <= 1_000_000,
            forall|m: nat|
                1 <= m < counter ==> #[trigger] short_exists(
                    disk@,
                    *bpb,
                    dir_cluster as int,
                    alias_of(bp, ep, m),
                    exclude,
                ),
        decreases 1_000_000 - counter,
    {
        let candidate = alias_candidate(base.as_slice(), ext_b.as_slice(), counter);
        if !short_name_exists_except(bpb, disk, dir_cluster, candidate.as_slice(), exclude) {
            proof {
                let n = counter as nat;
                assert(1 <= n < 1_000_000 && candidate@ == alias_of(
                    alias_parts(name@).0,
                    alias_parts(name@).1,
                    n,
                ) && !short_exists(
                    disk@,
                    *bpb,
                    dir_cluster as int,
                    candidate@,
                    exclude,
                ) && forall|m: nat|
                    1 <= m < n ==> #[trigger] short_exists(
                        disk@,
                        *bpb,
                        dir_cluster as int,
                        alias_of(alias_parts(name@).0, alias_parts(name@).1, m),
                        exclude,
                    ));
            }
            return Ok(candidate);
        }
        counter = counter + 1;
    }
    Err(FsError::NoSpace)
}

} // verus!

verus! {

// ── Names for new entries ───────────────────────────────────────────────────

/// The 8.3 name and the long-name slots a new entry is written with.
pub struct FatName {
    pub short: Vec<u8>,
    pub lfn_entries: Vec<Vec<u8>>,
}

proof fn lemma_lfn_fill_len(b: Seq<u8>, chunk: Seq<u16>, i: nat)
    requires
        i <= 13,
        b.len() == 32,
    ensures
        lfn_fill(b, chunk, i).len() == 32,
    decreases i,
{
    if i > 0 {
        lemma_lfn_fill_len(b, chunk, (i - 1) as nat);
        assert(lfn_offset(i - 1) + 2 <= 32) by {
            reveal_with_fuel(lfn_offset, 1);
        }
    }
}

proof fn lemma_lfn_entries_len(name: Seq<char>, sum: u8)
    ensures
        forall|i: int|
            0 <= i < lfn_entries(name, sum).len() ==> (#[trigger] lfn_entries(name, sum)[i]).len()
                == 32,
{
    let units = utf16_encode(name);
    let count = (units.len() + 12) / 13;
    assert forall|i: int| 0 <= i < lfn_entries(name, sum).len() implies (#[trigger] lfn_entries(
        name,
        sum,
    )[i]).len() == 32 by {
        let seq = count - i;
        let start = (seq - 1) * 13;
        let end = if start + 13 < units.len() {
            start + 13
        } else {
            units.len() as int
        };
        let head = Seq::new(32, |k: int| 0u8).update(
            0,
            (seq + if seq == count {
                64int
            } else {
                0
            }) as u8,
        ).update(11, 0x0Fu8).update(13, sum);
        lemma_lfn_fill_len(head, units.subrange(start, end), 13);
    }
}

/// Chooses the name a new entry is written with: a name that fits 8.3
/// rules is stored as it is (refused when another entry uses it); any other
/// name gets a short alias and long-name slots.
pub fn encode_name_for_dir(
    bpb: &Bpb,
    disk: &Disk,
    dir_cluster: u32,
    name: &[char],
    exclude: Option<(u32, usize)>,
) -> (r: Result<FatName, FsError>)
    requires
        bpb.wf(),
    ensures
        match checked83(vstd::utf8::encode_utf8(name@)) {
            Ok(s) => if short_exists(disk@, *bpb, dir_cluster as int, s, exclude) {
                r == Err::<FatName, FsError>(FsError::AlreadyExists)
            } else {
                r matches Ok(f) && f.short@ == s && f.lfn_entries@.len() == 0
            },
            Err(_) => match lfn_name_check(name@) {
                Err(e) => r == Err::<FatName, FsError>(e),
                Ok(_) => match r {
                    Ok(f) => !short_exists(disk@, *bpb, dir_cluster as int, f.short@, exclude)
                        && views_u8(f.lfn_entries@) == lfn_entries(name@, lfn_sum(f.short@)),
                    Err(e) => e == FsError::NoSpace || e == FsError::UnsupportedName,
                },
            },
        },
        r matches Ok(f) ==> f.short@.len() == 11 && all_slots(f.lfn_entries@),
{
    let bytes = utf8_bytes(name);
    match name_to_83_checked(bytes.as_slice()) {
        Ok(short) => {
            proof {
                lemma_checked83_len(bytes@);
            }
            if short_name_exists_except(bpb, disk, dir_cluster, short.as_slice(), exclude) {
                return Err(FsError::AlreadyExists);
            }
            let f = FatName { short, lfn_entries: Vec::new() };
            assert(all_slots(f.lfn_entries@));
            Ok(f)
        },
        Err(_) => {
            validate_lfn_name(name)?;
            let short = generate_short_alias(bpb, disk, dir_cluster, name, exclude)?;
            let lfn = match encode_lfn_entries(name, short.as_slice()) {
                Ok(v) => v,
                Err(e) => {
                    return Err(e);
                },
            };
            proof {
                lemma_lfn_entries_len(name@, lfn_sum(short@));
                assert forall|i: int| 0 <= i < lfn@.len() implies (#[trigger] lfn@[i])@.len()
                    == 32 by {
                    assert(views_u8(lfn@)[i] == lfn@[i]@);
                }
            }
            Ok(FatName { short, lfn_entries: lfn })
        },
    }
}

proof fn lemma_checked83_len(name: Seq<u8>)
    ensures
        checked83(name) matches Ok(s) ==> s.len() == 11,
{
}

} // verus!

verus! {

// ── Creating, writing, renaming and deleting ────────────────────────────────

proof fn lemma_find_scan_shape(
    d: Seq<u8>,
    secs: Seq<u32>,
    k: int,
    frags: Seq<(u8, bool, u8, Seq<u16>)>,
    locs: Seq<(u32, usize)>,
    name: Seq<u8>,
)
    requires
        slots_fit(locs),
    ensures
        find_scan(d, secs, k, frags, locs, name) matches Some(l) ==> l.2 + 32 <= 512 && slots_fit(
            l.3,
        ),
    decreases secs.len() * 16 - k,
{
    if k < 0 || k >= secs.len() * 16 {
    } else if !sector_in(d, secs[k / 16] as int) {
    } else {
        let slot = slot_at(d, secs, k);
        assert((k % 16) * 32 + 32 <= 512) by (nonlinear_arith)
            requires
                k >= 0,
        ;
        if slot[0] == 0 {
        } else if slot[0] == 0xE5 {
            lemma_find_scan_shape(d, secs, k + 1, Seq::empty(), Seq::empty(), name);
        } else if slot[11] == 0x0F {
            if lfn_fragment_ok(slot) {
                let locs1 = locs.push(slot_pos(secs, k));
                assert(slots_fit(locs1)) by {
                    assert forall|i: int| 0 <= i < locs1.len() implies (#[trigger] locs1[i]).1 + 32
                        <= 512 by {
                        if i < locs.len() {
                            assert(locs1[i] == locs[i]);
                        }
                    }
                }
                lemma_find_scan_shape(d, secs, k + 1, frags.push(slot_frag(slot)), locs1, name);
            } else {
                lemma_find_scan_shape(d, secs, k + 1, Seq::empty(), Seq::empty(), name);
            }
        } else if entry_hit(slot, frags, name) {
        } else {
            lemma_find_scan_shape(d, secs, k + 1, Seq::empty(), Seq::empty(), name);
        }
    }
}

proof fn lemma_find_in_shape(d: Seq<u8>, bpb: Bpb, cluster: int, name: Seq<u8>)
    ensures
        find_in(d, bpb, cluster, name) matches Some(l) ==> l.2 + 32 <= 512 && slots_fit(l.3),
{
    lemma_find_scan_shape(
        d,
        sectors_of(bpb, chain(d, bpb, cluster)),
        0,
        Seq::empty(),
        Seq::empty(),
        name,
    );
}

/// The volume, the parent directory's first cluster and the final name of
/// the entry at `path`.
pub open spec fn entry_target(d: Seq<u8>, path: Seq<char>) -> Result<(Bpb, u32, Seq<char>), FsError> {
    match split_parent(path) {
        Err(e) => Err(e),
        Ok((parent, name)) => match bpb_of(d) {
            None => Err(FsError::Io),
            Some(b) => if !b.wf() {
                Err(FsError::Io)
            } else {
                match resolve_path(d, b, parent) {
                    Err(e) => Err(e),
                    Ok(c) => Ok((b, c, name)),
                }
            },
        },
    }
}

fn load_target(disk: &Disk, path: &[char]) -> (r: Result<(Bpb, u32, Vec<char>), FsError>)
    ensures
        match r {
            Ok((b, c, n)) => entry_target(disk@, path@) == Ok::<
                (Bpb, u32, Seq<char>),
                FsError,
            >((b, c, n@)) && b.wf(),
            Err(e) => entry_target(disk@, path@) == Err::<(Bpb, u32, Seq<char>), FsError>(e),
        },
{
    let (parent, name) = split_parent_and_name(path)?;
    let bpb = match Bpb::load(disk) {
        Some(b) => b,
        None => {
            return Err(FsError::Io);
        },
    };
    if !bpb.is_wf() {
        return Err(FsError::Io);
    }
    let cluster = resolve_dir_cluster(&bpb, disk, parent.as_slice())?;
    Ok((bpb, cluster, name))
}

/// Why a new entry cannot be made at `path` before anything is written.
pub open spec fn create_check(d: Seq<u8>, path: Seq<char>) -> Result<(), FsError> {
    match entry_target(d, path) {
        Err(e) => Err(e),
        Ok((b, c, n)) => if find_in(d, b, c as int, vstd::utf8::encode_utf8(n)) is Some {
            Err(FsError::AlreadyExists)
        } else {
            Ok(())
        },
    }
}

/// The short name `s` and long-name slots `lfn` a new entry named `name`
/// gets in the directory at `dir_cluster`: a name that fits 8.3 rules as it
/// is, with no slots; any other name a short alias that no entry there
/// uses, with the slots of its long name.
pub open spec fn name_chosen(
    d: Seq<u8>,
    bpb: Bpb,
    dir_cluster: int,
    name: Seq<char>,
    s: Seq<u8>,
    lfn: Seq<Seq<u8>>,
) -> bool {
    name_chosen_in(d, bpb, dir_cluster, name, s, lfn, None)
}

/// As [`name_chosen`], where the slot at `exclude` (the entry being
/// renamed) does not count as using a short name.
pub open spec fn name_chosen_in(
    d: Seq<u8>,
    bpb: Bpb,
    dir_cluster: int,
    name: Seq<char>,
    s: Seq<u8>,
    lfn: Seq<Seq<u8>>,
    exclude: Option<(u32, usize)>,
) -> bool {
    s.len() == 11 && match checked83(vstd::utf8::encode_utf8(name)) {
        Ok(s0) => s == s0 && lfn.len() == 0,
        Err(_) => !short_exists(d, bpb, dir_cluster, s, exclude) && lfn == lfn_entries(
            name,
            lfn_sum(s),
        ),
    }
}

/// The slots a new entry takes: its long-name slots, then its short entry.
pub open spec fn new_slots(lfn: Seq<Seq<u8>>, s: Seq<u8>, attr: u8, first_cluster: int) -> Seq<Seq<u8>> {
    lfn.push(dir_entry_bytes(s, attr, first_cluster, 0))
}

/// The error a name that fits neither 8.3 nor long-name rules gives.
pub open spec fn name_error(d: Seq<u8>, path: Seq<char>) -> Option<FsError> {
    match entry_target(d, path) {
        Ok(t) => if checked83(vstd::utf8::encode_utf8(t.2)) is Err {
            match lfn_name_check(t.2) {
                Err(e) => Some(e),
                Ok(_) => None,
            }
        } else {
            None
        },
        Err(_) => None,
    }
}

fn prepare_create(disk: &Disk, path: &[char]) -> (r: Result<(Bpb, u32, FatName), FsError>)
    ensures
        create_check(disk@, path@) matches Err(e) ==> r matches Err(e2) && e2 == e,
        create_check(disk@, path@) is Ok && name_error(disk@, path@) is Some ==> (r matches Err(e)
            && Some(e) == name_error(disk@, path@)),
        create_check(disk@, path@) is Ok ==> r != Err::<(Bpb, u32, FatName), FsError>(FsError::Io),
        r matches Ok((b, c, f)) ==> create_check(disk@, path@) is Ok && b.wf() && f.short@.len()
            == 11 && all_slots(f.lfn_entries@) && (entry_target(disk@, path@) matches Ok(t) && t.0
            == b && t.1 == c && name_chosen(
            disk@,
            b,
            c as int,
            t.2,
            f.short@,
            views_u8(f.lfn_entries@),
        )),
{
    let (bpb, cluster, name) = load_target(disk, path)?;
    let bytes = utf8_bytes(name.as_slice());
    if find_entry(&bpb, disk, cluster, bytes.as_slice()).is_some() {
        return Err(FsError::AlreadyExists);
    }
    let fat_name = encode_name_for_dir(&bpb, disk, cluster, name.as_slice(), None)?;
    Ok((bpb, cluster, fat_name))
}

/// Creates an empty file at `path`.
/// `d1` is `d0` with an empty file created at `path`: the parent directory
/// (grown when it had no room) holds the new name's slots, the short entry
/// an empty archive.
pub open spec fn created(d0: Seq<u8>, path: Seq<char>, d1: Seq<u8>) -> bool {
    create_check(d0, path) is Ok && (entry_target(d0, path) matches Ok(
            t,
        ) && exists|
            s: Seq<u8>,
            lfn: Seq<Seq<u8>>,
            n: nat,
            dg: Seq<u8>,
            locs: Seq<(u32, usize)>,
            marker: bool,
        |
            name_chosen(d0, t.0, t.1 as int, t.2, s, lfn) && #[trigger] grown(
                d0,
                dg,
                t.0,
                t.1 as int,
                lfn.len() + 1int,
                n,
            ) && free_run(dg, t.0, t.1 as int, lfn.len() + 1int) == Ok::<
                Option<(Seq<(u32, usize)>, bool)>,
                FsError,
            >(Some((locs, marker))) && #[trigger] run_written(
                dg,
                t.0,
                t.1 as int,
                new_slots(lfn, s, ATTR_ARCHIVE, 0),
                locs,
                marker,
            ) == (d1, true))
}

pub fn create_file(disk: &mut Disk, path: &str) -> (r: Result<(), FsError>)
    ensures
        create_check(old(disk)@, path@) is Ok && (entry_target(old(disk)@, path@) matches Ok(t)
            && volume_on_disk(old(disk)@, t.0) && chain(old(disk)@, t.0, t.1 as int).len() > 0) ==> r
            != Err::<(), FsError>(FsError::Io),
        create_check(old(disk)@, path@) is Ok && name_error(old(disk)@, path@) is Some ==> Some(
            r->Err_0,
        ) == name_error(old(disk)@, path@) && r is Err && final(disk)@ == old(disk)@,
        create_check(old(disk)@, path@) matches Err(e) ==> r == Err::<(), FsError>(e)
            && final(disk)@ == old(disk)@,
        r is Ok ==> created(old(disk)@, path@, final(disk)@),
        r == Err::<(), FsError>(FsError::AlreadyExists) ==> final(disk)@ == old(disk)@,
        final(disk)@.len() == old(disk)@.len(),
{
    let p = crate::text::chars_of(path);
    let (bpb, parent_cluster, fat_name) = prepare_create(disk, p.as_slice())?;
    let ghost s = fat_name.short@;
    let ghost lfn = views_u8(fat_name.lfn_entries@);
    let mut entries = fat_name.lfn_entries;
    let short = encode_dir_entry(fat_name.short.as_slice(), ATTR_ARCHIVE, 0, 0);
    entries.push(short);
    assert(all_slots(entries@));
    assert(views_u8(entries@) =~= new_slots(lfn, s, ATTR_ARCHIVE, 0));
    append_dir_entries(&bpb, disk, parent_cluster, entries.as_slice())
}

/// Creates an empty directory at `path`, with its `.` and `..` entries.
/// The disk after a new directory takes cluster `c`: the cluster is taken
/// and its first sector holds the `.` and `..` entries.
pub open spec fn dir_started(d: Seq<u8>, bpb: Bpb, c: u32, parent: int) -> Seq<u8> {
    let t = taken_one(d, bpb, c as int);
    with_sector(t, bpb.lba_of(c as int), dir_head(c as int, parent))
}

pub fn create_dir(disk: &mut Disk, path: &str) -> (r: Result<(), FsError>)
    ensures
        create_check(old(disk)@, path@) is Ok && (entry_target(old(disk)@, path@) matches Ok(t)
            && volume_on_disk(old(disk)@, t.0) && chain(old(disk)@, t.0, t.1 as int).len() > 0) ==> r
            != Err::<(), FsError>(FsError::Io),
        create_check(old(disk)@, path@) is Ok && name_error(old(disk)@, path@) is Some ==> Some(
            r->Err_0,
        ) == name_error(old(disk)@, path@) && r is Err && final(disk)@ == old(disk)@,
        create_check(old(disk)@, path@) matches Err(e) ==> r == Err::<(), FsError>(e)
            && final(disk)@ == old(disk)@,
        r is Ok ==> create_check(old(disk)@, path@) is Ok && (entry_target(old(disk)@, path@) matches Ok(
            t,
        ) && exists|
            c: u32,
            s: Seq<u8>,
            lfn: Seq<Seq<u8>>,
            n: nat,
            d1: Seq<u8>,
            locs: Seq<(u32, usize)>,
            marker: bool,
        |
            first_free(old(disk)@, t.0, c as int) && name_chosen(
                old(disk)@,
                t.0,
                t.1 as int,
                t.2,
                s,
                lfn,
            ) && #[trigger] grown(
                dir_started(old(disk)@, t.0, c, t.1 as int),
                d1,
                t.0,
                t.1 as int,
                lfn.len() + 1int,
                n,
            ) && free_run(d1, t.0, t.1 as int, lfn.len() + 1int) == Ok::<
                Option<(Seq<(u32, usize)>, bool)>,
                FsError,
            >(Some((locs, marker))) && #[trigger] run_written(
                d1,
                t.0,
                t.1 as int,
                new_slots(lfn, s, ATTR_DIRECTORY, c as int),
                locs,
                marker,
            ) == (final(disk)@, true)),
        final(disk)@.len() == old(disk)@.len(),
{
    let ghost d0 = disk@;
    let p = crate::text::chars_of(path);
    let (bpb, parent_cluster, fat_name) = prepare_create(disk, p.as_slice())?;
    let ghost s = fat_name.short@;
    let ghost lfn = views_u8(fat_name.lfn_entries@);
    let new_cluster = alloc_cluster(&bpb, disk)?;
    assert(valid_cluster(bpb, new_cluster as int));
    proof {
        if volume_on_disk(d0, bpb) {
            assert(volume_on_disk(disk@, bpb));
            lemma_cluster_sector_in(disk@, bpb, new_cluster as int, 0);
        }
    }
    if let Err(err) = init_directory_cluster(&bpb, disk, new_cluster, parent_cluster) {
        let _ = free_single_cluster(&bpb, disk, new_cluster);
        return Err(err);
    }
    assert(disk@ == dir_started(d0, bpb, new_cluster, parent_cluster as int));
    let mut entries = fat_name.lfn_entries;
    let short = encode_dir_entry(fat_name.short.as_slice(), ATTR_DIRECTORY, new_cluster, 0);
    entries.push(short);
    assert(all_slots(entries@));
    assert(views_u8(entries@) =~= new_slots(lfn, s, ATTR_DIRECTORY, new_cluster as int));
    if let Err(err) = append_dir_entries(&bpb, disk, parent_cluster, entries.as_slice()) {
        let _ = free_single_cluster(&bpb, disk, new_cluster);
        return Err(err);
    }
    Ok(())
}

/// Why the file at `path` cannot be written before anything is written.
pub open spec fn file_check(d: Seq<u8>, path: Seq<char>) -> Result<(), FsError> {
    match entry_target(d, path) {
        Err(e) => Err(e),
        Ok((b, c, n)) => match find_in(d, b, c as int, vstd::utf8::encode_utf8(n)) {
            None => Err(FsError::NotFound),
            Some(l) => if (l.0.1 & 0x10) != 0 {
                Err(FsError::InvalidPath)
            } else {
                Ok(())
            },
        },
    }
}

fn locate(disk: &Disk, path: &[char]) -> (r: Result<(Bpb, u32, DirEntryLocation), FsError>)
    ensures
        match r {
            Ok((b, c, l)) => entry_target(disk@, path@) matches Ok(t) && t.0 == b && t.1 == c
                && find_in(disk@, b, c as int, vstd::utf8::encode_utf8(t.2)) == Some(loc_view(l))
                && b.wf() && l.offset + 32 <= 512 && slots_fit(l.lfn_locations@),
            Err(e) => match entry_target(disk@, path@) {
                Err(e2) => e == e2,
                Ok(t) => e == FsError::NotFound && find_in(
                    disk@,
                    t.0,
                    t.1 as int,
                    vstd::utf8::encode_utf8(t.2),
                ) is None,
            },
        },
{
    let (bpb, cluster, name) = load_target(disk, path)?;
    let bytes = utf8_bytes(name.as_slice());
    proof {
        lemma_find_in_shape(disk@, bpb, cluster as int, bytes@);
    }
    match find_entry_location(&bpb, disk, cluster, bytes.as_slice()) {
        Some(l) => Ok((bpb, cluster, l)),
        None => Err(FsError::NotFound),
    }
}

/// Replaces the contents of the file at `path` with `data`: the data goes
/// to a newly allocated chain, the entry is pointed at it, and the old
/// chain is freed.
/// The disk with the short entry at `(lba, off)` pointing at `first` and
/// holding `size` bytes.
pub open spec fn entry_updated(d: Seq<u8>, lba: u32, off: usize, first: u32, size: u32) -> Seq<u8> {
    with_sector(
        d,
        lba as int,
        put32(
            put16(
                put16(sector_of(d, lba as int), off + 20, (first / 65536) as int),
                off + 26,
                (first % 65536) as int,
            ),
            off + 28,
            size as int,
        ),
    )
}

/// The disk after new contents went into the clusters `v`: the clusters
/// taken and linked, the data written into them, then the entry found at
/// `l` pointed at them with the new size, then the old chain freed.
pub open spec fn rewritten(
    d: Seq<u8>,
    bpb: Bpb,
    l: ((Seq<u8>, u8, int, int), u32, usize, Seq<(u32, usize)>),
    v: Seq<u32>,
    data: Seq<u8>,
) -> Seq<u8> {
    let linked = fat_writes(taken(d, bpb, v), bpb, link_writes(v)).0;
    let filled = write_all(linked, data_writes(bpb, v, data)).0;
    let first: u32 = if v.len() > 0 {
        v[0]
    } else {
        0
    };
    let pointed = entry_updated(filled, l.1, l.2, first, data.len() as u32);
    if l.0.2 >= 2 {
        fat_writes(pointed, bpb, free_writes(chain(pointed, bpb, l.0.2))).0
    } else {
        pointed
    }
}

/// `d1` is `d0` with the file at `path` holding `data`: new clusters taken
/// in order, linked and filled, the entry pointed at them with the new
/// size, and the old clusters freed.
pub open spec fn rewrote(d0: Seq<u8>, path: Seq<char>, data: Seq<u8>, d1: Seq<u8>) -> bool {
    file_check(d0, path) is Ok && (entry_target(d0, path) matches Ok(t) && find_in(
        d0,
        t.0,
        t.1 as int,
        vstd::utf8::encode_utf8(t.2),
    ) matches Some(l) && exists|v: Seq<u32>|
        (data.len() == 0 <==> v.len() == 0) && taken_in_order(d0, t.0, v) && #[trigger] rewritten(
            d0,
            t.0,
            l,
            v,
            data,
        ) == d1)
}

#[verifier::rlimit(50)]
pub fn write_file(disk: &mut Disk, path: &str, data: &[u8]) -> (r: Result<(), FsError>)
    requires
        data@.len() <= u32::MAX,
    ensures
        file_check(old(disk)@, path@) matches Err(e) ==> r == Err::<(), FsError>(e)
            && final(disk)@ == old(disk)@,
        r is Ok ==> rewrote(old(disk)@, path@, data@, final(disk)@),
        file_check(old(disk)@, path@) is Ok && (bpb_of(old(disk)@) matches Some(b) && volume_on_disk(
            old(disk)@,
            b,
        )) ==> (r is Ok || r == Err::<(), FsError>(FsError::NoSpace)),
        final(disk)@.len() == old(disk)@.len(),
{
    let ghost d0 = disk@;
    let p = crate::text::chars_of(path);
    let (bpb, _parent, location) = locate(disk, p.as_slice())?;
    if location.entry.is_dir() {
        return Err(FsError::InvalidPath);
    }
    let old_first_cluster = location.entry.first_cluster();
    let ghost l = loc_view(location);
    let ghost vol = volume_on_disk(d0, bpb);
    proof {
        lemma_find_scan_sector(
            d0,
            sectors_of(bpb, chain(d0, bpb, _parent as int)),
            0,
            Seq::empty(),
            Seq::empty(),
            vstd::utf8::encode_utf8((entry_target(d0, p@)->Ok_0).2),
        );
        assert(sector_in(d0, location.lba as int));
    }
    let mut new_first_cluster: u32 = 0;
    let mut new_chain: Vec<u32> = Vec::new();
    proof {
        assert(link_writes(Seq::<u32>::empty()) =~= Seq::<(int, u32)>::empty());
        assert(data_writes(bpb, Seq::<u32>::empty(), data@) =~= Seq::<(int, Seq<u8>)>::empty());
    }
    if data.len() > 0 {
        let spc = bpb.sectors_per_cluster as u64;
        let sectors_needed = (data.len() as u64 + 511) / 512;
        let clusters_needed = (sectors_needed + spc - 1) / spc;
        proof {
            assert(clusters_needed * spc <= sectors_needed + spc) by (nonlinear_arith)
                requires
                    clusters_needed as int == (sectors_needed + spc - 1) as int / spc as int,
                    spc >= 1,
            ;
            assert(clusters_needed * spc * 512 <= (sectors_needed + spc) * 512) by (nonlinear_arith)
                requires
                    clusters_needed * spc <= sectors_needed + spc,
            ;
            assert(clusters_needed >= 1) by (nonlinear_arith)
                requires
                    clusters_needed as int == (sectors_needed + spc - 1) as int / spc as int,
                    spc >= 1,
                    sectors_needed >= 1,
            ;
        }
        if clusters_needed * spc * 512 + 512 > usize::MAX as u64 {
            return Err(FsError::NoSpace);
        }
        new_chain = alloc_cluster_chain(&bpb, disk, clusters_needed as usize)?;
        assert(forall|i: int| 0 <= i < new_chain@.len() ==> valid_cluster(bpb, #[trigger] new_chain@[i] as int));
        proof {
            if vol {
                lemma_data_writes_ok(disk@, bpb, new_chain@, data@);
            }
        }
        if let Err(err) = write_data_to_clusters(&bpb, disk, new_chain.as_slice(), data) {
            free_cluster_list(&bpb, disk, new_chain.as_slice())?;
            return Err(err);
        }
        new_first_cluster = new_chain[0];
    }
    let ghost v = new_chain@;
    let ghost filled = disk@;
    assert(filled == write_all(
        fat_writes(taken(d0, bpb, v), bpb, link_writes(v)).0,
        data_writes(bpb, v, data@),
    ).0);
    assert(taken_in_order(d0, bpb, v));
    assert(new_first_cluster == if v.len() > 0 { v[0] } else { 0u32 });
    let mut sec: Vec<u8> = zeroed(512);
    read_sector_exact(disk, location.lba, &mut sec)?;
    let off = location.offset;
    wr16(&mut sec, off + 20, (new_first_cluster / 65536) as u16);
    wr16(&mut sec, off + 26, (new_first_cluster % 65536) as u16);
    wr32(&mut sec, off + 28, data.len() as u32);
    if let Err(err) = write_sector_exact(disk, location.lba, sec.as_slice()) {
        if new_chain.len() > 0 {
            let _ = free_cluster_list(&bpb, disk, new_chain.as_slice());
        }
        return Err(err);
    }
    assert(disk@ == entry_updated(filled, l.1, l.2, new_first_cluster, data@.len() as u32));
    let ghost pointed = disk@;
    if old_first_cluster >= 2 {
        proof {
            if vol {
                lemma_chain_valid(disk@, bpb, old_first_cluster as int, chain_fuel());
                let fw = free_writes(chain(disk@, bpb, old_first_cluster as int));
                assert forall|k: int| 0 <= k < fw.len() implies 0 <= (#[trigger] fw[k]).0 < bpb.entry_count() by {
                    assert(valid_cluster(bpb, chain(disk@, bpb, old_first_cluster as int)[k] as int));
                }
                lemma_fat_writes_ok(disk@, bpb, fw);
            }
        }
        free_cluster_chain(&bpb, disk, old_first_cluster)?;
    }
    assert(rewritten(d0, bpb, l, v, data@) == disk@);
    Ok(())
}

/// Marks the entry's short slot and its long-name slots deleted.
pub fn mark_entry_location_deleted(disk: &mut Disk, location: &DirEntryLocation) -> (r: Result<
    (),
    FsError,
>)
    requires
        location.offset < 512,
        slots_fit(location.lfn_locations@),
    ensures
        (final(disk)@, r is Ok) == slots_deleted(
            old(disk)@,
            location.lfn_locations@.push((location.lba, location.offset)),
            location.lfn_locations@.len() + 1int,
        ),
        r matches Err(e) ==> e == FsError::Io,
        final(disk)@.len() == old(disk)@.len(),
{
    let ghost d0 = disk@;
    let ghost locs = location.lfn_locations@;
    let ghost all = locs.push((location.lba, location.offset));
    proof {
        lemma_slots_deleted_prefix(d0, locs, all, locs.len() as int);
    }
    let mut i: usize = 0;
    let mut res: Result<(), FsError> = Ok(());
    while i < location.lfn_locations.len()
        invariant_except_break
            res is Ok,
            slots_deleted(d0, locs, i as int) == (disk@, true),
        invariant
            locs == location.lfn_locations@,
            all == locs.push((location.lba, location.offset)),
            slots_deleted(d0, all, locs.len() as int) == slots_deleted(d0, locs, locs.len() as int),
            i <= locs.len(),
            slots_fit(location.lfn_locations@),
            disk@.len() == d0.len(),
            res matches Err(e) ==> e == FsError::Io && slots_deleted(d0, locs, locs.len() as int)
                == (disk@, false),
        ensures
            res is Ok ==> slots_deleted(d0, locs, locs.len() as int) == (disk@, true),
        decreases location.lfn_locations@.len() - i,
    {
        let (lba, offset) = location.lfn_locations[i];
        assert(location.lfn_locations@[i as int].1 + 32 <= 512);
        if mark_dir_slot_deleted(disk, lba, offset).is_err() {
            proof {
                assert(slots_deleted(d0, locs, i + 1) == (disk@, false));
                lemma_slots_deleted_stuck(d0, locs, i + 1, locs.len() as int);
            }
            res = Err(FsError::Io);
            break;
        }
        i = i + 1;
    }
    if res.is_err() {
        proof {
            lemma_slots_deleted_stuck(d0, all, locs.len() as int, locs.len() + 1int);
        }
        return res;
    }
    assert(all[locs.len() as int] == (location.lba, location.offset));
    mark_dir_slot_deleted(disk, location.lba, location.offset)
}

/// Why the entry at `path` cannot be deleted before anything is written:
/// it must exist, and a directory must be empty.
pub open spec fn delete_check(d: Seq<u8>, path: Seq<char>) -> Result<(), FsError> {
    match entry_target(d, path) {
        Err(e) => Err(e),
        Ok((b, c, n)) => match find_in(d, b, c as int, vstd::utf8::encode_utf8(n)) {
            None => Err(FsError::NotFound),
            Some(l) => if (l.0.1 & 0x10) != 0 && (dir_listing(d, path) matches Some(v) && v.len()
                > 0) {
                Err(FsError::NotEmpty)
            } else {
                Ok(())
            },
        },
    }
}

/// The disk after the entry found at `l` is deleted: its cluster chain
/// freed when it has one, then its long-name slots and its short slot
/// marked deleted; with whether every write landed.
pub open spec fn deleted_disk(
    d: Seq<u8>,
    bpb: Bpb,
    l: ((Seq<u8>, u8, int, int), u32, usize, Seq<(u32, usize)>),
) -> (Seq<u8>, bool) {
    let freed = if l.0.2 >= 2 {
        fat_writes(d, bpb, free_writes(chain(d, bpb, l.0.2)))
    } else {
        (d, true)
    };
    if !freed.1 {
        freed
    } else {
        slots_deleted(freed.0, l.3.push((l.1, l.2)), l.3.len() + 1int)
    }
}

/// `d1` is `d0` with the entry at `path` deleted (see [`deleted_disk`]).
pub open spec fn removed(d0: Seq<u8>, path: Seq<char>, d1: Seq<u8>) -> bool {
    delete_check(d0, path) is Ok && (entry_target(d0, path) matches Ok(t) && find_in(
        d0,
        t.0,
        t.1 as int,
        vstd::utf8::encode_utf8(t.2),
    ) matches Some(l) && deleted_disk(d0, t.0, l) == (d1, true))
}

/// Deletes the file or empty directory at `path` and frees its clusters.
pub fn delete_file(disk: &mut Disk, path: &str) -> (r: Result<(), FsError>)
    ensures
        delete_check(old(disk)@, path@) matches Err(e) ==> r == Err::<(), FsError>(e)
            && final(disk)@ == old(disk)@,
        delete_check(old(disk)@, path@) is Ok ==> (entry_target(old(disk)@, path@) matches Ok(t)
            && find_in(old(disk)@, t.0, t.1 as int, vstd::utf8::encode_utf8(t.2)) matches Some(l)
            && (final(disk)@, r is Ok) == deleted_disk(old(disk)@, t.0, l)),
        r is Ok ==> removed(old(disk)@, path@, final(disk)@),
        delete_check(old(disk)@, path@) is Ok ==> (r matches Err(e) ==> e == FsError::Io),
        delete_check(old(disk)@, path@) is Ok && (bpb_of(old(disk)@) matches Some(b) && volume_on_disk(
            old(disk)@,
            b,
        )) ==> r is Ok,
        final(disk)@.len() == old(disk)@.len(),
{
    let ghost d0 = disk@;
    let p = crate::text::chars_of(path);
    let (bpb, _parent, location) = locate(disk, p.as_slice())?;
    let first = location.entry.first_cluster();
    proof {
        lemma_find_scan_sector(
            d0,
            sectors_of(bpb, chain(d0, bpb, _parent as int)),
            0,
            Seq::empty(),
            Seq::empty(),
            vstd::utf8::encode_utf8((entry_target(d0, p@)->Ok_0).2),
        );
    }
    let ghost lv = loc_view(location);
    assert(forall|k: int| 0 <= k < lv.3.len() ==> sector_in(d0, (#[trigger] lv.3[k]).0 as int));
    assert(lv.3 == location.lfn_locations@);
    let ghost vol = volume_on_disk(d0, bpb);
    if location.entry.is_dir() {
        let count = match list_dir(disk, path) {
            Some(children) => children.len(),
            None => 0,
        };
        if count > 0 {
            return Err(FsError::NotEmpty);
        }
    }
    if first >= 2 {
        proof {
            if vol {
                lemma_chain_valid(disk@, bpb, first as int, chain_fuel());
                let fw = free_writes(chain(disk@, bpb, first as int));
                assert forall|k: int| 0 <= k < fw.len() implies 0 <= (#[trigger] fw[k]).0 < bpb.entry_count() by {
                    assert(valid_cluster(bpb, chain(disk@, bpb, first as int)[k] as int));
                }
                lemma_fat_writes_ok(disk@, bpb, fw);
            }
        }
        free_cluster_chain(&bpb, disk, first)?;
    }
    proof {
        let all = location.lfn_locations@.push((location.lba, location.offset));
        assert forall|k: int| 0 <= k < all.len() implies sector_in(disk@, (#[trigger] all[k]).0 as int) && all[k].1 < 512 by {
            if k < location.lfn_locations@.len() {
                assert(all[k] == location.lfn_locations@[k]);
                assert(location.lfn_locations@[k].1 + 32 <= 512);
                assert(sector_in(d0, lv.3[k].0 as int));
            }
        }
        lemma_slots_deleted_ok(disk@, all, all.len() as int);
    }
    mark_entry_location_deleted(disk, &location)
}

/// Why the entry at `path` cannot be renamed to `new_name` before anything
/// is written; a new name that differs only in letter case changes nothing.
pub open spec fn rename_check(d: Seq<u8>, path: Seq<char>, new_name: Seq<char>) -> Result<
    bool,
    FsError,
> {
    match split_parent(path) {
        Err(e) => Err(e),
        Ok((_, old_name)) => if crate::text::eq_ic(old_name, new_name) {
            Ok(true)
        } else {
            match entry_target(d, path) {
                Err(e) => Err(e),
                Ok((b, c, n)) => match find_in(d, b, c as int, vstd::utf8::encode_utf8(n)) {
                    None => Err(FsError::NotFound),
                    Some(l) => match find_in(d, b, c as int, vstd::utf8::encode_utf8(new_name)) {
                        Some(l2) => if l2.1 != l.1 || l2.2 != l.2 {
                            Err(FsError::AlreadyExists)
                        } else {
                            Ok(false)
                        },
                        None => Ok(false),
                    },
                },
            }
        },
    }
}

/// The short slot of a renamed entry: the new short name over the first
/// eleven bytes of the old slot.
pub open spec fn renamed_slot(d: Seq<u8>, lba: u32, off: usize, s: Seq<u8>) -> Seq<u8> {
    s + sector_of(d, lba as int).subrange(off + 11, off + 32)
}

/// `d1` is `d0` after the entry found at `l` takes the short slot `slot`
/// and the long-name slots `lfn`: written over the old slots when there
/// are no new long-name slots (the old ones then marked deleted) or as many
/// as before; otherwise written into a free run of the (possibly grown)
/// directory, the old slots then marked deleted.
pub open spec fn renamed_with(
    d0: Seq<u8>,
    bpb: Bpb,
    dir_cluster: int,
    l: ((Seq<u8>, u8, int, int), u32, usize, Seq<(u32, usize)>),
    slot: Seq<u8>,
    lfn: Seq<Seq<u8>>,
    d1: Seq<u8>,
) -> bool {
    if lfn.len() == 0 {
        sector_in(d0, l.1 as int) && slots_deleted(
            with_sector(d0, l.1 as int, patched(sector_of(d0, l.1 as int), l.2 as int, slot)),
            l.3,
            l.3.len() as int,
        ) == (d1, true)
    } else if lfn.len() == l.3.len() {
        slots_written(d0, lfn.push(slot), l.3.push((l.1, l.2)), lfn.len() + 1int) == (d1, true)
    } else {
        exists|n: nat, dg: Seq<u8>, locs: Seq<(u32, usize)>, marker: bool, dm: Seq<u8>|
            #[trigger] grown(d0, dg, bpb, dir_cluster, lfn.len() + 1int, n) && free_run(
                dg,
                bpb,
                dir_cluster,
                lfn.len() + 1int,
            ) == Ok::<Option<(Seq<(u32, usize)>, bool)>, FsError>(Some((locs, marker)))
                && #[trigger] run_written(dg, bpb, dir_cluster, lfn.push(slot), locs, marker) == (
            dm,
            true,
        ) && #[trigger] slots_deleted(dm, l.3.push((l.1, l.2)), l.3.len() + 1int) == (d1, true)
    }
}

/// `d1` is `d0` with the entry at `path` renamed to `new_name` (a name that
/// differs from the old one beyond letter case).
pub open spec fn renamed(d0: Seq<u8>, path: Seq<char>, new_name: Seq<char>, d1: Seq<u8>) -> bool {
    rename_check(d0, path, new_name) == Ok::<bool, FsError>(false) && (entry_target(d0, path) matches Ok(
        t,
    ) && find_in(d0, t.0, t.1 as int, vstd::utf8::encode_utf8(t.2)) matches Some(l) && exists|
        s: Seq<u8>,
        lfn: Seq<Seq<u8>>,
    |
        #[trigger] name_chosen_in(d0, t.0, t.1 as int, new_name, s, lfn, Some((l.1, l.2)))
            && renamed_with(d0, t.0, t.1 as int, l, renamed_slot(d0, l.1, l.2, s), lfn, d1))
}

proof fn lemma_renamed(
    d0: Seq<u8>,
    path: Seq<char>,
    new_name: Seq<char>,
    d1: Seq<u8>,
    s: Seq<u8>,
    lfn: Seq<Seq<u8>>,
)
    requires
        entry_target(d0, path) matches Ok(t) && find_in(
            d0,
            t.0,
            t.1 as int,
            vstd::utf8::encode_utf8(t.2),
        ) matches Some(l) && name_chosen_in(d0, t.0, t.1 as int, new_name, s, lfn, Some((l.1, l.2)))
            && renamed_with(d0, t.0, t.1 as int, l, renamed_slot(d0, l.1, l.2, s), lfn, d1),
    ensures
        rename_check(d0, path, new_name) == Ok::<bool, FsError>(false) ==> renamed(
            d0,
            path,
            new_name,
            d1,
        ),
{
}

/// Renames the entry at `path` to `new_name` within its directory.
pub fn rename(disk: &mut Disk, path: &str, new_name: &str) -> (r: Result<(), FsError>)
    ensures
        rename_check(old(disk)@, path@, new_name@) matches Err(e) ==> r == Err::<(), FsError>(e)
            && final(disk)@ == old(disk)@,
        rename_check(old(disk)@, path@, new_name@) == Ok::<bool, FsError>(true) ==> r is Ok
            && final(disk)@ == old(disk)@,
        r is Ok && rename_check(old(disk)@, path@, new_name@) == Ok::<bool, FsError>(false)
            ==> renamed(old(disk)@, path@, new_name@, final(disk)@),
        rename_check(old(disk)@, path@, new_name@) == Ok::<bool, FsError>(false) && (entry_target(
            old(disk)@,
            path@,
        ) matches Ok(t) && volume_on_disk(old(disk)@, t.0) && chain(old(disk)@, t.0, t.1 as int).len()
            > 0) ==> r != Err::<(), FsError>(FsError::Io),
        final(disk)@.len() == old(disk)@.len(),
{
    let ghost d0 = disk@;
    let p = crate::text::chars_of(path);
    let nn = crate::text::chars_of(new_name);
    let (_parent_path, old_name) = split_parent_and_name(p.as_slice())?;
    if crate::text::eq_ignore_case(old_name.as_slice(), nn.as_slice()) {
        return Ok(());
    }
    let (bpb, parent_cluster, location) = locate(disk, p.as_slice())?;
    proof {
        lemma_find_scan_sector(
            d0,
            sectors_of(bpb, chain(d0, bpb, parent_cluster as int)),
            0,
            Seq::empty(),
            Seq::empty(),
            vstd::utf8::encode_utf8((entry_target(d0, p@)->Ok_0).2),
        );
    }
    assert(sector_in(d0, location.lba as int));
    let ghost lv = loc_view(location);
    assert(forall|k: int| 0 <= k < lv.3.len() ==> sector_in(d0, (#[trigger] lv.3[k]).0 as int));
    assert(lv.3 == location.lfn_locations@);
    assert(forall|k: int|
        0 <= k < location.lfn_locations@.len() ==> sector_in(d0, (#[trigger] location.lfn_locations@[k]).0 as int));
    let new_bytes = utf8_bytes(nn.as_slice());
    if let Some(existing) = find_entry_location(&bpb, disk, parent_cluster, new_bytes.as_slice()) {
        if existing.lba != location.lba || existing.offset != location.offset {
            return Err(FsError::AlreadyExists);
        }
    }
    let fat_name = encode_name_for_dir(
        &bpb,
        disk,
        parent_cluster,
        nn.as_slice(),
        Some((location.lba, location.offset)),
    )?;
    let mut short_entry = read_dir_slot(disk, location.lba, location.offset)?;
    let ghost orig = short_entry@;
    let ghost l = loc_view(location);
    let ghost sn = fat_name.short@;
    let ghost lfn = views_u8(fat_name.lfn_entries@);
    let mut i: usize = 0;
    while i < 11
        invariant
            short_entry@.len() == 32,
            orig.len() == 32,
            fat_name.short@.len() == 11,
            i <= 11,
            short_entry@ == fat_name.short@.take(i as int) + orig.skip(i as int),
        decreases 11 - i,
    {
        short_entry.set(i, fat_name.short[i]);
        i = i + 1;
        assert(short_entry@ =~= fat_name.short@.take(i as int) + orig.skip(i as int));
    }
    let ghost slot = short_entry@;
    assert(fat_name.short@.take(11) =~= fat_name.short@);
    assert(orig.skip(11) =~= sector_of(d0, location.lba as int).subrange(
        location.offset + 11,
        location.offset + 32,
    ));
    assert(slot == renamed_slot(d0, l.1, l.2, sn));
    if fat_name.lfn_entries.len() == 0 {
        write_dir_slot(disk, location.lba, location.offset, short_entry.as_slice())?;
        let only_short = DirEntryLocation {
            entry: location.entry,
            lba: location.lba,
            offset: location.offset,
            lfn_locations: location.lfn_locations,
        };
        proof {
            lemma_slots_deleted_ok(disk@, only_short.lfn_locations@, only_short.lfn_locations@.len() as int);
        }
        let res = mark_lfn_slots_deleted(disk, &only_short);
        proof {
            if res is Ok {
                assert(renamed_with(d0, bpb, parent_cluster as int, l, slot, lfn, disk@));
                assert(name_chosen_in(d0, bpb, parent_cluster as int, new_name@, sn, lfn, Some((l.1, l.2))));
                assert(entry_target(d0, path@) matches Ok(t) && t.0 == bpb && t.1 == parent_cluster);
                assert(find_in(d0, bpb, parent_cluster as int, vstd::utf8::encode_utf8((entry_target(d0, path@)->Ok_0).2)) == Some(l));
                let t = entry_target(d0, path@)->Ok_0;
                assert(name_chosen_in(d0, t.0, t.1 as int, new_name@, sn, lfn, Some((l.1, l.2))));
                assert(renamed_with(d0, t.0, t.1 as int, l, renamed_slot(d0, l.1, l.2, sn), lfn, disk@));
                lemma_renamed(d0, path@, new_name@, disk@, sn, lfn);
            }
        }
        return res;
    }
    if location.lfn_locations.len() == fat_name.lfn_entries.len() {
        let mut i: usize = 0;
        let mut res: Result<(), FsError> = Ok(());
        let ghost d1 = disk@;
        while i < location.lfn_locations.len()
            invariant_except_break
                res is Ok,
                slots_written(d0, lfn, l.3, i as int) == (disk@, true),
            invariant
                d1 == d0,
                res is Ok,
                forall|k: int|
                    0 <= k < location.lfn_locations@.len() ==> sector_in(d0, (#[trigger] location.lfn_locations@[k]).0 as int),
                lfn == views_u8(fat_name.lfn_entries@),
                l.3 == location.lfn_locations@,
                i <= location.lfn_locations@.len(),
                slots_fit(location.lfn_locations@),
                location.lfn_locations@.len() == fat_name.lfn_entries@.len(),
                all_slots(fat_name.lfn_entries@),
                disk@.len() == d1.len(),
                res matches Err(e) ==> e == FsError::Io,
            ensures
                res is Ok ==> slots_written(d0, lfn, l.3, l.3.len() as int) == (disk@, true),
            decreases location.lfn_locations@.len() - i,
        {
            let (lba, offset) = location.lfn_locations[i];
            assert(location.lfn_locations@[i as int].1 + 32 <= 512);
            assert(fat_name.lfn_entries@[i as int]@.len() == 32);
            if write_dir_slot(disk, lba, offset, fat_name.lfn_entries[i].as_slice()).is_err() {
                res = Err(FsError::Io);
                break;
            }
            i = i + 1;
        }
        res?;
        proof {
            lemma_slots_written_prefix(
                d0,
                lfn,
                l.3,
                lfn.push(slot),
                l.3.push((l.1, l.2)),
                lfn.len() as int,
            );
        }
        let last = write_dir_slot(disk, location.lba, location.offset, short_entry.as_slice());
        proof {
            if last is Ok {
                assert(lfn.push(slot)[lfn.len() as int] == slot);
                assert(l.3.push((l.1, l.2))[lfn.len() as int] == (l.1, l.2));
                assert(renamed_with(d0, bpb, parent_cluster as int, l, slot, lfn, disk@));
                assert(name_chosen_in(d0, bpb, parent_cluster as int, new_name@, sn, lfn, Some((l.1, l.2))));
                assert(entry_target(d0, path@) matches Ok(t) && t.0 == bpb && t.1 == parent_cluster);
                let t = entry_target(d0, path@)->Ok_0;
                assert(find_in(d0, bpb, parent_cluster as int, vstd::utf8::encode_utf8(t.2)) == Some(l));
                assert(name_chosen_in(d0, t.0, t.1 as int, new_name@, sn, lfn, Some((l.1, l.2))));
                assert(renamed_with(d0, t.0, t.1 as int, l, renamed_slot(d0, l.1, l.2, sn), lfn, disk@));
                lemma_renamed(d0, path@, new_name@, disk@, sn, lfn);
            }
        }
        return last;
    }
    let mut entries = fat_name.lfn_entries;
    entries.push(short_entry);
    assert(all_slots(entries@));
    assert(views_u8(entries@) =~= lfn.push(slot));
    append_dir_entries(&bpb, disk, parent_cluster, entries.as_slice())?;
    let ghost dm = disk@;
    proof {
        let all = location.lfn_locations@.push((location.lba, location.offset));
        assert forall|k: int| 0 <= k < all.len() implies sector_in(disk@, (#[trigger] all[k]).0 as int) && all[k].1 < 512 by {
            if k < location.lfn_locations@.len() {
                assert(all[k] == location.lfn_locations@[k]);
                assert(location.lfn_locations@[k].1 + 32 <= 512);
            }
        }
        lemma_slots_deleted_ok(disk@, all, all.len() as int);
    }
    let res = mark_entry_location_deleted(disk, &location);
    proof {
        if res is Ok {
            assert(renamed_with(d0, bpb, parent_cluster as int, l, slot, lfn, disk@));
            assert(name_chosen_in(d0, bpb, parent_cluster as int, new_name@, sn, lfn, Some((l.1, l.2))));
            assert(entry_target(d0, path@) matches Ok(t) && t.0 == bpb && t.1 == parent_cluster);
            let t = entry_target(d0, path@)->Ok_0;
            assert(find_in(d0, bpb, parent_cluster as int, vstd::utf8::encode_utf8(t.2)) == Some(l));
            assert(name_chosen_in(d0, t.0, t.1 as int, new_name@, sn, lfn, Some((l.1, l.2))));
            assert(renamed_with(d0, t.0, t.1 as int, l, renamed_slot(d0, l.1, l.2, sn), lfn, disk@));
                lemma_renamed(d0, path@, new_name@, disk@, sn, lfn);
        }
    }
    res
}

/// Marks only the long-name slots of an entry deleted.
fn mark_lfn_slots_deleted(disk: &mut Disk, location: &DirEntryLocation) -> (r: Result<(), FsError>)
    requires
        slots_fit(location.lfn_locations@),
    ensures
        (final(disk)@, r is Ok) == slots_deleted(
            old(disk)@,
            location.lfn_locations@,
            location.lfn_locations@.len() as int,
        ),
        r matches Err(e) ==> e == FsError::Io,
        final(disk)@.len() == old(disk)@.len(),
{
    let ghost d0 = disk@;
    let ghost locs = location.lfn_locations@;
    let mut i: usize = 0;
    let mut res: Result<(), FsError> = Ok(());
    while i < location.lfn_locations.len()
        invariant_except_break
            res is Ok,
            slots_deleted(d0, locs, i as int) == (disk@, true),
        invariant
            locs == location.lfn_locations@,
            i <= locs.len(),
            slots_fit(location.lfn_locations@),
            disk@.len() == d0.len(),
            res matches Err(e) ==> e == FsError::Io && slots_deleted(d0, locs, locs.len() as int)
                == (disk@, false),
        ensures
            res is Ok ==> slots_deleted(d0, locs, locs.len() as int) == (disk@, true),
        decreases location.lfn_locations@.len() - i,
    {
        let (lba, offset) = location.lfn_locations[i];
        assert(location.lfn_locations@[i as int].1 + 32 <= 512);
        if mark_dir_slot_deleted(disk, lba, offset).is_err() {
            proof {
                assert(slots_deleted(d0, locs, i + 1) == (disk@, false));
                lemma_slots_deleted_stuck(d0, locs, i + 1, locs.len() as int);
            }
            res = Err(FsError::Io);
            break;
        }
        i = i + 1;
    }
    res
}

} // verus!

verus! {

// ── Copies and replacement writes ───────────────────────────────────────────

proof fn lemma_le32_bound(s: Seq<u8>, o: int)
    requires
        0 <= o,
        o + 4 <= s.len(),
    ensures
        0 <= le32(s, o) <= u32::MAX,
{
    assert(0 <= le16(s, o) <= 65535);
    assert(0 <= le16(s, o + 2) <= 65535);
    assert(le16(s, o + 2) * 65536 <= 65535 * 65536) by (nonlinear_arith)
        requires
            le16(s, o + 2) <= 65535,
    ;
    assert(le16(s, o + 2) * 65536 >= 0) by (nonlinear_arith)
        requires
            le16(s, o + 2) >= 0,
    ;
}

/// An entry the lookup finds sits in a sector that is on the disk.
proof fn lemma_find_scan_sector(
    d: Seq<u8>,
    secs: Seq<u32>,
    k: int,
    frags: Seq<(u8, bool, u8, Seq<u16>)>,
    locs: Seq<(u32, usize)>,
    name: Seq<u8>,
)
    requires
        forall|i: int| 0 <= i < locs.len() ==> sector_in(d, (#[trigger] locs[i]).0 as int),
    ensures
        find_scan(d, secs, k, frags, locs, name) matches Some(l) ==> sector_in(d, l.1 as int) && (
        forall|i: int| 0 <= i < l.3.len() ==> sector_in(d, (#[trigger] l.3[i]).0 as int)),
    decreases secs.len() * 16 - k,
{
    if k < 0 || k >= secs.len() * 16 {
    } else if !sector_in(d, secs[k / 16] as int) {
    } else {
        let slot = slot_at(d, secs, k);
        if slot[0] == 0 {
        } else if slot[0] == 0xE5 {
            lemma_find_scan_sector(d, secs, k + 1, Seq::empty(), Seq::empty(), name);
        } else if slot[11] == 0x0F {
            if lfn_fragment_ok(slot) {
                let l2 = locs.push(slot_pos(secs, k));
                assert forall|i: int| 0 <= i < l2.len() implies sector_in(d, (#[trigger] l2[i]).0 as int) by {
                    if i < locs.len() {
                        assert(l2[i] == locs[i]);
                    }
                }
                lemma_find_scan_sector(d, secs, k + 1, frags.push(slot_frag(slot)), l2, name);
            } else {
                lemma_find_scan_sector(d, secs, k + 1, Seq::empty(), Seq::empty(), name);
            }
        } else if entry_hit(slot, frags, name) {
        } else {
            lemma_find_scan_sector(d, secs, k + 1, Seq::empty(), Seq::empty(), name);
        }
    }
}

proof fn lemma_data_writes_ok(d: Seq<u8>, bpb: Bpb, chain: Seq<u32>, data: Seq<u8>)
    requires
        bpb.wf(),
        volume_on_disk(d, bpb),
        forall|i: int| 0 <= i < chain.len() ==> 2 <= #[trigger] chain[i] < bpb.entry_count(),
    ensures
        write_all(d, data_writes(bpb, chain, data)).1,
{
    let ws = data_writes(bpb, chain, data);
    let spc = bpb.sectors_per_cluster as int;
    assert forall|n: int| 0 <= n < ws.len() implies sector_in(d, (#[trigger] ws[n]).0) by {
        vstd::arithmetic::div_mod::lemma_fundamental_div_mod(n, spc);
        vstd::arithmetic::div_mod::lemma_mod_pos_bound(n, spc);
        assert(n / spc < chain.len()) by (nonlinear_arith)
            requires
                0 <= n < chain.len() * spc,
                n == spc * (n / spc) + n % spc,
                0 <= n % spc,
                spc > 0,
        ;
        assert(n / spc >= 0) by (nonlinear_arith)
            requires
                n >= 0,
                spc > 0,
        ;
        lemma_cluster_sector_in(d, bpb, chain[n / spc] as int, n % spc);
    }
    assert forall|n: int| 0 <= n < ws.len() implies (#[trigger] ws[n]).1.len() == 512 by {}
    lemma_write_all_ok(d, ws);
}

proof fn lemma_find_scan_size(
    d: Seq<u8>,
    secs: Seq<u32>,
    k: int,
    frags: Seq<(u8, bool, u8, Seq<u16>)>,
    locs: Seq<(u32, usize)>,
    name: Seq<u8>,
)
    ensures
        find_scan(d, secs, k, frags, locs, name) matches Some(l) ==> 0 <= l.0.3 <= u32::MAX,
    decreases secs.len() * 16 - k,
{
    if k < 0 || k >= secs.len() * 16 {
    } else if !sector_in(d, secs[k / 16] as int) {
    } else {
        let slot = slot_at(d, secs, k);
        if slot[0] == 0 {
        } else if slot[0] == 0xE5 {
            lemma_find_scan_size(d, secs, k + 1, Seq::empty(), Seq::empty(), name);
        } else if slot[11] == 0x0F {
            if lfn_fragment_ok(slot) {
                lemma_find_scan_size(
                    d,
                    secs,
                    k + 1,
                    frags.push(slot_frag(slot)),
                    locs.push(slot_pos(secs, k)),
                    name,
                );
            } else {
                lemma_find_scan_size(d, secs, k + 1, Seq::empty(), Seq::empty(), name);
            }
        } else if entry_hit(slot, frags, name) {
            lemma_le32_bound(slot, 28);
        } else {
            lemma_find_scan_size(d, secs, k + 1, Seq::empty(), Seq::empty(), name);
        }
    }
}

proof fn lemma_read_from_len(d: Seq<u8>, bpb: Bpb, comps: Seq<Seq<u8>>, cluster: u32)
    ensures
        read_from(d, bpb, comps, cluster) matches Some(v) ==> v.len() <= u32::MAX,
    decreases comps.len(),
{
    if comps.len() > 0 {
        lemma_find_scan_size(
            d,
            sectors_of(bpb, chain(d, bpb, cluster as int)),
            0,
            Seq::empty(),
            Seq::empty(),
            comps[0],
        );
        match find_in(d, bpb, cluster as int, comps[0]) {
            None => {},
            Some(l) => {
                if comps.len() > 1 {
                    lemma_read_from_len(d, bpb, comps.drop_first(), l.0.2 as u32);
                }
            },
        }
    }
}

/// A file's contents always fit the 32-bit size field.
pub proof fn lemma_file_contents_len(d: Seq<u8>, path: Seq<char>)
    ensures
        file_contents(d, path) matches Some(v) ==> v.len() <= u32::MAX,
{
    match bpb_of(d) {
        None => {},
        Some(b) => {
            match trim_abs(path) {
                None => {},
                Some(t) => {
                    lemma_read_from_len(d, b, utf8_parts(components(t)), b.root_cluster);
                },
            }
        },
    }
}

/// Copies the file at `src` to a new file at `dst`.
pub fn copy_file(disk: &mut Disk, src: &str, dst: &str) -> (r: Result<(), FsError>)
    ensures
        file_contents(old(disk)@, src@) is None ==> r == Err::<(), FsError>(FsError::NotFound)
            && final(disk)@ == old(disk)@,
        file_contents(old(disk)@, src@) is Some ==> (create_check(old(disk)@, dst@) matches Err(e)
            ==> r == Err::<(), FsError>(e) && final(disk)@ == old(disk)@),
        r is Ok ==> file_contents(old(disk)@, src@) is Some && exists|d1: Seq<u8>|
            #[trigger] created(old(disk)@, dst@, d1) && rewrote(
                d1,
                dst@,
                file_contents(old(disk)@, src@)->0,
                final(disk)@,
            ),
        final(disk)@.len() == old(disk)@.len(),
{
    let data = match read_file(disk, src) {
        Some(d) => d,
        None => {
            return Err(FsError::NotFound);
        },
    };
    proof {
        lemma_file_contents_len(disk@, src@);
    }
    create_file(disk, dst)?;
    write_file(disk, dst, data.as_slice())
}

/// Name of the scratch file a replacement write goes through.
pub open spec fn scratch_path(parent: Seq<char>) -> Seq<char> {
    if parent.len() > 0 && parent.last() == '/' {
        parent + "CWTMP.TMP"@
    } else {
        parent + seq!['/'] + "CWTMP.TMP"@
    }
}

/// Replaces the file at `path` with `data` through a scratch file in the
/// same directory: the scratch file is written first, then the old file is
/// removed and the scratch file renamed into its place.
/// `d1` is `d0` with the entry at `path` deleted, or `d0` itself when
/// there is no such entry.
pub open spec fn cleared(d0: Seq<u8>, path: Seq<char>, d1: Seq<u8>) -> bool {
    removed(d0, path, d1) || (delete_check(d0, path) == Err::<(), FsError>(FsError::NotFound)
        && d1 == d0)
}

/// `d1` is `d0` after the entry at `path` is renamed to `name`, or `d0`
/// itself when the names differ only in letter case.
pub open spec fn renamed_or_same(d0: Seq<u8>, path: Seq<char>, name: Seq<char>, d1: Seq<u8>) -> bool {
    (rename_check(d0, path, name) == Ok::<bool, FsError>(true) && d1 == d0) || renamed(
        d0,
        path,
        name,
        d1,
    )
}

/// `d5` is `d0` with the file at `path` replaced by `data` through the
/// scratch file: an old scratch file deleted, a new one created and filled,
/// the old file deleted, and the scratch file renamed into its place.
pub open spec fn replaced(d0: Seq<u8>, path: Seq<char>, data: Seq<u8>, d5: Seq<u8>) -> bool {
    match split_parent(path) {
        Err(_) => false,
        Ok((parent, name)) => {
            let tmp = scratch_path(parent);
            exists|d1: Seq<u8>, d2: Seq<u8>, d3: Seq<u8>, d4: Seq<u8>|
                #![trigger created(d1, tmp, d2), rewrote(d2, tmp, data, d3), cleared(d3, path, d4)]
                cleared(d0, tmp, d1) && created(d1, tmp, d2) && rewrote(d2, tmp, data, d3) && cleared(
                    d3,
                    path,
                    d4,
                ) && renamed_or_same(d4, tmp, name, d5)
        },
    }
}

pub fn safe_write_file(disk: &mut Disk, path: &str, data: &[u8]) -> (r: Result<(), FsError>)
    requires
        data@.len() <= u32::MAX,
    ensures
        split_parent(path@) matches Err(e) ==> r == Err::<(), FsError>(e) && final(disk)@ == old(
            disk,
        )@,
        r is Ok ==> replaced(old(disk)@, path@, data@, final(disk)@),
        final(disk)@.len() == old(disk)@.len(),
{
    let ghost d0 = disk@;
    let p = crate::text::chars_of(path);
    let (parent, name) = split_parent_and_name(p.as_slice())?;
    let mut tmp = crate::text::string_of(parent.as_slice());
    if !(parent.len() > 0 && parent[parent.len() - 1] == '/') {
        push_char(&mut tmp, '/');
    }
    crate::text::push_str(&mut tmp, "CWTMP.TMP");
    let ghost tp = scratch_path(parent@);
    assert(tmp@ =~= tp);
    match delete_file(disk, tmp.as_str()) {
        Ok(()) => {},
        Err(FsError::NotFound) => {},
        Err(e) => {
            return Err(e);
        },
    }
    let ghost d1 = disk@;
    assert(cleared(d0, tp, d1));
    create_file(disk, tmp.as_str())?;
    let ghost d2 = disk@;
    write_file(disk, tmp.as_str(), data)?;
    let ghost d3 = disk@;
    match delete_file(disk, path) {
        Ok(()) => {},
        Err(FsError::NotFound) => {},
        Err(err) => {
            let _ = delete_file(disk, tmp.as_str());
            return Err(err);
        },
    }
    let ghost d4 = disk@;
    assert(cleared(d3, path@, d4));
    let name_s = crate::text::string_of(name.as_slice());
    let res = rename(disk, tmp.as_str(), name_s.as_str());
    proof {
        if res is Ok {
            assert(renamed_or_same(d4, tp, name@, disk@));
            assert(created(d1, tp, d2) && rewrote(d2, tp, data@, d3));
            assert(replaced(d0, path@, data@, disk@));
        }
    }
    res
}

} // verus!

verus! {

/// Free and used data clusters always add up to the total.
pub proof fn lemma_stats_add_up(d: Seq<u8>)
    ensures
        fs_stats(d) matches Some(s) ==> s.1 + s.2 == s.0 && 0 <= s.1 <= s.0,
{
    match bpb_of(d) {
        None => {},
        Some(b) => {
            lemma_free_upto_bound(d, b, b.entry_count());
        },
    }
}

} // verus!
