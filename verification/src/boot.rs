//! The volume descriptor: the fields of the boot sector that fix the layout
//! of a volume, and what follows from them.
use crate::entry::FatType;
use crate::error::Error;
use crate::raw::entry_end;
use vstd::prelude::*;

verus! {

/// The length of a boot sector in bytes.
pub const BOOT_SECTOR_LEN: usize = 512;

/// The 16-bit little-endian number at `at` in `bytes`.
pub open spec fn le16(bytes: Seq<u8>, at: int) -> int {
    bytes[at] + 256 * bytes[at + 1]
}

/// The 32-bit little-endian number at `at` in `bytes`.
pub open spec fn le32(bytes: Seq<u8>, at: int) -> int {
    bytes[at] + 256 * bytes[at + 1] + 65536 * bytes[at + 2] + 16777216 * bytes[at + 3]
}

/// Reads the 16-bit little-endian number at `at`.
pub fn read_le16(bytes: &[u8], at: usize) -> (value: u16)
    requires
        at + 2 <= bytes.len(),
    ensures
        value == le16(bytes@, at as int),
{
    bytes[at] as u16 + 256 * (bytes[at + 1] as u16)
}

/// Reads the 32-bit little-endian number at `at`.
pub fn read_le32(bytes: &[u8], at: usize) -> (value: u32)
    requires
        at + 4 <= bytes.len(),
    ensures
        value == le32(bytes@, at as int),
{
    bytes[at] as u32 + 256 * (bytes[at + 1] as u32) + 65536 * (bytes[at + 2] as u32) + 16777216 * (
    bytes[at + 3] as u32)
}

/// The bytes `bytes` with the 16-bit little-endian `value` written at `at`.
pub open spec fn with_le16(bytes: Seq<u8>, at: int, value: u16) -> Seq<u8> {
    bytes.update(at, (value % 256) as u8).update(at + 1, (value / 256) as u8)
}

/// The bytes `bytes` with the 32-bit little-endian `value` written at `at`.
pub open spec fn with_le32(bytes: Seq<u8>, at: int, value: u32) -> Seq<u8> {
    bytes.update(at, (value % 256) as u8).update(at + 1, (value / 256 % 256) as u8).update(
        at + 2,
        (value / 65536 % 256) as u8,
    ).update(at + 3, (value / 16777216) as u8)
}

/// Writes the 16-bit little-endian `value` at `at`.
pub fn write_le16(bytes: &mut Vec<u8>, at: usize, value: u16)
    requires
        at + 2 <= old(bytes).len(),
    ensures
        final(bytes)@ == with_le16(old(bytes)@, at as int, value),
{
    bytes[at] = (value % 256) as u8;
    bytes[at + 1] = (value / 256) as u8;
}

/// Writes the 32-bit little-endian `value` at `at`.
pub fn write_le32(bytes: &mut Vec<u8>, at: usize, value: u32)
    requires
        at + 4 <= old(bytes).len(),
    ensures
        final(bytes)@ == with_le32(old(bytes)@, at as int, value),
{
    bytes[at] = (value % 256) as u8;
    bytes[at + 1] = (value / 256 % 256) as u8;
    bytes[at + 2] = (value / 65536 % 256) as u8;
    bytes[at + 3] = (value / 16777216) as u8;
}

/// The layout of a volume, as its boot sector declares it.
#[derive(Debug, PartialEq, Eq, Clone, Copy, Structural)]
pub struct Geometry {
    /// Bytes per sector: 512, 1024, 2048 or 4096.
    pub bytes_per_sector: u16,
    /// Sectors per cluster: a power of two up to 128.
    pub sectors_per_cluster: u8,
    /// Sectors before the first allocation table, the boot sector included.
    pub reserved_sectors: u16,
    /// The number of copies of the allocation table.
    pub fats: u8,
    /// The number of entries of the fixed root directory; 0 on FAT32.
    pub root_entries: u16,
    /// The number of sectors of the volume.
    pub total_sectors: u32,
    /// The media type.
    pub media: u8,
    /// The number of sectors of one copy of the allocation table.
    pub sectors_per_fat: u32,
    /// The first cluster of the root directory on FAT32; 0 elsewhere.
    pub root_cluster: u32,
    /// The sector of the FSInfo structure on FAT32; 0 elsewhere.
    pub fs_info_sector: u16,
}

impl Geometry {
    /// The number of sectors of the fixed root directory.
    pub open spec fn root_dir_sectors(self) -> int {
        (self.root_entries * 32 + self.bytes_per_sector - 1) / (self.bytes_per_sector as int)
    }

    /// The first sector of the data region.
    pub open spec fn first_data_sector(self) -> int {
        self.reserved_sectors + self.fats * self.sectors_per_fat + self.root_dir_sectors()
    }

    /// The number of data clusters of the volume.
    pub open spec fn spec_cluster_count(self) -> int {
        (self.total_sectors - self.first_data_sector()) / (self.sectors_per_cluster as int)
    }

    /// The variant of the volume, which follows from the number of its data
    /// clusters: fewer than 4085 make FAT12, fewer than 65525 FAT16.
    pub open spec fn spec_kind(self) -> FatType {
        if self.spec_cluster_count() < 4085 {
            FatType::Fat12
        } else if self.spec_cluster_count() < 65525 {
            FatType::Fat16
        } else {
            FatType::Fat32
        }
    }

    /// The number of bytes of a cluster.
    pub open spec fn spec_cluster_size(self) -> int {
        self.bytes_per_sector * self.sectors_per_cluster
    }

    /// Whether the layout is one that a volume can have.
    pub open spec fn wf(self) -> bool {
        &&& (self.bytes_per_sector == 512 || self.bytes_per_sector == 1024
            || self.bytes_per_sector == 2048 || self.bytes_per_sector == 4096)
        &&& (self.sectors_per_cluster == 1 || self.sectors_per_cluster == 2
            || self.sectors_per_cluster == 4 || self.sectors_per_cluster == 8
            || self.sectors_per_cluster == 16 || self.sectors_per_cluster == 32
            || self.sectors_per_cluster == 64 || self.sectors_per_cluster == 128)
        &&& self.reserved_sectors >= 1
        &&& self.fats >= 1
        &&& self.sectors_per_fat >= 1
        &&& self.first_data_sector() <= self.total_sectors
        &&& self.spec_cluster_count() <= self.spec_kind().spec_max_clusters()
        &&& entry_end(self.spec_kind(), self.spec_cluster_count() + 1) <= self.sectors_per_fat
            * self.bytes_per_sector
        &&& self.spec_kind() == FatType::Fat32 ==> self.root_entries == 0 && 2 <= self.root_cluster
            && self.root_cluster - 2 < self.spec_cluster_count() && 1 <= self.fs_info_sector
            < self.reserved_sectors
        &&& self.spec_kind() != FatType::Fat32 ==> self.root_cluster == 0 && self.fs_info_sector
            == 0 && self.sectors_per_fat <= 0xFFFF
    }
}

/// The layout that the boot sector `sector` declares. A 16-bit field that is
/// zero gives way to its 32-bit twin; the fields of the FAT32 extension count
/// only where the number of clusters makes the volume FAT32.
pub open spec fn declared(sector: Seq<u8>) -> Geometry {
    let common = Geometry {
        bytes_per_sector: le16(sector, 11) as u16,
        sectors_per_cluster: sector[13],
        reserved_sectors: le16(sector, 14) as u16,
        fats: sector[16],
        root_entries: le16(sector, 17) as u16,
        total_sectors: if le16(sector, 19) != 0 {
            le16(sector, 19) as u32
        } else {
            le32(sector, 32) as u32
        },
        media: sector[21],
        sectors_per_fat: if le16(sector, 22) != 0 {
            le16(sector, 22) as u32
        } else {
            le32(sector, 36) as u32
        },
        root_cluster: 0,
        fs_info_sector: 0,
    };
    if common.spec_kind() == FatType::Fat32 {
        Geometry {
            root_cluster: le32(sector, 44) as u32,
            fs_info_sector: le16(sector, 48) as u16,
            ..common
        }
    } else {
        common
    }
}

/// Whether `sector` is the boot sector of a volume that can be mounted: it
/// is complete, ends with the signature 0x55 0xAA, declares a layout that a
/// volume can have, and has its 16-bit table size set exactly where the
/// volume is not FAT32.
pub open spec fn is_boot_sector(sector: Seq<u8>) -> bool {
    &&& sector.len() >= BOOT_SECTOR_LEN
    &&& sector[510] == 0x55
    &&& sector[511] == 0xAA
    &&& declared(sector).wf()
    &&& (le16(sector, 22) == 0) == (declared(sector).spec_kind() == FatType::Fat32)
}

impl Geometry {
    /// Reads the layout of a volume from its boot sector. A sector that is
    /// no boot sector of a volume that can be mounted is a corrupted filesystem.
    pub fn parse(sector: &[u8]) -> (result: Result<Geometry, Error>)
        ensures
            is_boot_sector(sector@) ==> result == Ok::<Geometry, Error>(declared(sector@)),
            !is_boot_sector(sector@) ==> result == Err::<Geometry, Error>(
                Error::CorruptedFileSystem,
            ),
    {
        if sector.len() < BOOT_SECTOR_LEN || sector[510] != 0x55 || sector[511] != 0xAA {
            return Err(Error::CorruptedFileSystem);
        }
        let bytes_per_sector = read_le16(sector, 11);
        let sectors_per_cluster = sector[13];
        let reserved_sectors = read_le16(sector, 14);
        let fats = sector[16];
        let root_entries = read_le16(sector, 17);
        let total_16 = read_le16(sector, 19);
        let media = sector[21];
        let fat_16 = read_le16(sector, 22);
        let total_sectors = if total_16 != 0 {
            total_16 as u32
        } else {
            read_le32(sector, 32)
        };
        let sectors_per_fat = if fat_16 != 0 {
            fat_16 as u32
        } else {
            read_le32(sector, 36)
        };
        let common = Geometry {
            bytes_per_sector,
            sectors_per_cluster,
            reserved_sectors,
            fats,
            root_entries,
            total_sectors,
            media,
            sectors_per_fat,
            root_cluster: 0,
            fs_info_sector: 0,
        };
        if !common.shape_ok() {
            return Err(Error::CorruptedFileSystem);
        }
        let geometry = if common.kind() == FatType::Fat32 {
            Geometry {
                root_cluster: read_le32(sector, 44),
                fs_info_sector: read_le16(sector, 48),
                ..common
            }
        } else {
            common
        };
        if !geometry.check() || (fat_16 == 0) != (geometry.kind() == FatType::Fat32) {
            return Err(Error::CorruptedFileSystem);
        }
        Ok(geometry)
    }

    /// Whether the sizes of the layout are in order, so that the number of
    /// clusters can be computed.
    pub open spec fn spec_shape_ok(self) -> bool {
        &&& (self.bytes_per_sector == 512 || self.bytes_per_sector == 1024
            || self.bytes_per_sector == 2048 || self.bytes_per_sector == 4096)
        &&& (self.sectors_per_cluster == 1 || self.sectors_per_cluster == 2
            || self.sectors_per_cluster == 4 || self.sectors_per_cluster == 8
            || self.sectors_per_cluster == 16 || self.sectors_per_cluster == 32
            || self.sectors_per_cluster == 64 || self.sectors_per_cluster == 128)
        &&& self.reserved_sectors >= 1
        &&& self.fats >= 1
        &&& self.sectors_per_fat >= 1
        &&& self.first_data_sector() <= self.total_sectors
    }

    /// Whether the sizes of the layout are in order.
    #[verifier::when_used_as_spec(spec_shape_ok)]
    pub fn shape_ok(self) -> (ok: bool)
        ensures
            ok == self.spec_shape_ok(),
    {
        let bps = self.bytes_per_sector;
        let spc = self.sectors_per_cluster;
        if !(bps == 512 || bps == 1024 || bps == 2048 || bps == 4096) {
            return false;
        }
        if !(spc == 1 || spc == 2 || spc == 4 || spc == 8 || spc == 16 || spc == 32 || spc == 64
            || spc == 128) {
            return false;
        }
        if self.reserved_sectors < 1 || self.fats < 1 || self.sectors_per_fat < 1 {
            return false;
        }
        let root = (self.root_entries as u64 * 32 + bps as u64 - 1) / (bps as u64);
        assert(self.fats * self.sectors_per_fat <= 255 * 0xFFFF_FFFF) by (nonlinear_arith)
            requires
                self.fats <= 255,
                self.sectors_per_fat <= 0xFFFF_FFFF,
        ;
        let first = self.reserved_sectors as u64 + (self.fats as u64) * (
        self.sectors_per_fat as u64) + root;
        first <= self.total_sectors as u64
    }

    /// The number of data clusters of the volume.
    pub fn cluster_count(self) -> (count: u32)
        requires
            self.spec_shape_ok(),
        ensures
            count == self.spec_cluster_count(),
    {
        let bps = self.bytes_per_sector as u64;
        let root = (self.root_entries as u64 * 32 + bps - 1) / bps;
        assert(self.fats * self.sectors_per_fat <= 255 * 0xFFFF_FFFF) by (nonlinear_arith)
            requires
                self.fats <= 255,
                self.sectors_per_fat <= 0xFFFF_FFFF,
        ;
        let first = self.reserved_sectors as u64 + (self.fats as u64) * (
        self.sectors_per_fat as u64) + root;
        ((self.total_sectors as u64 - first) / (self.sectors_per_cluster as u64)) as u32
    }

    /// The variant of the volume.
    pub fn kind(self) -> (kind: FatType)
        requires
            self.spec_shape_ok(),
        ensures
            kind == self.spec_kind(),
    {
        FatType::from_clusters(self.cluster_count())
    }

    /// The number of bytes of a cluster.
    pub fn cluster_size(self) -> (size: u32)
        ensures
            size == self.spec_cluster_size(),
    {
        assert(self.bytes_per_sector * self.sectors_per_cluster <= 65535 * 255) by (nonlinear_arith)
            requires
                self.bytes_per_sector <= 65535,
                self.sectors_per_cluster <= 255,
        ;
        self.bytes_per_sector as u32 * self.sectors_per_cluster as u32
    }

    /// Whether the layout is one that a volume can have.
    pub fn check(self) -> (ok: bool)
        ensures
            ok == self.wf(),
    {
        if !self.shape_ok() {
            return false;
        }
        let count = self.cluster_count();
        let kind = self.kind();
        if count > kind.max_clusters() {
            return false;
        }
        let last = count as u64 + 1;
        let needed = match kind {
            FatType::Fat12 => last + last / 2 + 2,
            FatType::Fat16 => 2 * last + 2,
            FatType::Fat32 => 4 * last + 4,
        };
        assert(self.sectors_per_fat * self.bytes_per_sector <= 0xFFFF_FFFF * 65535)
            by (nonlinear_arith)
            requires
                self.bytes_per_sector <= 65535,
                self.sectors_per_fat <= 0xFFFF_FFFF,
        ;
        if needed > (self.sectors_per_fat as u64) * (self.bytes_per_sector as u64) {
            return false;
        }
        match kind {
            FatType::Fat32 => self.root_entries == 0 && 2 <= self.root_cluster && self.root_cluster
                - 2 < count && 1 <= self.fs_info_sector && self.fs_info_sector
                < self.reserved_sectors,
            _ => self.root_cluster == 0 && self.fs_info_sector == 0 && self.sectors_per_fat
                <= 0xFFFF,
        }
    }
}

/// Reading a 32-bit number back from where it was written gives the number.
pub proof fn lemma_le32_written(bytes: Seq<u8>, at: int, value: u32)
    requires
        0 <= at,
        at + 4 <= bytes.len(),
    ensures
        with_le32(bytes, at, value).len() == bytes.len(),
        le32(with_le32(bytes, at, value), at) == value,
        forall|i: int|
            0 <= i < bytes.len() && !(at <= i < at + 4) ==> with_le32(bytes, at, value)[i]
                == bytes[i],
{
    let q1 = value / 256;
    let q2 = q1 / 256;
    let q3 = q2 / 256;
    assert(value == 256 * q1 + value % 256);
    assert(q1 == 256 * q2 + q1 % 256);
    assert(q2 == 256 * q3 + q2 % 256);
    assert(q2 == value / 65536);
    assert(q3 == value / 16777216);
}

impl Geometry {
    /// Whether the number of sectors is written to the 16-bit field of the
    /// boot sector: it fits there, and the volume is not FAT32.
    pub open spec fn short_total(self) -> bool {
        self.total_sectors < 0x1_0000 && self.spec_kind() != FatType::Fat32
    }

    /// Writes the boot sector of a volume with this layout: 512 bytes that
    /// begin with a jump and a system name and end with the signature
    /// 0x55 0xAA. A number of sectors that fits into 16 bits stands in the
    /// 16-bit field, save on FAT32; the size of the table stands in the
    /// 16-bit field on FAT12 and FAT16 and in the 32-bit field on FAT32.
    /// Every byte that is no part of a field of the layout, of the jump, the
    /// name or the signature is zero.
    pub fn encode(self) -> (sector: Vec<u8>)
        requires
            self.wf(),
            self.total_sectors >= 1,
        ensures
            sector@.len() == BOOT_SECTOR_LEN,
            is_boot_sector(sector@),
            declared(sector@) == self,
            sector@[0] == 0xEB && sector@[1] == 0x3C && sector@[2] == 0x90,
            sector@.subrange(3, 11) == seq![0x4Du8, 0x53, 0x57, 0x49, 0x4E, 0x34, 0x2E, 0x31],
            le16(sector@, 19) == if self.short_total() {
                self.total_sectors as int
            } else {
                0
            },
            le32(sector@, 32) == if self.short_total() {
                0
            } else {
                self.total_sectors as int
            },
            le16(sector@, 22) == if self.spec_kind() == FatType::Fat32 {
                0
            } else {
                self.sectors_per_fat as int
            },
            forall|i: int|
                (24 <= i < 32) || (52 <= i < 510) || (self.spec_kind() != FatType::Fat32 && 36 <= i
                    < 510) || (40 <= i < 44) || (50 <= i < 52) ==> sector@[i] == 0,
    {
        let mut sector: Vec<u8> = Vec::new();
        let mut n: usize = 0;
        while n < BOOT_SECTOR_LEN
            invariant
                n <= BOOT_SECTOR_LEN,
                sector@.len() == n,
                forall|i: int| 0 <= i < n ==> sector@[i] == 0,
            decreases BOOT_SECTOR_LEN - n,
        {
            sector.push(0);
            n += 1;
        }
        let fat32 = match self.kind() {
            FatType::Fat32 => true,
            _ => false,
        };
        sector[0] = 0xEB;
        sector[1] = 0x3C;
        sector[2] = 0x90;
        sector[3] = 0x4D;
        sector[4] = 0x53;
        sector[5] = 0x57;
        sector[6] = 0x49;
        sector[7] = 0x4E;
        sector[8] = 0x34;
        sector[9] = 0x2E;
        sector[10] = 0x31;
        write_le16(&mut sector, 11, self.bytes_per_sector);
        sector[13] = self.sectors_per_cluster;
        write_le16(&mut sector, 14, self.reserved_sectors);
        sector[16] = self.fats;
        write_le16(&mut sector, 17, self.root_entries);
        sector[21] = self.media;
        let ghost fixed = sector@;
        proof {
            assert(le16(fixed, 11) == self.bytes_per_sector);
            assert(le16(fixed, 14) == self.reserved_sectors);
            assert(le16(fixed, 17) == self.root_entries);
        }
        if self.total_sectors < 0x1_0000 && !fat32 {
            write_le16(&mut sector, 19, self.total_sectors as u16);
        } else {
            write_le32(&mut sector, 32, self.total_sectors);
            proof {
                lemma_le32_written(fixed, 32, self.total_sectors);
            }
        }
        let ghost sized = sector@;
        if fat32 {
            write_le32(&mut sector, 36, self.sectors_per_fat);
            proof {
                lemma_le32_written(sized, 36, self.sectors_per_fat);
            }
            let ghost tabled = sector@;
            write_le32(&mut sector, 44, self.root_cluster);
            proof {
                lemma_le32_written(tabled, 44, self.root_cluster);
            }
            write_le16(&mut sector, 48, self.fs_info_sector);
        } else {
            write_le16(&mut sector, 22, self.sectors_per_fat as u16);
        }
        sector[510] = 0x55;
        sector[511] = 0xAA;
        proof {
            let b = sector@;
            assert(b.subrange(3, 11) =~= seq![0x4Du8, 0x53, 0x57, 0x49, 0x4E, 0x34, 0x2E, 0x31]);
            assert(le16(b, 11) == self.bytes_per_sector);
            assert(b[13] == self.sectors_per_cluster);
            assert(le16(b, 14) == self.reserved_sectors);
            assert(b[16] == self.fats);
            assert(le16(b, 17) == self.root_entries);
            assert(b[21] == self.media);
            assert(le16(b, 19) == if self.short_total() {
                self.total_sectors as int
            } else {
                0
            });
            assert(le32(b, 32) == if self.short_total() {
                0
            } else {
                self.total_sectors as int
            });
            assert(le16(b, 22) == if fat32 {
                0
            } else {
                self.sectors_per_fat as int
            });
            if fat32 {
                assert(le32(b, 36) == self.sectors_per_fat);
                assert(le32(b, 44) == self.root_cluster);
                assert(le16(b, 48) == self.fs_info_sector);
            }
            let d = declared(b);
            assert(d.bytes_per_sector == self.bytes_per_sector);
            assert(d.total_sectors == self.total_sectors);
            assert(d.sectors_per_fat == self.sectors_per_fat);
            let common = Geometry { root_cluster: 0, fs_info_sector: 0, ..self };
            assert(common.spec_kind() == self.spec_kind());
            assert(d == self);
        }
        sector
    }
}

/// Whether the sizes can be those of a volume: 512 to 4096 bytes per
/// sector and 1 to 128 sectors per cluster, each a power of two, and at
/// least one copy of the allocation table.
pub open spec fn sizes_ok(bytes_per_sector: u16, sectors_per_cluster: u8, fats: u8) -> bool {
    &&& (bytes_per_sector == 512 || bytes_per_sector == 1024 || bytes_per_sector == 2048
        || bytes_per_sector == 4096)
    &&& (sectors_per_cluster == 1 || sectors_per_cluster == 2 || sectors_per_cluster == 4
        || sectors_per_cluster == 8 || sectors_per_cluster == 16 || sectors_per_cluster == 32
        || sectors_per_cluster == 64 || sectors_per_cluster == 128)
    &&& fats >= 1
}

/// The layout of a new volume before the size of its allocation table is
/// known. A FAT32 volume has 32 reserved sectors, its FSInfo in sector 1, no
/// fixed root directory and its root directory in cluster 2; any other has
/// one reserved sector and the fixed root directory asked for.
pub open spec fn plan_base(
    total_sectors: u32,
    bytes_per_sector: u16,
    sectors_per_cluster: u8,
    fats: u8,
    root_entries: u16,
    media: u8,
    fat32: bool,
) -> Geometry {
    Geometry {
        bytes_per_sector,
        sectors_per_cluster,
        reserved_sectors: if fat32 {
            32
        } else {
            1
        },
        fats,
        root_entries: if fat32 {
            0
        } else {
            root_entries
        },
        total_sectors,
        media,
        sectors_per_fat: 0,
        root_cluster: if fat32 {
            2
        } else {
            0
        },
        fs_info_sector: if fat32 {
            1
        } else {
            0
        },
    }
}

/// The layout of a new volume of `total_sectors` sectors. The variant
/// follows from the number of clusters that the volume would have without
/// its allocation table: from 65525 clusters on it is laid out as FAT32. The
/// allocation table is as large as that number of clusters needs, in whole
/// sectors. Where the sizes are not in order, or the result is no layout
/// that a volume can have, there is none.
pub open spec fn planned(
    total_sectors: u32,
    bytes_per_sector: u16,
    sectors_per_cluster: u8,
    fats: u8,
    root_entries: u16,
    media: u8,
) -> Option<Geometry> {
    let narrow = plan_base(
        total_sectors,
        bytes_per_sector,
        sectors_per_cluster,
        fats,
        root_entries,
        media,
        false,
    );
    if !sizes_ok(bytes_per_sector, sectors_per_cluster, fats) || narrow.first_data_sector()
        > total_sectors {
        None
    } else {
        let base = plan_base(
            total_sectors,
            bytes_per_sector,
            sectors_per_cluster,
            fats,
            root_entries,
            media,
            narrow.spec_cluster_count() >= 65525,
        );
        if base.first_data_sector() > total_sectors {
            None
        } else {
            let count = base.spec_cluster_count();
            let needed = entry_end(base.spec_kind(), count + 1);
            let geometry = Geometry {
                sectors_per_fat: ((needed + bytes_per_sector - 1) / (bytes_per_sector as int)) as u32,
                ..base
            };
            if geometry.wf() {
                Some(geometry)
            } else {
                None
            }
        }
    }
}

impl Geometry {
    /// Lays out a new volume of `total_sectors` sectors.
    pub fn plan(
        total_sectors: u32,
        bytes_per_sector: u16,
        sectors_per_cluster: u8,
        fats: u8,
        root_entries: u16,
        media: u8,
    ) -> (geometry: Option<Geometry>)
        ensures
            geometry == planned(
                total_sectors,
                bytes_per_sector,
                sectors_per_cluster,
                fats,
                root_entries,
                media,
            ),
            geometry matches Some(g) ==> g.wf(),
    {
        let bps = bytes_per_sector;
        let spc = sectors_per_cluster;
        if !(bps == 512 || bps == 1024 || bps == 2048 || bps == 4096) {
            return None;
        }
        if !(spc == 1 || spc == 2 || spc == 4 || spc == 8 || spc == 16 || spc == 32 || spc == 64
            || spc == 128) {
            return None;
        }
        if fats < 1 {
            return None;
        }
        let ghost narrow = plan_base(total_sectors, bps, spc, fats, root_entries, media, false);
        let root = root_sectors(root_entries, bps);
        assert(narrow.root_dir_sectors() == root);
        assert(narrow.fats * narrow.sectors_per_fat == 0) by (nonlinear_arith)
            requires
                narrow.sectors_per_fat == 0,
        ;
        assert(narrow.first_data_sector() == 1 + root);
        if 1 + root > total_sectors as u64 {
            return None;
        }
        let narrow_count = clusters_behind(total_sectors, 1 + root, spc);
        assert(narrow.spec_cluster_count() == narrow_count);
        let fat32 = narrow_count >= 65525;
        let ghost base = plan_base(total_sectors, bps, spc, fats, root_entries, media, fat32);
        assert(base.fats * base.sectors_per_fat == 0) by (nonlinear_arith)
            requires
                base.sectors_per_fat == 0,
        ;
        let first: u64 = if fat32 {
            32
        } else {
            1 + root
        };
        assert(base.root_dir_sectors() == if fat32 {
            0
        } else {
            root as int
        }) by {
            if fat32 {
                assert((bps - 1) / (bps as int) == 0);
            }
        }
        assert(base.first_data_sector() == first);
        if first > total_sectors as u64 {
            return None;
        }
        let count = clusters_behind(total_sectors, first, spc);
        assert(base.spec_cluster_count() == count);
        let sectors_per_fat = table_sectors(count, bps);
        assert(sectors_per_fat == (entry_end(base.spec_kind(), count + 1) + bps - 1) / (bps as int));
        let geometry = Geometry {
            bytes_per_sector,
            sectors_per_cluster,
            reserved_sectors: if fat32 {
                32
            } else {
                1
            },
            fats,
            root_entries: if fat32 {
                0
            } else {
                root_entries
            },
            total_sectors,
            media,
            sectors_per_fat,
            root_cluster: if fat32 {
                2
            } else {
                0
            },
            fs_info_sector: if fat32 {
                1
            } else {
                0
            },
        };
        assert(geometry == Geometry { sectors_per_fat, ..base });
        if geometry.check() {
            Some(geometry)
        } else {
            None
        }
    }
}

/// The number of sectors of a fixed root directory of `root_entries` entries.
fn root_sectors(root_entries: u16, bytes_per_sector: u16) -> (sectors: u64)
    requires
        bytes_per_sector >= 512,
    ensures
        sectors == (root_entries * 32 + bytes_per_sector - 1) / (bytes_per_sector as int),
        sectors <= 0x30_0000,
{
    let x = root_entries as u64 * 32 + bytes_per_sector as u64 - 1;
    let q = x / (bytes_per_sector as u64);
    assert(q <= x) by (nonlinear_arith)
        requires
            q == x / (bytes_per_sector as u64),
            bytes_per_sector >= 1,
            x >= 0,
    ;
    q
}

/// The number of clusters that fit behind the sector `first`.
fn clusters_behind(total_sectors: u32, first: u64, sectors_per_cluster: u8) -> (count: u64)
    requires
        first <= total_sectors,
        sectors_per_cluster >= 1,
    ensures
        count == (total_sectors - first) / (sectors_per_cluster as int),
        count <= total_sectors,
{
    (total_sectors as u64 - first) / (sectors_per_cluster as u64)
}

/// The number of sectors that the allocation table of `count` clusters
/// takes.
fn table_sectors(count: u64, bytes_per_sector: u16) -> (sectors: u32)
    requires
        count <= 0xFFFF_FFFF,
        bytes_per_sector >= 512,
    ensures
        sectors == (entry_end(FatType::spec_from_clusters(count as u32), count + 1)
            + bytes_per_sector - 1) / (bytes_per_sector as int),
{
    let last = count + 1;
    let needed = if count < 4085 {
        last + last / 2 + 2
    } else if count < 65525 {
        2 * last + 2
    } else {
        4 * last + 4
    };
    let x = needed + bytes_per_sector as u64 - 1;
    let q = x / (bytes_per_sector as u64);
    assert(q * 512 <= x) by (nonlinear_arith)
        requires
            q == x / (bytes_per_sector as u64),
            bytes_per_sector >= 512,
            x >= 0,
    ;
    q as u32
}

} // verus!
