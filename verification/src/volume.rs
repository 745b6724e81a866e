//! The filesystem facade: a mounted volume, taken apart into its regions,
//! and put together again when it is unmounted.
//!
//! A volume begins with its reserved sectors, the boot sector first. The
//! copies of the allocation table follow, then the fixed root directory
//! (which FAT32 does not have), then the data clusters.
use crate::boot::{declared, Geometry, is_boot_sector, le32, write_le32};
use crate::carve::{
    CandidateModel, Carver, CarverModel, file_models, lemma_scan_gathers, picked_bytes,
    picked_numbers, recovered,
};
use crate::chain::{
    chain_of, extended, free_count, free_order, is_chain, is_cluster,
    lemma_chain_bounded, lemma_chain_frame, lemma_chain_in_use, lemma_extended_chain,
    lemma_extended_frame, occurs, truncated,
};
use crate::dir::{
    answers_to, ATTR_DIRECTORY, ATTR_LONG_NAME, chosen_short, DirEntry, entry_name, find_entry,
    fit_from, lemma_dir_grown, list, listed, long_slots, Meta, meta_at, name_taken, placed,
    read_meta, removed, run_len, short_bytes, write_short_slot,
};
use crate::entry::{ClusterEntry, FatType};
use crate::error::Error;
use crate::file::{
    attached, clusters_for, File, file_chain, grown_first, grown_table, lemma_chain_bytes_frame,
    lemma_chain_bytes_push, lemma_chains_apart, overlaid, within_chain, zeros,
};
use crate::name::valid_name;
use crate::raw::{
    entry_end, lemma_read_other, lemma_read_written, lemma_write_is_local, raw_at, write_raw,
};
use crate::recovery::{RecoveryFactory, RecoveryFile};
use crate::store::{chain_bytes, cluster_bytes, ClusterStore};
use crate::table::{FatTable, table_entries, table_len};
use vstd::prelude::*;
use vstd::slice::slice_to_vec;

verus! {

impl Geometry {
    /// The byte at which the first copy of the allocation table begins.
    pub open spec fn fat_start(self) -> int {
        self.reserved_sectors * self.bytes_per_sector
    }

    /// The number of bytes of one copy of the allocation table.
    pub open spec fn fat_len(self) -> int {
        self.sectors_per_fat * self.bytes_per_sector
    }

    /// The byte at which the fixed root directory begins.
    pub open spec fn root_start(self) -> int {
        self.fat_start() + self.fats * self.fat_len()
    }

    /// The number of bytes of the fixed root directory.
    pub open spec fn root_len(self) -> int {
        self.root_dir_sectors() * self.bytes_per_sector
    }

    /// The byte at which the data region begins.
    pub open spec fn data_start(self) -> int {
        self.root_start() + self.root_len()
    }

    /// The number of bytes of the data region.
    pub open spec fn data_len(self) -> int {
        self.spec_cluster_count() * self.spec_cluster_size()
    }

    /// The byte behind the last data cluster.
    pub open spec fn data_end(self) -> int {
        self.data_start() + self.data_len()
    }

    /// The byte at which `cluster` begins on the volume.
    pub open spec fn offset_of(self, cluster: int) -> int {
        self.data_start() + (cluster - 2) * self.spec_cluster_size()
    }

    /// The places of the regions of a volume, in bytes: where the allocation
    /// table begins, how long one copy is, where the root directory begins,
    /// where the data region begins and where it ends.
    pub fn regions(self) -> (places: (u64, u64, u64, u64, u64))
        requires
            self.wf(),
        ensures
            places.0 == self.fat_start(),
            places.1 == self.fat_len(),
            places.2 == self.root_start(),
            places.3 == self.data_start(),
            places.4 == self.data_end(),
            places.0 <= places.2 <= places.3 <= places.4,
            places.1 >= 1,
    {
        let bps = self.bytes_per_sector as u64;
        let count = self.cluster_count() as u64;
        let cluster_size = self.cluster_size() as u64;
        proof {
            let b = self.bytes_per_sector as int;
            let r = self.reserved_sectors as int;
            let f = self.fats as int;
            let s = self.sectors_per_fat as int;
            let c = self.spec_cluster_count();
            let z = self.spec_cluster_size();
            assert(0 <= r * b <= 0xFFFF * 0x1000) by (nonlinear_arith)
                requires
                    0 <= r <= 0xFFFF,
                    0 <= b <= 0x1000,
            ;
            assert(1 <= s * b <= 0xFFFF_FFFF * 0x1000) by (nonlinear_arith)
                requires
                    1 <= s <= 0xFFFF_FFFF,
                    512 <= b <= 0x1000,
            ;
            assert(0 <= f * (s * b) <= 255 * (0xFFFF_FFFF * 0x1000)) by (nonlinear_arith)
                requires
                    0 <= f <= 255,
                    0 <= s * b <= 0xFFFF_FFFF * 0x1000,
            ;
            let num = self.root_entries * 32 + b - 1;
            let rds = self.root_dir_sectors();
            assert(0 <= rds && rds * b <= num) by (nonlinear_arith)
                requires
                    rds == num / b,
                    b >= 1,
                    num >= 0,
            ;
            assert(0 <= rds * b) by (nonlinear_arith)
                requires
                    0 <= rds,
                    0 <= b,
            ;
            assert(0 <= z <= 0x1000 * 128) by (nonlinear_arith)
                requires
                    z == b * self.sectors_per_cluster,
                    0 <= b <= 0x1000,
                    0 <= self.sectors_per_cluster <= 128,
            ;
            assert(0 <= c * z <= 0x0FFF_FFF5 * (0x1000 * 128)) by (nonlinear_arith)
                requires
                    0 <= c <= 0x0FFF_FFF5,
                    0 <= z <= 0x1000 * 128,
            ;
        }
        let fat_start = self.reserved_sectors as u64 * bps;
        let fat_len = self.sectors_per_fat as u64 * bps;
        let root_start = fat_start + self.fats as u64 * fat_len;
        let root_sectors = (self.root_entries as u64 * 32 + bps - 1) / bps;
        let data_start = root_start + root_sectors * bps;
        let data_end = data_start + count * cluster_size;
        (fat_start, fat_len, root_start, data_start, data_end)
    }
}

/// Whether `image` holds a volume that can be mounted: it begins with the
/// boot sector of such a volume and is long enough for what the sector
/// declares.
pub open spec fn is_volume(image: Seq<u8>) -> bool {
    &&& is_boot_sector(image)
    &&& declared(image).data_end() <= image.len()
}

/// A mounted volume.
pub struct FileSystem {
    geometry: Geometry,
    head: Vec<u8>,
    fat: FatTable,
    root: Vec<u8>,
    store: ClusterStore,
    tail: Vec<u8>,
}

impl FileSystem {
    /// The layout of the volume.
    pub closed spec fn spec_geometry(&self) -> Geometry {
        self.geometry
    }

    /// The reserved sectors of the volume, the boot sector first.
    pub closed spec fn head(&self) -> Seq<u8> {
        self.head@
    }

    /// The allocation table of the volume.
    pub closed spec fn fat(&self) -> &FatTable {
        &self.fat
    }

    /// The fixed root directory of the volume; empty on FAT32.
    pub closed spec fn root(&self) -> Seq<u8> {
        self.root@
    }

    /// The data region of the volume.
    pub closed spec fn store(&self) -> &ClusterStore {
        &self.store
    }

    /// What lies on the volume behind its last data cluster.
    pub closed spec fn tail(&self) -> Seq<u8> {
        self.tail@
    }

    /// Whether the volume is in order: its parts are, and they have the
    /// sizes that the layout gives them.
    pub open spec fn wf(&self) -> bool {
        let g = self.spec_geometry();
        &&& g.wf()
        &&& attached(self.fat(), self.store())
        &&& self.fat().spec_kind() == g.spec_kind()
        &&& self.fat().spec_cluster_count() == g.spec_cluster_count()
        &&& self.fat().copies().len() == g.fats
        &&& self.fat().bytes().len() == g.fat_len()
        &&& self.store().spec_cluster_size() == g.spec_cluster_size()
        &&& self.head().len() == g.fat_start()
        &&& self.root().len() == g.root_len()
    }

    /// The bytes of all copies of the allocation table from the copy `from`
    /// on, one after the other.
    pub open spec fn fat_region(&self, from: int) -> Seq<u8>
        decreases self.fat().copies().len() - from,
    {
        if from >= self.fat().copies().len() {
            Seq::empty()
        } else {
            self.fat().copies()[from] + self.fat_region(from + 1)
        }
    }

    /// The bytes of the volume.
    pub open spec fn image(&self) -> Seq<u8> {
        self.head() + self.fat_region(0) + self.root() + self.store().data() + self.tail()
    }

    /// The layout of the volume.
    #[verifier::when_used_as_spec(spec_geometry)]
    pub fn geometry(&self) -> (geometry: Geometry)
        ensures
            geometry == self.spec_geometry(),
    {
        self.geometry
    }

    /// Mounts the volume that `image` holds. Of the copies of the
    /// allocation table the first is read. An image that holds no volume
    /// that can be mounted is a corrupted filesystem.
    pub fn mount(image: Vec<u8>) -> (result: Result<FileSystem, Error>)
        ensures
            result is Ok <==> is_volume(image@),
            result matches Ok(fs) ==> {
                let g = declared(image@);
                &&& fs.wf()
                &&& fs.spec_geometry() == g
                &&& fs.head() == image@.subrange(0, g.fat_start())
                &&& fs.fat().bytes() == image@.subrange(g.fat_start(), g.fat_start() + g.fat_len())
                &&& fs.fat().cached_free() is None
                &&& fs.root() == image@.subrange(g.root_start(), g.data_start())
                &&& fs.store().data() == image@.subrange(g.data_start(), g.data_end())
                &&& fs.tail() == image@.subrange(g.data_end(), image@.len() as int)
            },
            result matches Err(e) ==> e == Error::CorruptedFileSystem,
    {
        let geometry = match Geometry::parse(image.as_slice()) {
            Ok(geometry) => geometry,
            Err(e) => {
                return Err(e);
            },
        };
        let (fat_start, fat_len, root_start, data_start, data_end) = geometry.regions();
        if data_end > image.len() as u64 {
            return Err(Error::CorruptedFileSystem);
        }
        let ghost whole = image@;
        let mut head = image;
        let tail = head.split_off(data_end as usize);
        let data = head.split_off(data_start as usize);
        let root = head.split_off(root_start as usize);
        let mut table = head.split_off(fat_start as usize);
        proof {
            let f = geometry.fats as int;
            let l = geometry.fat_len();
            assert(l <= f * l) by (nonlinear_arith)
                requires
                    f >= 1,
                    l >= 0,
            ;
        }
        table.truncate(fat_len as usize);
        assert(table@ =~= whole.subrange(fat_start as int, fat_start + fat_len));
        assert(head@ =~= whole.subrange(0, fat_start as int));
        assert(root@ =~= whole.subrange(root_start as int, data_start as int));
        assert(data@ =~= whole.subrange(data_start as int, data_end as int));
        assert(tail@ =~= whole.subrange(data_end as int, whole.len() as int));
        let fat = match FatTable::new(
            geometry.kind(),
            geometry.cluster_count(),
            table,
            geometry.fats as usize,
        ) {
            Ok(fat) => fat,
            Err(e) => {
                return Err(e);
            },
        };
        proof {
            let b = geometry.bytes_per_sector as int;
            let c = geometry.sectors_per_cluster as int;
            assert(b * c >= 1) by (nonlinear_arith)
                requires
                    b >= 512,
                    c >= 1,
            ;
            assert(data@.len() == geometry.spec_cluster_count() * geometry.spec_cluster_size());
        }
        let store = match ClusterStore::new(
            geometry.cluster_size() as usize,
            geometry.cluster_count(),
            data,
        ) {
            Ok(store) => store,
            Err(_) => {
                return Err(Error::CorruptedFileSystem);
            },
        };
        Ok(FileSystem { geometry, head, fat, root, store, tail })
    }
}

/// The free clusters among the clusters below `upto`, in ascending order,
/// each with its bytes.
pub open spec fn free_clusters(
    entries: Seq<ClusterEntry>,
    data: Seq<u8>,
    cluster_size: int,
    upto: int,
) -> Seq<(u32, Seq<u8>)>
    decreases upto,
{
    if upto <= 2 {
        Seq::empty()
    } else {
        let before = free_clusters(entries, data, cluster_size, upto - 1);
        if entries[upto - 1] == ClusterEntry::Free {
            before.push(((upto - 1) as u32, cluster_bytes(data, cluster_size, upto - 1)))
        } else {
            before
        }
    }
}

/// What a volume has of clusters.
#[derive(Debug, PartialEq, Eq, Clone, Copy, Structural)]
pub struct Stats {
    /// The number of free clusters.
    pub free_clusters: u32,
    /// The number of data clusters.
    pub total_clusters: u32,
    /// The number of bytes of a cluster.
    pub cluster_size: u32,
}

impl FileSystem {
    /// The copies of the allocation table from `from` on, laid end to end,
    /// are as many times the one table as there are copies.
    pub proof fn lemma_fat_region(&self, from: int, k: int)
        requires
            self.fat().copies_agree(),
            0 <= from <= k < self.fat().copies().len(),
        ensures
            self.fat_region(from).len() == (self.fat().copies().len() - from)
                * self.fat().bytes().len(),
            self.fat_region(from).subrange(
                (k - from) * self.fat().bytes().len(),
                (k - from + 1) * self.fat().bytes().len(),
            ) == self.fat().bytes(),
        decreases self.fat().copies().len() - from,
    {
        let n = self.fat().copies().len() as int;
        let len = self.fat().bytes().len() as int;
        let rest = self.fat_region(from + 1);
        let whole = self.fat_region(from);
        let d = k - from;
        assert(self.fat().copies()[from] == self.fat().bytes());
        assert(whole == self.fat().bytes() + rest);
        assert((n - from) * len == len + (n - from - 1) * len) by (nonlinear_arith);
        assert((d + 1) * len == d * len + len) by (nonlinear_arith);
        assert(0 <= d * len && (d + 1) * len <= (n - from) * len) by (nonlinear_arith)
            requires
                0 <= d,
                d + 1 <= n - from,
                len >= 0,
        ;
        if from + 1 < n {
            self.lemma_fat_region(from + 1, if k > from {
                k
            } else {
                from + 1
            });
        } else {
            assert(rest =~= Seq::<u8>::empty());
            assert((n - from - 1) * len == 0) by (nonlinear_arith)
                requires
                    n - from - 1 == 0,
            ;
        }
        assert(whole.len() == (n - from) * len);
        if k == from {
            assert(d * len == 0) by (nonlinear_arith)
                requires
                    d == 0,
            ;
            assert(whole.subrange(0, len) =~= self.fat().bytes());
        } else {
            assert(d * len == len + (d - 1) * len) by (nonlinear_arith);
            assert((d - 1) * len >= 0) by (nonlinear_arith)
                requires
                    d - 1 >= 0,
                    len >= 0,
            ;
            assert((k - (from + 1)) * len == (d - 1) * len);
            assert((k - (from + 1) + 1) * len == d * len);
            assert(whole.subrange(d * len, (d + 1) * len) =~= rest.subrange(
                (d - 1) * len,
                d * len,
            ));
        }
    }

    /// On the volume as it is written back, every copy of the allocation
    /// table holds the same bytes.
    pub proof fn lemma_copies_agree(&self, k: int)
        requires
            self.wf(),
            0 <= k < self.spec_geometry().fats,
        ensures
            self.image().subrange(
                self.spec_geometry().fat_start() + k * self.spec_geometry().fat_len(),
                self.spec_geometry().fat_start() + (k + 1) * self.spec_geometry().fat_len(),
            ) == self.fat().bytes(),
    {
        let g = self.spec_geometry();
        let len = g.fat_len();
        self.lemma_fat_region(0, k);
        let region = self.fat_region(0);
        assert(len >= 0) by (nonlinear_arith)
            requires
                len == g.sectors_per_fat * g.bytes_per_sector,
                g.sectors_per_fat >= 0,
                g.bytes_per_sector >= 0,
        ;
        assert(k * len >= 0 && (k + 1) * len <= g.fats * len && (k + 1) * len == k * len + len)
            by (nonlinear_arith)
            requires
                0 <= k < g.fats,
                len >= 0,
        ;
        assert((g.fats - 0) * len == g.fats * len);
        assert((k - 0) * len == k * len);
        assert((k - 0 + 1) * len == (k + 1) * len);
        assert(region.len() == g.fats * len);
        assert(self.head().len() == g.fat_start());
        assert(self.image().subrange(g.fat_start() + k * len, g.fat_start() + (k + 1) * len)
            =~= region.subrange(k * len, (k + 1) * len));
    }

    /// Unmounts the volume and gives back its bytes: the reserved sectors,
    /// every copy of the allocation table, the root directory, the data
    /// region and what lay behind it.
    pub fn unmount(self) -> (image: Vec<u8>)
        requires
            self.wf(),
        ensures
            image@ == self.image(),
    {
        let ghost region = self.fat_region(0);
        let ghost copies_model = self.fat().copies();
        let FileSystem { geometry: _, head, fat, root, store, tail } = self;
        let mut image = head;
        let ghost head_bytes = image@;
        let copies = fat.into_copies();
        let mut k: usize = 0;
        while k < copies.len()
            invariant
                k <= copies@.len(),
                copies@.len() == copies_model.len(),
                forall|j: int| 0 <= j < copies@.len() ==> (#[trigger] copies@[j])@ == copies_model[j],
                self.fat().copies() == copies_model,
                forall|j: int| 0 <= j < copies_model.len() ==> #[trigger] copies_model[j]
                    == self.fat().bytes(),
                image@ + self.fat_region(k as int) == head_bytes + region,
                region == self.fat_region(0),
            decreases copies@.len() - k,
        {
            let mut copy = slice_to_vec(copies[k].as_slice());
            let ghost before = image@;
            image.append(&mut copy);
            assert(image@ + self.fat_region(k + 1) =~= before + self.fat_region(k as int));
            k += 1;
        }
        assert(image@ =~= head_bytes + region);
        let mut root = root;
        image.append(&mut root);
        let mut data = store.into_data();
        image.append(&mut data);
        let mut tail = tail;
        image.append(&mut tail);
        image
    }

    /// The number of free clusters, the number of all data clusters, and
    /// the size of a cluster.
    pub fn stats(&mut self) -> (stats: Stats)
        requires
            old(self).wf(),
        ensures
            final(self).wf(),
            final(self).image() == old(self).image(),
            final(self).spec_geometry() == old(self).spec_geometry(),
            stats.free_clusters == free_count(old(self).fat().entries()),
            stats.total_clusters == old(self).spec_geometry().spec_cluster_count(),
            stats.cluster_size == old(self).spec_geometry().spec_cluster_size(),
    {
        let free_clusters = self.fat.count_free();
        proof {
            self.lemma_same_region(*old(self), 0);
        }
        Stats {
            free_clusters,
            total_clusters: self.geometry.cluster_count(),
            cluster_size: self.geometry.cluster_size(),
        }
    }

    /// Volumes with the same copies of the allocation table have the same
    /// table region.
    pub proof fn lemma_same_region(&self, other: FileSystem, from: int)
        requires
            self.fat().copies() == other.fat().copies(),
            0 <= from,
        ensures
            self.fat_region(from) == other.fat_region(from),
        decreases self.fat().copies().len() - from,
    {
        if from < self.fat().copies().len() {
            self.lemma_same_region(other, from + 1);
        }
    }

    /// Carves files out of the free clusters of the volume, which are
    /// scanned in ascending order, and gives back those whose cluster count
    /// lies in `[min_clusters, max_clusters]`. The volume is only read.
    pub fn recovery<F: RecoveryFactory>(
        &self,
        factory: F,
        min_clusters: usize,
        max_clusters: usize,
    ) -> (files: Vec<RecoveryFile<F::State>>)
        requires
            self.wf(),
        ensures
            file_models(files@) == recovered(
                factory,
                free_clusters(
                    self.fat().entries(),
                    self.store().data(),
                    self.store().spec_cluster_size() as int,
                    self.fat().entries().len() as int,
                ),
                min_clusters,
                max_clusters,
            ),
    {
        let end = self.fat.cluster_count() + 2;
        let mut carver = Carver::new(factory);
        let mut cluster: u32 = 2;
        while cluster < end
            invariant
                self.wf(),
                end == self.fat().spec_cluster_count() + 2,
                2 <= cluster <= end,
                carver@ == CarverModel::fresh(factory).scanned(
                    free_clusters(
                        self.fat().entries(),
                        self.store().data(),
                        self.store().spec_cluster_size() as int,
                        cluster as int,
                    ),
                ),
            decreases end - cluster,
        {
            let ghost before = free_clusters(
                self.fat().entries(),
                self.store().data(),
                self.store().spec_cluster_size() as int,
                cluster as int,
            );
            match self.fat.read_entry(cluster) {
                Ok(ClusterEntry::Free) => {
                    let bytes = self.store.read_cluster(cluster);
                    carver.offer(cluster, bytes.as_slice());
                    proof {
                        let after = before.push((cluster, bytes@));
                        assert(after.drop_last() =~= before);
                        assert(after.last() == (cluster, bytes@));
                    }
                },
                _ => {},
            }
            cluster += 1;
        }
        carver.finish(min_clusters, max_clusters)
    }
}

impl FileSystem {
    /// Reads up to `len` bytes at the current offset and moves the offset
    /// behind them. The read ends at the end of the file: at or behind it,
    /// nothing is read. A file whose chain is broken, or too short for its
    /// size, is a corrupted filesystem.
    pub fn read(&self, file: &mut File, len: usize) -> (result: Result<Vec<u8>, Error>)
        requires
            self.wf(),
        ensures
            old(file).content(self.fat(), self.store()) matches Some(content) ==> {
                &&& result matches Ok(bytes) && bytes@ == if old(file).spec_position() >= old(file).spec_size() {
                    Seq::<u8>::empty()
                } else {
                    content.subrange(old(file).spec_position() as int, old(file).read_end(len))
                }
                &&& final(file).spec_position() == old(file).read_end(len)
            },
            old(file).content(self.fat(), self.store()) is None ==> result == Err::<Vec<u8>, Error>(
                Error::CorruptedFileSystem,
            ) && final(file).spec_position() == old(file).spec_position(),
            final(file).spec_first_cluster() == old(file).spec_first_cluster(),
            final(file).spec_size() == old(file).spec_size(),
            final(file).spec_is_dirty() == old(file).spec_is_dirty(),
    {
        file.read(&self.fat, &self.store, len)
    }

    /// Writes `bytes` at the current offset and moves the offset behind
    /// them. A write that reaches behind the end of the file extends the
    /// chain and the size; where it begins behind the end, the gap is filled
    /// with zeros. A file cannot grow beyond `u32::MAX` bytes. Where the
    /// volume has too few free clusters, nothing is written.
    pub fn write(&mut self, file: &mut File, bytes: &[u8]) -> (result: Result<usize, Error>)
        requires
            old(self).wf(),
        ensures
            final(self).wf(),
            final(self).spec_geometry() == old(self).spec_geometry(),
            final(self).head() == old(self).head(),
            final(self).root() == old(self).root(),
            final(self).tail() == old(self).tail(),
            attached(final(self).fat(), final(self).store()),
            final(self).fat().spec_kind() == old(self).fat().spec_kind(),
            final(self).fat().spec_cluster_count() == old(self).fat().spec_cluster_count(),
            final(self).fat().copies().len() == old(self).fat().copies().len(),
            final(self).fat().bytes().len() == old(self).fat().bytes().len(),
            final(self).store().spec_cluster_size() == old(self).store().spec_cluster_size(),
            old(file).content(old(self).fat(), old(self).store()) is None ==> result == Err::<usize, Error>(
                Error::CorruptedFileSystem,
            ),
            old(file).content(old(self).fat(), old(self).store()) matches Some(content) ==> {
                let end = old(file).spec_position() + bytes@.len();
                let missing = clusters_for(end, old(self).store().spec_cluster_size() as int)
                    - file_chain(old(self).fat().entries(), old(file).spec_first_cluster()).unwrap().len();
                &&& bytes@.len() == 0 ==> result == Ok::<usize, Error>(0) && *final(file) == *old(file) && final(self).fat().copies() == old(self).fat().copies() && final(self).store().data() == old(self).store().data()
                &&& bytes@.len() > 0 && end > u32::MAX ==> result == Err::<usize, Error>(
                    Error::InvalidInput,
                )
                &&& bytes@.len() > 0 && end <= u32::MAX && free_count(old(self).fat().entries()) < missing
                    ==> result == Err::<usize, Error>(Error::NotEnoughSpace)
                &&& bytes@.len() > 0 && end <= u32::MAX && free_count(old(self).fat().entries()) >= missing
                    ==> {
                    &&& result == Ok::<usize, Error>(bytes@.len() as usize)
                    &&& final(file).content(final(self).fat(), final(self).store()) == Some(
                        overlaid(content, old(file).spec_position() as int, bytes@),
                    )
                    &&& final(file).spec_size() == overlaid(
                        content,
                        old(file).spec_position() as int,
                        bytes@,
                    ).len()
                    &&& final(file).spec_position() == end
                    &&& final(file).spec_is_dirty()
                    &&& missing <= 0 ==> final(self).fat().copies() == old(self).fat().copies() && final(file).spec_first_cluster() == old(file).spec_first_cluster()
                    &&& final(self).fat().entries() == grown_table(
                        old(self).fat().entries(),
                        old(file).spec_first_cluster(),
                        missing,
                    )
                    &&& final(file).spec_first_cluster() == grown_first(
                        old(self).fat().entries(),
                        old(file).spec_first_cluster(),
                        missing,
                    )
                    &&& final(self).store().data().len() == old(self).store().data().len()
                    &&& forall|x: int|
                        0 <= x < old(self).store().data().len() && !within_chain(
                            file_chain(final(self).fat().entries(), final(file).spec_first_cluster()).unwrap(),
                            old(self).store().spec_cluster_size() as int,
                            x,
                        ) ==> final(self).store().data()[x] == old(self).store().data()[x]
                }
            },
            result is Err ==> *final(file) == *old(file) && final(self).fat().copies() == old(self).fat().copies() && final(self).store().data() == old(self).store().data(),
    {
        file.write(&mut self.fat, &mut self.store, bytes)
    }

    /// Sets the size of the file. A smaller size cuts the chain down to the
    /// clusters that the size needs and frees the rest; a file cut down to
    /// nothing has no cluster left. A greater size appends zeros, as a write
    /// of zeros at the end of the file does. The offset stays where it is.
    pub fn truncate(&mut self, file: &mut File, size: u32) -> (result: Result<(), Error>)
        requires
            old(self).wf(),
        ensures
            final(self).wf(),
            final(self).spec_geometry() == old(self).spec_geometry(),
            final(self).head() == old(self).head(),
            final(self).root() == old(self).root(),
            final(self).tail() == old(self).tail(),
            attached(final(self).fat(), final(self).store()),
            final(self).fat().spec_kind() == old(self).fat().spec_kind(),
            final(self).fat().spec_cluster_count() == old(self).fat().spec_cluster_count(),
            final(self).fat().copies().len() == old(self).fat().copies().len(),
            final(self).fat().bytes().len() == old(self).fat().bytes().len(),
            final(self).store().spec_cluster_size() == old(self).store().spec_cluster_size(),
            final(file).spec_position() == old(file).spec_position(),
            old(file).content(old(self).fat(), old(self).store()) is None ==> result == Err::<(), Error>(
                Error::CorruptedFileSystem,
            ),
            old(file).content(old(self).fat(), old(self).store()) matches Some(content) ==> {
                let chain = file_chain(old(self).fat().entries(), old(file).spec_first_cluster()).unwrap();
                let keep = clusters_for(size as int, old(self).store().spec_cluster_size() as int);
                &&& size <= old(file).spec_size() ==> {
                    &&& result == Ok::<(), Error>(())
                    &&& final(file).content(final(self).fat(), final(self).store()) == Some(
                        content.take(size as int),
                    )
                    &&& final(file).spec_size() == size
                    &&& final(self).store().data() == old(self).store().data()
                    &&& final(self).fat().entries() == truncated(old(self).fat().entries(), chain, keep)
                    &&& final(file).spec_first_cluster() == if size == 0 {
                        0
                    } else {
                        old(file).spec_first_cluster()
                    }
                }
                &&& size > old(file).spec_size() ==> {
                    let missing = keep - chain.len();
                    &&& free_count(old(self).fat().entries()) < missing ==> result == Err::<(), Error>(
                        Error::NotEnoughSpace,
                    )
                    &&& free_count(old(self).fat().entries()) >= missing ==> {
                        &&& result == Ok::<(), Error>(())
                        &&& final(file).content(final(self).fat(), final(self).store()) == Some(
                            overlaid(
                                content,
                                old(file).spec_size() as int,
                                zeros(size - old(file).spec_size()),
                            ),
                        )
                        &&& final(file).spec_size() == size
                        &&& final(self).fat().entries() == grown_table(
                            old(self).fat().entries(),
                            old(file).spec_first_cluster(),
                            missing,
                        )
                        &&& final(file).spec_first_cluster() == grown_first(
                            old(self).fat().entries(),
                            old(file).spec_first_cluster(),
                            missing,
                        )
                        &&& final(self).store().data().len() == old(self).store().data().len()
                        &&& forall|x: int|
                            0 <= x < old(self).store().data().len() && !within_chain(
                                file_chain(
                                    final(self).fat().entries(),
                                    final(file).spec_first_cluster(),
                                ).unwrap(),
                                old(self).store().spec_cluster_size() as int,
                                x,
                            ) ==> final(self).store().data()[x] == old(self).store().data()[x]
                    }
                }
            },
            result is Err ==> *final(file) == *old(file) && final(self).fat().copies() == old(self).fat().copies() && final(self).store().data() == old(self).store().data(),
    {
        file.truncate(&mut self.fat, &mut self.store, size)
    }
}

/// The greatest length of a directory in bytes: 65536 slots.
pub const MAX_DIR_LEN: usize = 0x20_0000;

/// A directory of a volume: the fixed root directory, or one that lies in a
/// cluster chain.
#[derive(Debug, PartialEq, Eq, Clone, Copy, Structural)]
pub struct Dir {
    /// The first cluster of the directory; 0 for the fixed root directory.
    pub first_cluster: u32,
}

impl Dir {
    /// The first cluster of the directory; 0 for the fixed root directory.
    pub open spec fn spec_first_cluster(self) -> u32 {
        self.first_cluster
    }

    /// The first cluster of the directory; 0 for the fixed root directory.
    #[verifier::when_used_as_spec(spec_first_cluster)]
    pub fn first_cluster(self) -> (first: u32)
        ensures
            first == self.spec_first_cluster(),
    {
        self.first_cluster
    }

    /// The directory that begins in the cluster `first_cluster`.
    pub fn at(first_cluster: u32) -> (dir: Dir)
        ensures
            dir.spec_first_cluster() == first_cluster,
    {
        Dir { first_cluster }
    }
}

/// The bytes of the directory `dir` on a volume with the given table
/// entries, fixed root directory and data region: the fixed root directory
/// where the volume has one, else the bytes of the directory's chain. A
/// directory whose chain is broken or longer than a directory can be has no
/// bytes, nor has the fixed root directory on FAT32.
pub open spec fn dir_view(
    kind: FatType,
    entries: Seq<ClusterEntry>,
    root: Seq<u8>,
    data: Seq<u8>,
    cluster_size: int,
    dir: Dir,
) -> Option<Seq<u8>> {
    if dir.spec_first_cluster() == 0 {
        if kind != FatType::Fat32 {
            Some(root)
        } else {
            None
        }
    } else {
        match chain_of(entries, dir.spec_first_cluster()) {
            Some(chain) => if chain.len() * cluster_size <= MAX_DIR_LEN {
                Some(chain_bytes(data, cluster_size, chain))
            } else {
                None
            },
            None => None,
        }
    }
}

/// The slot of the entry that a lookup of `name` finds: the first, in the
/// order of the slots, that goes by the name.
#[verifier::opaque]
pub open spec fn found_slot(bytes: Seq<u8>, name: Seq<u16>) -> int {
    choose|slot: int|
        listed(bytes, slot) && #[trigger] answers_to(bytes, slot, name) && forall|j: int|
            0 <= j < slot && listed(bytes, j) ==> !answers_to(bytes, j, name)
}

/// The slot that a lookup finds is the first that goes by the name.
pub proof fn lemma_found_slot(bytes: Seq<u8>, name: Seq<u16>, slot: int)
    requires
        listed(bytes, slot),
        answers_to(bytes, slot, name),
        forall|j: int| 0 <= j < slot && listed(bytes, j) ==> !answers_to(bytes, j, name),
    ensures
        found_slot(bytes, name) == slot,
{
    reveal(found_slot);
    let chosen = found_slot(bytes, name);
    if chosen < slot {
        assert(!answers_to(bytes, chosen, name));
    }
    if slot < chosen {
        assert(!answers_to(bytes, slot, name));
    }
}

/// A file with a whole number of clusters needs just those.
pub proof fn lemma_whole_clusters(n: int, cluster_size: int)
    requires
        0 <= n,
        0 < cluster_size,
    ensures
        clusters_for(n * cluster_size, cluster_size) == n,
        n * cluster_size >= n,
{
    vstd::arithmetic::div_mod::lemma_div_multiples_vanish(n, cluster_size);
    vstd::arithmetic::div_mod::lemma_mod_multiples_basic(n, cluster_size);
    assert(n * cluster_size == cluster_size * n) by (nonlinear_arith);
    assert((n * cluster_size) / cluster_size == n);
    assert((n * cluster_size) % cluster_size == 0);
    assert(n * cluster_size >= n) by (nonlinear_arith)
        requires
            0 <= n,
            1 <= cluster_size,
    ;
}

impl FileSystem {
    /// The bytes of the directory `dir`.
    pub open spec fn dir_bytes(&self, dir: Dir) -> Option<Seq<u8>> {
        dir_view(
            self.spec_geometry().spec_kind(),
            self.fat().entries(),
            self.root(),
            self.store().data(),
            self.store().spec_cluster_size() as int,
            dir,
        )
    }

    /// The root directory of the volume.
    pub fn root_dir(&self) -> (dir: Dir)
        requires
            self.wf(),
        ensures
            dir.spec_first_cluster() == if self.spec_geometry().spec_kind() == FatType::Fat32 {
                self.spec_geometry().root_cluster
            } else {
                0
            },
    {
        match self.geometry.kind() {
            FatType::Fat32 => Dir { first_cluster: self.geometry.root_cluster },
            _ => Dir { first_cluster: 0 },
        }
    }

    /// Reads the bytes of a directory.
    pub fn load_dir(&self, dir: Dir) -> (result: Result<Vec<u8>, Error>)
        requires
            self.wf(),
        ensures
            self.dir_bytes(dir) matches Some(bytes) ==> result matches Ok(read) && read@ == bytes,
            self.dir_bytes(dir) is None ==> result == Err::<Vec<u8>, Error>(
                Error::CorruptedFileSystem,
            ),
    {
        if dir.first_cluster == 0 {
            return match self.geometry.kind() {
                FatType::Fat32 => Err(Error::CorruptedFileSystem),
                _ => Ok(slice_to_vec(self.root.as_slice())),
            };
        }
        let chain = match self.fat.follow_chain(dir.first_cluster) {
            Ok(chain) => chain,
            Err(e) => {
                return Err(e);
            },
        };
        let cluster_size = self.store.cluster_size();
        proof {
            lemma_chain_bounded(self.fat().entries(), dir.first_cluster, chain@);
            self.store.lemma_fits();
            assert(chain@.len() * cluster_size <= self.store().spec_clusters() * cluster_size)
                by (nonlinear_arith)
                requires
                    chain@.len() <= self.store().spec_clusters(),
                    cluster_size > 0,
            ;
            lemma_whole_clusters(chain@.len() as int, cluster_size as int);
        }
        let len = chain.len() * cluster_size;
        if len > MAX_DIR_LEN {
            return Err(Error::CorruptedFileSystem);
        }
        let mut file = File::open(dir.first_cluster, len as u32);
        match file.read(&self.fat, &self.store, len) {
            Ok(bytes) => {
                proof {
                    let all = chain_bytes(self.store().data(), cluster_size as int, chain@);
                    assert(all.take(len as int).subrange(0, len as int) =~= all);
                }
                Ok(bytes)
            },
            Err(e) => Err(e),
        }
    }

    /// Writes the bytes of a directory back. The table is not touched.
    fn save_dir(&mut self, dir: Dir, bytes: &Vec<u8>)
        requires
            old(self).wf(),
            old(self).dir_bytes(dir) matches Some(before) && before.len() == bytes@.len(),
        ensures
            final(self).wf(),
            final(self).spec_geometry() == old(self).spec_geometry(),
            final(self).head() == old(self).head(),
            final(self).tail() == old(self).tail(),
            final(self).fat().copies() == old(self).fat().copies(),
            final(self).fat().spec_kind() == old(self).fat().spec_kind(),
            final(self).fat().spec_cluster_count() == old(self).fat().spec_cluster_count(),
            final(self).dir_bytes(dir) == Some(bytes@),
            dir.spec_first_cluster() == 0 ==> final(self).store().data() == old(self).store().data(),
            dir.spec_first_cluster() != 0 ==> final(self).root() == old(self).root(),
            final(self).store().data().len() == old(self).store().data().len(),
            dir.spec_first_cluster() != 0 ==> forall|x: int|
                0 <= x < old(self).store().data().len() && !within_chain(
                    chain_of(old(self).fat().entries(), dir.spec_first_cluster()).unwrap(),
                    old(self).store().spec_cluster_size() as int,
                    x,
                ) ==> final(self).store().data()[x] == old(self).store().data()[x],
    {
        if dir.first_cluster == 0 {
            self.root = slice_to_vec(bytes.as_slice());
            return ;
        }
        let len = bytes.len();
        let cluster_size = self.store.cluster_size();
        let ghost chain = chain_of(self.fat().entries(), dir.first_cluster).unwrap();
        let ghost before = chain_bytes(self.store().data(), cluster_size as int, chain);
        proof {
            lemma_whole_clusters(chain.len() as int, cluster_size as int);
            assert(before.take(len as int) =~= before);
        }
        if len == 0 {
            return ;
        }
        let mut file = File::open(dir.first_cluster, len as u32);
        let written = file.write(&mut self.fat, &mut self.store, bytes.as_slice());
        proof {
            assert(written is Ok);
            assert(overlaid(before, 0, bytes@) =~= bytes@);
            let after = chain_bytes(self.store().data(), cluster_size as int, chain);
            assert(after.take(len as int) =~= after);
        }
    }

    /// Whether `entry` is the entry in the slot `i` of a directory with the
    /// bytes `bytes`, as its content counts on this volume: the upper half
    /// of the first cluster counts on FAT32 only.
    pub open spec fn shows(&self, entry: DirEntry, bytes: Seq<u8>, i: int) -> bool {
        &&& entry.slot == i
        &&& entry.name@ == entry_name(bytes, i)
        &&& entry.short_name@ == short_bytes(bytes, i)
        &&& entry.meta == meta_at(bytes, i).spec_narrowed(self.spec_geometry().spec_kind())
        &&& entry.long_slots == run_len(bytes, i)
    }

    /// Lists the entries of a directory in the order of their slots. The
    /// first cluster of an entry is its lower half alone where the volume is
    /// not FAT32.
    pub fn read_dir(&self, dir: Dir) -> (result: Result<Vec<DirEntry>, Error>)
        requires
            self.wf(),
        ensures
            self.dir_bytes(dir) is None ==> (result matches Err(e) && e == Error::CorruptedFileSystem),
            self.dir_bytes(dir) is Some ==> result is Ok,
            self.dir_bytes(dir) is Some && result is Ok ==> forall|k: int|
                0 <= k < result.unwrap()@.len() ==> listed(
                    self.dir_bytes(dir).unwrap(),
                    (#[trigger] result.unwrap()@[k]).slot as int,
                ) && self.shows(
                    result.unwrap()@[k],
                    self.dir_bytes(dir).unwrap(),
                    result.unwrap()@[k].slot as int,
                ),
            self.dir_bytes(dir) is Some && result is Ok ==> forall|k: int, l: int|
                0 <= k < l < result.unwrap()@.len() ==> result.unwrap()@[k].slot
                    < result.unwrap()@[l].slot,
            self.dir_bytes(dir) is Some && result is Ok ==> forall|i: int| #[trigger]
                listed(self.dir_bytes(dir).unwrap(), i) ==> exists|k: int|
                    0 <= k < result.unwrap()@.len() && (#[trigger] result.unwrap()@[k]).slot == i,
    {
        let bytes = match self.load_dir(dir) {
            Ok(bytes) => bytes,
            Err(e) => {
                return Err(e);
            },
        };
        let kind = self.geometry.kind();
        let listing = list(bytes.as_slice());
        let ghost raw = listing@;
        let mut entries: Vec<DirEntry> = Vec::new();
        let mut k: usize = 0;
        while k < listing.len()
            invariant
                k <= listing@.len(),
                entries@.len() == k,
                raw == listing@,
                kind == self.spec_geometry().spec_kind(),
                forall|j: int|
                    0 <= j < k ==> {
                        &&& (#[trigger] entries@[j]).slot == raw[j].slot
                        &&& entries@[j].name@ == raw[j].name@
                        &&& entries@[j].short_name == raw[j].short_name
                        &&& entries@[j].long_slots == raw[j].long_slots
                        &&& entries@[j].meta == raw[j].meta.spec_narrowed(kind)
                    },
            decreases listing@.len() - k,
        {
            let name = slice_to_vec(listing[k].name.as_slice());
            entries.push(
                DirEntry {
                    name,
                    short_name: listing[k].short_name,
                    meta: listing[k].meta.narrowed(kind),
                    slot: listing[k].slot,
                    long_slots: listing[k].long_slots,
                },
            );
            k += 1;
        }
        proof {
            assert(self.dir_bytes(dir) == Some(bytes@));
            assert forall|i: int| #[trigger] listed(bytes@, i) implies exists|k: int|
                0 <= k < entries@.len() && (#[trigger] entries@[k]).slot == i by {
                let k = choose|k: int| 0 <= k < raw.len() && (#[trigger] raw[k]).slot == i;
                assert(0 <= k < entries@.len() && entries@[k].slot == i);
            }
            assert forall|k: int| 0 <= k < entries@.len() implies listed(
                bytes@,
                (#[trigger] entries@[k]).slot as int,
            ) && self.shows(entries@[k], bytes@, entries@[k].slot as int) by {
                assert(raw[k].is_entry_of(bytes@, raw[k].slot as int));
            }
            assert forall|k: int, l: int| 0 <= k < l < entries@.len() implies entries@[k].slot
                < entries@[l].slot by {
                assert(raw[k].slot < raw[l].slot);
            }
        }
        let result: Result<Vec<DirEntry>, Error> = Ok(entries);
        proof {
            let found = result.unwrap()@;
            assert forall|i: int| #[trigger] listed(self.dir_bytes(dir).unwrap(), i) implies exists|
                k: int,
            | 0 <= k < result.unwrap()@.len() && (#[trigger] result.unwrap()@[k]).slot == i by {
                let k = choose|k: int| 0 <= k < raw.len() && (#[trigger] raw[k]).slot == i;
                assert(0 <= k < found.len() && found[k].slot == i);
            }
        }
        result
    }

    /// Looks up the entry of a directory that goes by the name `name`, and
    /// gives its content as it stands in its slot.
    fn locate(&self, dir: Dir, name: &[u16]) -> (result: Result<DirEntry, Error>)
        requires
            self.wf(),
        ensures
            self.dir_bytes(dir) is None ==> (result matches Err(e) && e == Error::CorruptedFileSystem),
            self.dir_bytes(dir) matches Some(bytes) ==> {
                &&& !name_taken(bytes, name@) ==> (result matches Err(e) && e == Error::NotFound)
                &&& name_taken(bytes, name@) ==> (result matches Ok(entry) && entry.slot
                    == found_slot(bytes, name@) && listed(bytes, entry.slot as int)
                    && entry.is_entry_of(bytes, entry.slot as int) && answers_to(
                    bytes,
                    entry.slot as int,
                    name@,
                ))
            },
    {
        let bytes = match self.load_dir(dir) {
            Ok(bytes) => bytes,
            Err(e) => {
                return Err(e);
            },
        };
        match find_entry(bytes.as_slice(), name) {
            Some(entry) => {
                proof {
                    lemma_found_slot(bytes@, name@, entry.slot as int);
                }
                Ok(entry)
            },
            None => Err(Error::NotFound),
        }
    }

    /// Looks up the entry of a directory that goes by the name `name`: the
    /// first, in the order of the slots. The first cluster of the entry is
    /// its lower half alone where the volume is not FAT32.
    pub fn lookup(&self, dir: Dir, name: &[u16]) -> (result: Result<DirEntry, Error>)
        requires
            self.wf(),
        ensures
            self.dir_bytes(dir) is None ==> (result matches Err(e) && e == Error::CorruptedFileSystem),
            self.dir_bytes(dir) matches Some(bytes) ==> {
                &&& !name_taken(bytes, name@) ==> (result matches Err(e) && e == Error::NotFound)
                &&& name_taken(bytes, name@) ==> (result matches Ok(entry) && entry.slot
                    == found_slot(bytes, name@) && listed(bytes, entry.slot as int) && self.shows(
                    entry,
                    bytes,
                    entry.slot as int,
                ) && answers_to(bytes, entry.slot as int, name@))
            },
    {
        match self.locate(dir, name) {
            Ok(entry) => {
                let meta = entry.meta.narrowed(self.geometry.kind());
                Ok(
                    DirEntry {
                        name: entry.name,
                        short_name: entry.short_name,
                        meta,
                        slot: entry.slot,
                        long_slots: entry.long_slots,
                    },
                )
            },
            Err(e) => Err(e),
        }
    }

    /// Opens the file that goes by the name `name` in a directory, at
    /// offset 0, and tells the slot of its entry. A directory is not opened
    /// as a file. The first cluster of the file is the lower half of what the
    /// entry holds where the volume is not FAT32.
    pub fn open_file(&self, dir: Dir, name: &[u16]) -> (result: Result<(File, usize), Error>)
        requires
            self.wf(),
        ensures
            self.dir_bytes(dir) is None ==> result == Err::<(File, usize), Error>(
                Error::CorruptedFileSystem,
            ),
            self.dir_bytes(dir) matches Some(bytes) ==> {
                let slot = found_slot(bytes, name@);
                &&& !name_taken(bytes, name@) ==> result == Err::<(File, usize), Error>(
                    Error::NotFound,
                )
                &&& name_taken(bytes, name@) && meta_at(bytes, slot).spec_narrowed(self.spec_geometry().spec_kind()).attributes / 16 % 2 == 1
                    ==> result == Err::<(File, usize), Error>(Error::InvalidInput)
                &&& name_taken(bytes, name@) && meta_at(bytes, slot).spec_narrowed(self.spec_geometry().spec_kind()).attributes / 16 % 2 == 0 ==> (
                result matches Ok(opened) && {
                    &&& opened.1 == slot
                    &&& opened.0.spec_first_cluster() == meta_at(bytes, slot).spec_narrowed(
                        self.spec_geometry().spec_kind(),
                    ).first_cluster
                    &&& opened.0.spec_size() == meta_at(bytes, slot).size
                    &&& opened.0.spec_position() == 0
                    &&& !opened.0.spec_is_dirty()
                })
            },
    {
        let entry = match self.lookup(dir, name) {
            Ok(entry) => entry,
            Err(e) => {
                return Err(e);
            },
        };
        if entry.is_dir() {
            return Err(Error::InvalidInput);
        }
        Ok((File::open(entry.meta.first_cluster, entry.meta.size), entry.slot))
    }

    /// Opens the directory that goes by the name `name` in a directory. A
    /// file is not opened as a directory.
    pub fn open_dir(&self, dir: Dir, name: &[u16]) -> (result: Result<Dir, Error>)
        requires
            self.wf(),
        ensures
            self.dir_bytes(dir) is None ==> result == Err::<Dir, Error>(Error::CorruptedFileSystem),
            self.dir_bytes(dir) matches Some(bytes) ==> {
                let slot = found_slot(bytes, name@);
                &&& !name_taken(bytes, name@) ==> result == Err::<Dir, Error>(Error::NotFound)
                &&& name_taken(bytes, name@) && meta_at(bytes, slot).spec_narrowed(self.spec_geometry().spec_kind()).attributes / 16 % 2 == 0
                    ==> result == Err::<Dir, Error>(Error::InvalidInput)
                &&& name_taken(bytes, name@) && meta_at(bytes, slot).spec_narrowed(self.spec_geometry().spec_kind()).attributes / 16 % 2 == 1 ==> (
                result matches Ok(opened) && opened.spec_first_cluster() == meta_at(
                    bytes,
                    slot,
                ).spec_narrowed(self.spec_geometry().spec_kind()).first_cluster)
            },
    {
        let entry = match self.lookup(dir, name) {
            Ok(entry) => entry,
            Err(e) => {
                return Err(e);
            },
        };
        if !entry.is_dir() {
            return Err(Error::InvalidInput);
        }
        Ok(Dir { first_cluster: entry.meta.first_cluster })
    }
}

impl FileSystem {
    /// Creates an entry with the name `name` and the content `meta` in a
    /// directory, as [`crate::dir::create`] does in the bytes of the
    /// directory, and gives back the slot of its short entry. The directory
    /// is not made larger: where it has no run of vacant slots for the entry,
    /// nothing is written.
    pub fn add_entry(&mut self, dir: Dir, name: &[u16], meta: Meta) -> (result: Result<usize, Error>)
        requires
            old(self).wf(),
        ensures
            final(self).wf(),
            final(self).spec_geometry() == old(self).spec_geometry(),
            final(self).head() == old(self).head(),
            final(self).tail() == old(self).tail(),
            final(self).fat().copies() == old(self).fat().copies(),
            dir.spec_first_cluster() == 0 ==> final(self).store().data() == old(self).store().data(),
            dir.spec_first_cluster() != 0 ==> final(self).root() == old(self).root(),
            result is Err ==> final(self).store().data() == old(self).store().data() && final(self).root() == old(self).root(),
            dir.spec_first_cluster() != 0 && old(self).dir_bytes(dir) is Some ==> only_within(
                old(self).store().data(),
                final(self).store().data(),
                chain_of(old(self).fat().entries(), dir.spec_first_cluster()).unwrap(),
                old(self).store().spec_cluster_size() as int,
            ),
            old(self).dir_bytes(dir) is None ==> (result matches Err(e) && e
                == Error::CorruptedFileSystem) && final(self).dir_bytes(dir) is None,
            old(self).dir_bytes(dir) matches Some(before) ==> final(self).dir_bytes(dir) is Some && {
                let after = final(self).dir_bytes(dir).unwrap();
                &&& after.len() == before.len()
                &&& result is Err ==> after == before
                &&& !valid_name(name@) || meta.attributes == ATTR_LONG_NAME ==> result == Err::<usize, Error>(
                    Error::InvalidInput,
                )
                &&& valid_name(name@) && meta.attributes != ATTR_LONG_NAME ==> {
                    &&& name_taken(before, name@) || chosen_short(before, name@) is None
                        ==> result == Err::<usize, Error>(Error::AlreadyExists)
                    &&& !name_taken(before, name@) && chosen_short(before, name@) is Some ==> {
                        let n = long_slots(name@);
                        let s = fit_from(before, n + 1, 0);
                        &&& s < 0 ==> result == Err::<usize, Error>(Error::NotEnoughSpace)
                        &&& s >= 0 ==> {
                            &&& result == Ok::<usize, Error>((s + n) as usize)
                            &&& placed(
                                before,
                                after,
                                s,
                                n,
                                name@,
                                chosen_short(before, name@).unwrap(),
                                meta,
                            )
                            &&& listed(after, s + n)
                            &&& !listed(before, s + n)
                            &&& entry_name(after, s + n) == name@
                            &&& forall|j: int|
                                j != s + n ==> listed(after, j) == listed(before, j)
                            &&& forall|j: int|
                                listed(before, j) ==> entry_name(after, j) == entry_name(
                                    before,
                                    j,
                                ) && short_bytes(after, j) == short_bytes(before, j)
                                    && meta_at(after, j) == meta_at(before, j)
                        }
                    }
                }
            },
    {
        let mut bytes = match self.load_dir(dir) {
            Ok(bytes) => bytes,
            Err(e) => {
                return Err(e);
            },
        };
        match crate::dir::create(&mut bytes, name, meta) {
            Ok(slot) => {
                self.save_dir(dir, &bytes);
                Ok(slot)
            },
            Err(e) => Err(e),
        }
    }

    /// Rewrites the content of the entry in the slot `slot` of a directory,
    /// as [`crate::dir::update_meta`] does in the bytes of the directory.
    pub fn set_meta(&mut self, dir: Dir, slot: usize, meta: Meta) -> (result: Result<(), Error>)
        requires
            old(self).wf(),
        ensures
            final(self).wf(),
            final(self).spec_geometry() == old(self).spec_geometry(),
            final(self).head() == old(self).head(),
            final(self).tail() == old(self).tail(),
            final(self).fat().copies() == old(self).fat().copies(),
            dir.spec_first_cluster() == 0 ==> final(self).store().data() == old(self).store().data(),
            dir.spec_first_cluster() != 0 ==> final(self).root() == old(self).root(),
            old(self).dir_bytes(dir) is None ==> (result matches Err(e) && e
                == Error::CorruptedFileSystem) && final(self).dir_bytes(dir) is None,
            old(self).dir_bytes(dir) matches Some(before) ==> final(self).dir_bytes(dir) is Some && {
                let after = final(self).dir_bytes(dir).unwrap();
                &&& after.len() == before.len()
                &&& result is Err ==> after == before
                &&& !listed(before, slot as int) ==> result == Err::<(), Error>(Error::NotFound)
                &&& listed(before, slot as int) && meta.attributes == ATTR_LONG_NAME ==> result
                    == Err::<(), Error>(Error::InvalidInput)
                &&& listed(before, slot as int) && meta.attributes != ATTR_LONG_NAME ==> {
                    &&& result == Ok::<(), Error>(())
                    &&& meta_at(after, slot as int) == meta
                    &&& short_bytes(after, slot as int) == short_bytes(before, slot as int)
                    &&& entry_name(after, slot as int) == entry_name(before, slot as int)
                    &&& forall|x: int|
                        0 <= x < before.len() && !(32 * slot <= x < 32 * slot + 32) ==> after[x] == before[x]
                    &&& forall|j: int| listed(after, j) == listed(before, j)
                    &&& forall|j: int|
                        listed(before, j) && j != slot ==> entry_name(after, j) == entry_name(
                            before,
                            j,
                        ) && short_bytes(after, j) == short_bytes(before, j) && meta_at(
                            after,
                            j,
                        ) == meta_at(before, j)
                }
            },
    {
        let mut bytes = match self.load_dir(dir) {
            Ok(bytes) => bytes,
            Err(e) => {
                return Err(e);
            },
        };
        match crate::dir::update_meta(&mut bytes, slot, meta) {
            Ok(()) => {
                self.save_dir(dir, &bytes);
                Ok(())
            },
            Err(e) => Err(e),
        }
    }
}

impl FileSystem {
    /// Removes the file that goes by the name `name` from a directory: the
    /// slots of its entry become deleted slots, and then the clusters of its
    /// chain become free. A directory is not removed. A file whose chain is
    /// broken is a corrupted filesystem, and stays.
    pub fn remove_file(&mut self, dir: Dir, name: &[u16]) -> (result: Result<(), Error>)
        requires
            old(self).wf(),
        ensures
            final(self).wf(),
            final(self).spec_geometry() == old(self).spec_geometry(),
            final(self).head() == old(self).head(),
            final(self).tail() == old(self).tail(),
            result is Err ==> final(self).fat().copies() == old(self).fat().copies() && final(self).root() == old(self).root() && final(self).store().data() == old(self).store().data(),
            old(self).dir_bytes(dir) is None ==> result == Err::<(), Error>(
                Error::CorruptedFileSystem,
            ),
            old(self).dir_bytes(dir) matches Some(before) ==> {
                let slot = found_slot(before, name@);
                let first = meta_at(before, slot).spec_narrowed(
                    old(self).spec_geometry().spec_kind(),
                ).first_cluster;
                let entries = old(self).fat().entries();
                &&& !name_taken(before, name@) ==> result == Err::<(), Error>(Error::NotFound)
                &&& name_taken(before, name@) && meta_at(before, slot).attributes / 16 % 2 == 1
                    ==> result == Err::<(), Error>(Error::InvalidInput)
                &&& name_taken(before, name@) && meta_at(before, slot).attributes / 16 % 2 == 0
                    ==> {
                    &&& first != 0 && chain_of(entries, first) is None ==> result == Err::<
                        (),
                        Error,
                    >(Error::CorruptedFileSystem)
                    &&& first == 0 || chain_of(entries, first) is Some ==> {
                        &&& result == Ok::<(), Error>(())
                        &&& dir_view(
                            old(self).spec_geometry().spec_kind(),
                            entries,
                            final(self).root(),
                            final(self).store().data(),
                            old(self).store().spec_cluster_size() as int,
                            dir,
                        ) matches Some(after) && removed(before, after, slot, run_len(before, slot))
                        &&& final(self).fat().entries() == if first == 0 {
                            entries
                        } else {
                            truncated(entries, chain_of(entries, first).unwrap(), 0)
                        }
                    }
                }
            },
    {
        let mut bytes = match self.load_dir(dir) {
            Ok(bytes) => bytes,
            Err(e) => {
                return Err(e);
            },
        };
        let entry = match find_entry(bytes.as_slice(), name) {
            Some(entry) => entry,
            None => {
                return Err(Error::NotFound);
            },
        };
        proof {
            lemma_found_slot(old(self).dir_bytes(dir).unwrap(), name@, entry.slot as int);
        }
        if entry.is_dir() {
            return Err(Error::InvalidInput);
        }
        let first = entry.meta.narrowed(self.geometry.kind()).first_cluster;
        if first != 0 {
            match self.fat.follow_chain(first) {
                Ok(_) => {},
                Err(e) => {
                    return Err(e);
                },
            }
        }
        let removed = crate::dir::remove(&mut bytes, entry.slot);
        assert(removed is Ok);
        self.save_dir(dir, &bytes);
        if first != 0 {
            let freed = self.fat.truncate_chain(first, 0);
            assert(freed is Ok);
        } else {
            assert(self.fat().entries() == old(self).fat().entries());
        }
        Ok(())
    }
}

/// Makes `n` zeros.
pub fn zeroes(n: usize) -> (bytes: Vec<u8>)
    ensures
        bytes@ == zeros(n as int),
{
    let mut bytes: Vec<u8> = Vec::new();
    let mut i: usize = 0;
    while i < n
        invariant
            i <= n,
            bytes@ == zeros(i as int),
        decreases n - i,
    {
        bytes.push(0);
        assert(bytes@ =~= zeros(i + 1));
        i += 1;
    }
    bytes
}

/// What a boot sector declares is told by its first 512 bytes.
pub proof fn lemma_same_boot(a: Seq<u8>, b: Seq<u8>)
    requires
        a.len() >= 512,
        b.len() >= 512,
        forall|i: int| 0 <= i < 512 ==> a[i] == b[i],
    ensures
        declared(a) == declared(b),
        is_boot_sector(a) == is_boot_sector(b),
{
    assert(crate::boot::le16(a, 11) == crate::boot::le16(b, 11));
    assert(crate::boot::le16(a, 14) == crate::boot::le16(b, 14));
    assert(crate::boot::le16(a, 17) == crate::boot::le16(b, 17));
    assert(crate::boot::le16(a, 19) == crate::boot::le16(b, 19));
    assert(crate::boot::le16(a, 22) == crate::boot::le16(b, 22));
    assert(le32(a, 32) == le32(b, 32));
    assert(le32(a, 36) == le32(b, 36));
    assert(le32(a, 44) == le32(b, 44));
    assert(crate::boot::le16(a, 48) == crate::boot::le16(b, 48));
}

/// The value of the entry 0 of a new table: the media type in its low
/// byte, and ones above it.
pub open spec fn media_mark(kind: FatType, media: u8) -> u32 {
    match kind {
        FatType::Fat12 => (0xF00 + media) as u32,
        FatType::Fat16 => (0xFF00 + media) as u32,
        FatType::Fat32 => (0x0FFF_FF00 + media) as u32,
    }
}

/// In a table of zeros with the two reserved entries written, every data
/// cluster is free.
pub proof fn lemma_new_table(kind: FatType, count: u32, len: int, media: u8)
    requires
        count <= kind.spec_max_clusters(),
        table_len(kind, count) <= len,
    ensures
        ({
            let table = with_two(kind, zeros(len), media);
            &&& table.len() == len
            &&& raw_at(kind, table, 0) == media_mark(kind, media)
            &&& raw_at(kind, table, 1) == kind.spec_end_mark()
            &&& forall|c: int|
                2 <= c < count + 2 ==> #[trigger] table_entries(kind, count, table)[c]
                    == ClusterEntry::Free
        }),
{
    let blank = zeros(len);
    let first = crate::raw::with_raw(kind, blank, 0, media_mark(kind, media));
    let table = with_two(kind, blank, media);
    lemma_write_is_local(kind, blank, 0, media_mark(kind, media), entry_end(kind, 0));
    lemma_write_is_local(kind, first, 1, kind.spec_end_mark(), 0);
    lemma_read_written(kind, first, 1, kind.spec_end_mark());
    lemma_read_written(kind, blank, 0, media_mark(kind, media));
    lemma_read_other(kind, first, 1, kind.spec_end_mark(), 0);
    assert forall|c: int| 2 <= c < count + 2 implies #[trigger] table_entries(kind, count, table)[c]
        == ClusterEntry::Free by {
        lemma_read_other(kind, blank, 0, media_mark(kind, media), c);
        lemma_read_other(kind, first, 1, kind.spec_end_mark(), c);
        assert(raw_at(kind, blank, c) == 0);
    }
}

/// The table bytes `bytes` with the two reserved entries of a new table
/// written: the media mark in entry 0 and the greatest value in entry 1.
pub open spec fn with_two(kind: FatType, bytes: Seq<u8>, media: u8) -> Seq<u8> {
    crate::raw::with_raw(
        kind,
        crate::raw::with_raw(kind, bytes, 0, media_mark(kind, media)),
        1,
        kind.spec_end_mark(),
    )
}

/// Makes the table of a new volume.
fn new_table(kind: FatType, count: u32, len: usize, media: u8) -> (table: Vec<u8>)
    requires
        count <= kind.spec_max_clusters(),
        table_len(kind, count) <= len,
    ensures
        table@ == with_two(kind, zeros(len as int), media),
{
    let mut table = zeroes(len);
    let mark: u32 = match kind {
        FatType::Fat12 => 0xF00 + media as u32,
        FatType::Fat16 => 0xFF00 + media as u32,
        FatType::Fat32 => 0x0FFF_FF00 + media as u32,
    };
    write_raw(kind, &mut table, 0, mark);
    proof {
        lemma_write_is_local(kind, zeros(len as int), 0, mark, entry_end(kind, 0));
    }
    write_raw(kind, &mut table, 1, kind.end_mark());
    table
}

/// The regions of a volume lie within its sectors.
pub proof fn lemma_volume_fits(g: Geometry)
    requires
        g.wf(),
    ensures
        g.data_end() <= g.total_sectors * g.bytes_per_sector,
        g.total_sectors >= 1,
        512 <= g.fat_start(),
        g.spec_kind() == FatType::Fat32 ==> 512 <= g.fs_info_sector * g.bytes_per_sector
            && g.fs_info_sector * g.bytes_per_sector + 512 <= g.fat_start(),
        0 <= g.fat_start() <= g.fat_start() + g.fat_len() <= g.root_start() <= g.data_start()
            <= g.data_end(),
        entry_end(g.spec_kind(), g.spec_cluster_count() + 1) <= g.fat_len(),
{
    let b = g.bytes_per_sector as int;
    let c = g.sectors_per_cluster as int;
    let first = g.first_data_sector();
    let count = g.spec_cluster_count();
    let rest = g.total_sectors - first;
    let r = g.reserved_sectors as int;
    let t = g.fats * g.sectors_per_fat;
    let rds = g.root_dir_sectors();
    assert(t >= 1) by (nonlinear_arith)
        requires
            t == g.fats * g.sectors_per_fat,
            g.fats >= 1,
            g.sectors_per_fat >= 1,
    ;
    assert(rds >= 0) by (nonlinear_arith)
        requires
            rds == (g.root_entries * 32 + b - 1) / b,
            b >= 512,
            g.root_entries >= 0,
    ;
    assert(count * c <= rest && count >= 0) by (nonlinear_arith)
        requires
            count == rest / c,
            c >= 1,
            rest >= 0,
    ;
    assert(g.data_start() == first * b) by (nonlinear_arith)
        requires
            g.data_start() == r * b + g.fats * (g.sectors_per_fat * b) + rds * b,
            first == r + g.fats * g.sectors_per_fat + rds,
    ;
    assert(g.data_len() == (count * c) * b) by (nonlinear_arith)
        requires
            g.data_len() == count * (b * c),
    ;
    assert(first * b + (count * c) * b <= g.total_sectors * b) by (nonlinear_arith)
        requires
            count * c <= g.total_sectors - first,
            b >= 0,
    ;
    assert(r * b >= 512) by (nonlinear_arith)
        requires
            r >= 1,
            b >= 512,
    ;
    if g.spec_kind() == FatType::Fat32 {
        assert(g.fs_info_sector * b + 512 <= r * b && 512 <= g.fs_info_sector * b)
            by (nonlinear_arith)
            requires
                g.fs_info_sector + 1 <= r,
                b >= 512,
                g.fs_info_sector >= 1,
        ;
    }
    let l = g.sectors_per_fat * b;
    assert(l >= 0 && l <= g.fats * l) by (nonlinear_arith)
        requires
            l == g.sectors_per_fat * b,
            g.sectors_per_fat >= 1,
            b >= 512,
            g.fats >= 1,
    ;
    assert(rds * b >= 0) by (nonlinear_arith)
        requires
            rds >= 0,
            b >= 0,
    ;
    assert((count * c) * b >= 0) by (nonlinear_arith)
        requires
            count >= 0,
            c >= 1,
            b >= 0,
    ;
}

impl FileSystem {
    /// Makes a new, empty volume with the layout `geometry`.
    ///
    /// The reserved sectors begin with the boot sector; on FAT32 the FSInfo
    /// sector follows where the layout puts it, with its three signatures
    /// and with the free count and the next free cluster unknown. Every copy
    /// of the allocation table holds the media type in entry 0 and the
    /// greatest value in entry 1, which says on FAT16 and FAT32 that the
    /// volume was shut down cleanly and without errors. All data clusters
    /// are free but for the root directory of FAT32, which has one cluster.
    /// The root directory is empty, and every other byte is zero.
    pub fn format(geometry: Geometry) -> (fs: FileSystem)
        requires
            geometry.wf(),
            geometry.total_sectors * geometry.bytes_per_sector <= usize::MAX,
        ensures
            fs.wf(),
            fs.spec_geometry() == geometry,
            fs.head().len() >= 512,
            is_boot_sector(fs.head()),
            declared(fs.head()) == geometry,
            forall|i: int|
                512 <= i < fs.head().len() && !(geometry.spec_kind() == FatType::Fat32
                    && geometry.fs_info_sector * geometry.bytes_per_sector <= i
                    < geometry.fs_info_sector * geometry.bytes_per_sector + 512) ==> fs.head()[i]
                    == 0,
            geometry.spec_kind() == FatType::Fat32 ==> {
                let at = geometry.fs_info_sector * geometry.bytes_per_sector;
                &&& le32(fs.head(), at) == 0x4161_5252
                &&& le32(fs.head(), at + 484) == 0x6141_7272
                &&& le32(fs.head(), at + 488) == 0xFFFF_FFFF
                &&& le32(fs.head(), at + 492) == 0xFFFF_FFFF
                &&& le32(fs.head(), at + 508) == 0xAA55_0000
            },
            raw_at(geometry.spec_kind(), fs.fat().bytes(), 0) == media_mark(
                geometry.spec_kind(),
                geometry.media,
            ),
            raw_at(geometry.spec_kind(), fs.fat().bytes(), 1) == geometry.spec_kind().spec_end_mark(),
            forall|c: int|
                is_cluster(fs.fat().entries(), c) ==> #[trigger] fs.fat().entries()[c] == if geometry.spec_kind()
                    == FatType::Fat32 && c == geometry.root_cluster {
                    ClusterEntry::EndOfChain
                } else {
                    ClusterEntry::Free
                },
            fs.root() == zeros(geometry.root_len()),
            fs.store().data() == zeros(geometry.data_len()),
            fs.tail() == zeros(geometry.total_sectors * geometry.bytes_per_sector - geometry.data_end()),
    {
        proof {
            lemma_volume_fits(geometry);
        }
        let (_, _, root_start, data_start, data_end) = geometry.regions();
        let total = geometry.total_sectors as usize * geometry.bytes_per_sector as usize;
        let head = make_head(geometry);
        let fat = make_fat(geometry);
        let root = zeroes((data_start - root_start) as usize);
        let data = zeroes((data_end - data_start) as usize);
        let tail = zeroes(total - data_end as usize);
        proof {
            let b = geometry.bytes_per_sector as int;
            let c = geometry.sectors_per_cluster as int;
            assert(b * c >= 1) by (nonlinear_arith)
                requires
                    b >= 512,
                    c >= 1,
            ;
        }
        let store = ClusterStore::with_data(
            geometry.cluster_size() as usize,
            geometry.cluster_count(),
            data,
        );
        FileSystem { geometry, head, fat, root, store, tail }
    }

    /// The bytes of a volume in order begin with its boot sector and can be
    /// mounted again.
    pub proof fn lemma_image_is_volume(&self)
        requires
            self.wf(),
            self.head().len() >= 512,
            is_boot_sector(self.head()),
            declared(self.head()) == self.spec_geometry(),
        ensures
            is_volume(self.image()),
            declared(self.image()) == self.spec_geometry(),
            self.image().len() == self.spec_geometry().data_end() + self.tail().len(),
    {
        let g = self.spec_geometry();
        lemma_volume_fits(g);
        self.lemma_fat_region(0, 0);
        assert((g.fats - 0) * g.fat_len() == g.fats * g.fat_len());
        assert forall|i: int| 0 <= i < 512 implies self.image()[i] == self.head()[i] by {}
        lemma_same_boot(self.head(), self.image());
    }
}

/// Makes the reserved sectors of a new volume.
fn make_head(geometry: Geometry) -> (head: Vec<u8>)
    requires
        geometry.wf(),
        geometry.total_sectors * geometry.bytes_per_sector <= usize::MAX,
    ensures
        head@.len() == geometry.fat_start(),
        head@.len() >= 512,
        is_boot_sector(head@),
        declared(head@) == geometry,
        forall|i: int|
            512 <= i < head@.len() && !(geometry.spec_kind() == FatType::Fat32
                && geometry.fs_info_sector * geometry.bytes_per_sector <= i
                < geometry.fs_info_sector * geometry.bytes_per_sector + 512) ==> head@[i] == 0,
        geometry.spec_kind() == FatType::Fat32 ==> {
            let at = geometry.fs_info_sector * geometry.bytes_per_sector;
            &&& le32(head@, at) == 0x4161_5252
            &&& le32(head@, at + 484) == 0x6141_7272
            &&& le32(head@, at + 488) == 0xFFFF_FFFF
            &&& le32(head@, at + 492) == 0xFFFF_FFFF
            &&& le32(head@, at + 508) == 0xAA55_0000
        },
{
    proof {
        lemma_volume_fits(geometry);
    }
    let (fat_start, _, _, _, _) = geometry.regions();
    let mut head = geometry.encode();
    let ghost sector = head@;
    while head.len() < fat_start as usize
        invariant
            512 <= head@.len() <= fat_start,
            forall|i: int| 0 <= i < 512 ==> head@[i] == sector[i],
            forall|i: int| 512 <= i < head@.len() ==> head@[i] == 0,
        decreases fat_start - head@.len(),
    {
        head.push(0);
    }
    match geometry.kind() {
        FatType::Fat32 => {
            let at = geometry.fs_info_sector as usize * geometry.bytes_per_sector as usize;
            write_info(&mut head, at);
        },
        _ => {},
    }
    proof {
        lemma_same_boot(sector, head@);
    }
    head
}

/// Writes an FSInfo sector at `at`: its three signatures, and the free
/// count and the next free cluster as unknown.
fn write_info(bytes: &mut Vec<u8>, at: usize)
    requires
        at + 512 <= old(bytes)@.len(),
    ensures
        final(bytes)@.len() == old(bytes)@.len(),
        forall|i: int|
            0 <= i < old(bytes)@.len() && !(at <= i < at + 512) ==> final(bytes)@[i] == old(bytes)@[i],
        forall|i: int|
            at + 4 <= i < at + 484 || at + 496 <= i < at + 508 ==> final(bytes)@[i] == old(bytes)@[i],
        le32(final(bytes)@, at as int) == 0x4161_5252,
        le32(final(bytes)@, at + 484) == 0x6141_7272,
        le32(final(bytes)@, at + 488) == 0xFFFF_FFFF,
        le32(final(bytes)@, at + 492) == 0xFFFF_FFFF,
        le32(final(bytes)@, at + 508) == 0xAA55_0000,
{
    let len = bytes.len();
    let ghost blank = bytes@;
    write_le32(bytes, at, 0x4161_5252);
    let ghost one = bytes@;
    write_le32(bytes, at + 484, 0x6141_7272);
    let ghost two = bytes@;
    write_le32(bytes, at + 488, 0xFFFF_FFFF);
    let ghost three = bytes@;
    write_le32(bytes, at + 492, 0xFFFF_FFFF);
    let ghost four = bytes@;
    write_le32(bytes, at + 508, 0xAA55_0000);
    proof {
        crate::boot::lemma_le32_written(blank, at as int, 0x4161_5252);
        crate::boot::lemma_le32_written(one, at + 484, 0x6141_7272);
        crate::boot::lemma_le32_written(two, at + 488, 0xFFFF_FFFF);
        crate::boot::lemma_le32_written(three, at + 492, 0xFFFF_FFFF);
        crate::boot::lemma_le32_written(four, at + 508, 0xAA55_0000);
    }
}

/// Makes the allocation table of a new volume.
fn make_fat(geometry: Geometry) -> (fat: FatTable)
    requires
        geometry.wf(),
        geometry.total_sectors * geometry.bytes_per_sector <= usize::MAX,
    ensures
        fat.wf(),
        fat.spec_kind() == geometry.spec_kind(),
        fat.spec_cluster_count() == geometry.spec_cluster_count(),
        fat.copies().len() == geometry.fats,
        fat.bytes().len() == geometry.fat_len(),
        raw_at(geometry.spec_kind(), fat.bytes(), 0) == media_mark(
            geometry.spec_kind(),
            geometry.media,
        ),
        raw_at(geometry.spec_kind(), fat.bytes(), 1) == geometry.spec_kind().spec_end_mark(),
        forall|c: int|
            is_cluster(fat.entries(), c) ==> #[trigger] fat.entries()[c] == if geometry.spec_kind()
                == FatType::Fat32 && c == geometry.root_cluster {
                ClusterEntry::EndOfChain
            } else {
                ClusterEntry::Free
            },
{
    proof {
        lemma_volume_fits(geometry);
    }
    let (_, fat_len, _, _, _) = geometry.regions();
    let kind = geometry.kind();
    let count = geometry.cluster_count();
    proof {
        lemma_new_table(kind, count, fat_len as int, geometry.media);
    }
    let table = new_table(kind, count, fat_len as usize, geometry.media);
    let mut fat = FatTable::with_copies(kind, count, table, geometry.fats as usize);
    match kind {
        FatType::Fat32 => {
            let rooted = fat.write_entry(geometry.root_cluster, ClusterEntry::EndOfChain);
            assert(rooted is Ok);
            proof {
                let before = with_two(kind, zeros(fat_len as int), geometry.media);
                lemma_read_other(kind, before, geometry.root_cluster as int, kind.spec_end_mark(), 0);
                lemma_read_other(kind, before, geometry.root_cluster as int, kind.spec_end_mark(), 1);
            }
        },
        _ => {},
    }
    fat
}

/// The content of a directory entry after its file has been flushed: the
/// first cluster and the size of the file, the date and time of the
/// modification, and everything else as before.
pub open spec fn flushed_meta(before: Meta, file: File, date: u16, time: u16) -> Meta {
    Meta {
        first_cluster: file.spec_first_cluster(),
        size: file.spec_size(),
        modified_date: date,
        modified_time: time,
        ..before
    }
}

impl FileSystem {
    /// Flushes a file: writes its first cluster, its size and the date and
    /// time of the modification into its entry, which stands in the slot
    /// `slot` of the directory `dir`, and takes the file for clean. Where
    /// the entry cannot be written, the file stays as it is.
    pub fn flush(&mut self, dir: Dir, slot: usize, file: &mut File, date: u16, time: u16) -> (result:
        Result<(), Error>)
        requires
            old(self).wf(),
        ensures
            final(self).wf(),
            final(self).spec_geometry() == old(self).spec_geometry(),
            final(self).head() == old(self).head(),
            final(self).tail() == old(self).tail(),
            final(self).fat().copies() == old(self).fat().copies(),
            final(file).spec_first_cluster() == old(file).spec_first_cluster(),
            final(file).spec_size() == old(file).spec_size(),
            final(file).spec_position() == old(file).spec_position(),
            final(file).spec_is_dirty() == (old(file).spec_is_dirty() && result is Err),
            old(self).dir_bytes(dir) is None ==> result == Err::<(), Error>(
                Error::CorruptedFileSystem,
            ),
            old(self).dir_bytes(dir) matches Some(before) ==> final(self).dir_bytes(dir) is Some && {
                let after = final(self).dir_bytes(dir).unwrap();
                &&& after.len() == before.len()
                &&& result is Err ==> after == before
                &&& !listed(before, slot as int) ==> result == Err::<(), Error>(Error::NotFound)
                &&& listed(before, slot as int) && meta_at(before, slot as int).attributes == ATTR_LONG_NAME
                    ==> result == Err::<(), Error>(Error::InvalidInput)
                &&& listed(before, slot as int) && meta_at(before, slot as int).attributes != ATTR_LONG_NAME
                    ==> {
                    &&& result == Ok::<(), Error>(())
                    &&& meta_at(after, slot as int) == flushed_meta(
                        meta_at(before, slot as int),
                        *old(file),
                        date,
                        time,
                    )
                    &&& entry_name(after, slot as int) == entry_name(before, slot as int)
                    &&& forall|j: int| listed(after, j) == listed(before, j)
                    &&& forall|j: int|
                        listed(before, j) && j != slot ==> entry_name(after, j) == entry_name(
                            before,
                            j,
                        ) && meta_at(after, j) == meta_at(before, j)
                }
            },
    {
        let bytes = match self.load_dir(dir) {
            Ok(bytes) => bytes,
            Err(e) => {
                return Err(e);
            },
        };
        if slot >= bytes.len() / 32 {
            proof {
                crate::dir::lemma_end_from(bytes@, 0);
            }
            return Err(Error::NotFound);
        }
        let before = read_meta(bytes.as_slice(), slot);
        let meta = Meta {
            first_cluster: file.first_cluster(),
            size: file.size(),
            modified_date: date,
            modified_time: time,
            ..before
        };
        match self.set_meta(dir, slot, meta) {
            Ok(()) => {
                let _ = file.flush();
                Ok(())
            },
            Err(e) => Err(e),
        }
    }
}

impl FileSystem {
    /// Reads the entry of a data cluster in the allocation table.
    pub fn fat_entry(&self, cluster: u32) -> (result: Result<ClusterEntry, Error>)
        requires
            self.wf(),
        ensures
            is_cluster(self.fat().entries(), cluster as int) ==> result == Ok::<ClusterEntry, Error>(
                self.fat().entries()[cluster as int],
            ),
            !is_cluster(self.fat().entries(), cluster as int) ==> result == Err::<
                ClusterEntry,
                Error,
            >(Error::InvalidInput),
    {
        self.fat.read_entry(cluster)
    }

    /// Follows the chain that starts at `start`.
    pub fn follow_chain(&self, start: u32) -> (result: Result<Vec<u32>, Error>)
        requires
            self.wf(),
        ensures
            result matches Ok(chain) ==> chain_of(self.fat().entries(), start) == Some(chain@)
                && chain@.no_duplicates(),
            result matches Err(e) ==> e == Error::CorruptedFileSystem && chain_of(
                self.fat().entries(),
                start,
            ) is None,
    {
        self.fat.follow_chain(start)
    }
}

/// What a data cluster is used for.
#[derive(Debug, PartialEq, Eq)]
pub enum Cluster {
    /// The cluster belongs to the file of that name.
    File(Vec<u16>),
    /// The cluster belongs to the directory of that name; the root
    /// directory has the empty name.
    Directory(Vec<u16>),
    /// The cluster is free.
    Free,
    /// The cluster is taken in the allocation table, and no entry of the
    /// directory tree leads to it.
    Fat,
}

/// Whether `name` is one of the two names, `.` and `..`, under which a
/// directory holds itself and its parent.
pub open spec fn is_dot_name(name: Seq<u16>) -> bool {
    name == seq![0x2Eu16] || name == seq![0x2Eu16, 0x2Eu16]
}

/// Tells whether `name` is `.` or `..`.
pub fn dot_name(name: &Vec<u16>) -> (yes: bool)
    ensures
        yes == is_dot_name(name@),
{
    let yes = (name.len() == 1 && name[0] == 0x2E) || (name.len() == 2 && name[0] == 0x2E
        && name[1] == 0x2E);
    proof {
        if yes {
            if name@.len() == 1 {
                assert(name@ =~= seq![0x2Eu16]);
            } else {
                assert(name@ =~= seq![0x2Eu16, 0x2Eu16]);
            }
        } else {
            if name@ == seq![0x2Eu16] {
                assert(name@.len() == 1 && name@[0] == 0x2E);
            }
            if name@ == seq![0x2Eu16, 0x2Eu16] {
                assert(name@.len() == 2 && name@[0] == 0x2E && name@[1] == 0x2E);
            }
        }
    }
    yes
}

/// Whether `tag` gives a cluster to the file of the name `name`, or, where
/// `directory` is set, to the directory of that name.
pub open spec fn tag_is(tag: Cluster, directory: bool, name: Seq<u16>) -> bool {
    match tag {
        Cluster::File(label) => !directory && label@ == name,
        Cluster::Directory(label) => directory && label@ == name,
        _ => false,
    }
}

/// The index of the first cluster of `chain`, from the index `from` on,
/// that has another tag than `Fat` in `map`: it is free, or it has an owner
/// already. Where the chain has no such cluster, its length.
pub open spec fn first_owned(map: Seq<Cluster>, chain: Seq<u32>, from: int) -> int
    decreases chain.len() - from,
{
    if from >= chain.len() {
        chain.len() as int
    } else if !(map[chain[from] - 2] is Fat) {
        from
    } else {
        first_owned(map, chain, from + 1)
    }
}

/// What a data cluster is used for, as a mathematical value.
pub enum Tag {
    /// The cluster belongs to the file of that name.
    File(Seq<u16>),
    /// The cluster belongs to the directory of that name.
    Directory(Seq<u16>),
    /// The cluster is free.
    Free,
    /// The cluster is taken, and no entry has been found that leads to it.
    Fat,
}

/// The tag as a mathematical value.
pub open spec fn tag_of(tag: Cluster) -> Tag {
    match tag {
        Cluster::File(name) => Tag::File(name@),
        Cluster::Directory(name) => Tag::Directory(name@),
        Cluster::Free => Tag::Free,
        Cluster::Fat => Tag::Fat,
    }
}

/// The tags of a map as mathematical values.
pub open spec fn tags_of(map: Seq<Cluster>) -> Seq<Tag> {
    Seq::new(map.len(), |i: int| tag_of(map[i]))
}

/// The tag of a cluster of the file, or, where `directory` is set, of the
/// directory, of the name `name`.
pub open spec fn label_of(directory: bool, name: Seq<u16>) -> Tag {
    if directory {
        Tag::Directory(name)
    } else {
        Tag::File(name)
    }
}

/// The map in which nothing has an owner yet: a tag for every data cluster,
/// from cluster 2 on, `Free` for a free cluster and `Fat` for any other.
pub open spec fn fresh_tags(entries: Seq<ClusterEntry>) -> Seq<Tag> {
    Seq::new(
        (entries.len() - 2) as nat,
        |i: int|
            if entries[i + 2] == ClusterEntry::Free {
                Tag::Free
            } else {
                Tag::Fat
            },
    )
}

/// The map after the clusters of `chain` have got the tag `label`; none
/// where one of them is free or has an owner already.
pub open spec fn claimed(tags: Seq<Tag>, chain: Seq<u32>, label: Tag) -> Option<Seq<Tag>> {
    if forall|k: int| 0 <= k < chain.len() ==> tags[#[trigger] chain[k] - 2] == Tag::Fat {
        Some(
            Seq::new(
                tags.len(),
                |i: int|
                    if occurs(chain, i + 2) {
                        label
                    } else {
                        tags[i]
                    },
            ),
        )
    } else {
        None
    }
}

/// How far the walk through the directory tree has come: the tags given so
/// far, and the directories that are still to be read, the next one last.
pub struct Survey {
    /// The tags given so far.
    pub tags: Seq<Tag>,
    /// The directories that are still to be read.
    pub pending: Seq<Dir>,
}

/// The walk after it has looked at the slot `i` of the directory `bytes`.
///
/// A slot that holds no entry is passed over, and so are a volume label,
/// the entries `.` and `..`, and an entry without clusters. The clusters of
/// the chain of any other entry get the name of the entry, as clusters of a
/// directory where the entry is one, else as clusters of a file; a directory
/// is also put down to be read. The walk fails where the entry has no chain,
/// or where a cluster of its chain is free or has an owner already.
#[verifier::opaque]
pub open spec fn visited(
    kind: FatType,
    entries: Seq<ClusterEntry>,
    bytes: Seq<u8>,
    state: Survey,
    i: int,
) -> Option<Survey> {
    let meta = meta_at(bytes, i).spec_narrowed(kind);
    let name = entry_name(bytes, i);
    let directory = meta.attributes / 16 % 2 == 1;
    if !listed(bytes, i) || meta.attributes / 8 % 2 == 1 || is_dot_name(name) || meta.first_cluster
        == 0 {
        Some(state)
    } else {
        match chain_of(entries, meta.first_cluster) {
            None => None,
            Some(chain) => match claimed(state.tags, chain, label_of(directory, name)) {
                None => None,
                Some(tags) => Some(
                    Survey {
                        tags,
                        pending: if directory {
                            state.pending.push(Dir { first_cluster: meta.first_cluster })
                        } else {
                            state.pending
                        },
                    },
                ),
            },
        }
    }
}

/// The walk after it has looked at the slots in front of `upto` of the
/// directory `bytes`, one after the other.
pub open spec fn visited_upto(
    kind: FatType,
    entries: Seq<ClusterEntry>,
    bytes: Seq<u8>,
    state: Survey,
    upto: int,
) -> Option<Survey>
    decreases upto,
{
    if upto <= 0 {
        Some(state)
    } else {
        match visited_upto(kind, entries, bytes, state, upto - 1) {
            None => None,
            Some(so_far) => visited(kind, entries, bytes, so_far, upto - 1),
        }
    }
}

/// The tags that the walk ends with, from the state `state` on: as long as
/// a directory is still to be read, the one put down last is read, and its
/// slots are looked at in their order up to the end of the directory. The
/// walk reads `budget` directories at most; it fails where more are to be
/// read, where a directory cannot be read, and where the look at a slot
/// fails.
pub open spec fn walked(
    kind: FatType,
    entries: Seq<ClusterEntry>,
    root: Seq<u8>,
    data: Seq<u8>,
    size: int,
    state: Survey,
    budget: nat,
) -> Option<Seq<Tag>>
    decreases budget,
{
    if state.pending.len() == 0 {
        Some(state.tags)
    } else if budget == 0 {
        None
    } else {
        match dir_view(kind, entries, root, data, size, state.pending.last()) {
            None => None,
            Some(bytes) => match visited_upto(
                kind,
                entries,
                bytes,
                Survey { tags: state.tags, pending: state.pending.drop_last() },
                crate::dir::end_index(bytes),
            ) {
                None => None,
                Some(next) => walked(kind, entries, root, data, size, next, (budget - 1) as nat),
            },
        }
    }
}

/// A walk that has failed at a slot has failed for good.
pub proof fn lemma_visit_failed(
    kind: FatType,
    entries: Seq<ClusterEntry>,
    bytes: Seq<u8>,
    state: Survey,
    at: int,
    upto: int,
)
    requires
        0 <= at <= upto,
        visited_upto(kind, entries, bytes, state, at) is None,
    ensures
        visited_upto(kind, entries, bytes, state, upto) is None,
    decreases upto - at,
{
    if at < upto {
        lemma_visit_failed(kind, entries, bytes, state, at, upto - 1);
    }
}

/// A chain has no cluster that is free or owned exactly where each of its
/// clusters has the tag `Fat`.
pub proof fn lemma_first_owned(map: Seq<Cluster>, chain: Seq<u32>, from: int)
    requires
        0 <= from <= chain.len(),
        forall|k: int| 0 <= k < chain.len() ==> 2 <= #[trigger] chain[k] < map.len() + 2,
    ensures
        from <= first_owned(map, chain, from) <= chain.len(),
        first_owned(map, chain, from) == chain.len() <==> forall|k: int|
            from <= k < chain.len() ==> tags_of(map)[#[trigger] chain[k] - 2] == Tag::Fat,
    decreases chain.len() - from,
{
    if from < chain.len() {
        lemma_first_owned(map, chain, from + 1);
        assert(2 <= chain[from] < map.len() + 2);
        assert(tags_of(map)[chain[from] - 2] == tag_of(map[chain[from] - 2]));
        if !(map[chain[from] - 2] is Fat) {
            assert(tags_of(map)[chain[from] - 2] != Tag::Fat);
        }
    }
}

/// What the tagging of a chain does to a map is what `claimed` says.
pub proof fn lemma_tag_claims(
    before: Seq<Cluster>,
    after: Seq<Cluster>,
    chain: Seq<u32>,
    directory: bool,
    name: Seq<u16>,
)
    requires
        after.len() == before.len(),
        forall|k: int| 0 <= k < chain.len() ==> 2 <= #[trigger] chain[k] < before.len() + 2,
        forall|i: int|
            0 <= i < before.len() ==> if occurs(
                chain.take(first_owned(before, chain, 0)),
                i + 2,
            ) {
                tag_is(#[trigger] after[i], directory, name)
            } else {
                after[i] == before[i]
            },
    ensures
        first_owned(before, chain, 0) == chain.len() <==> claimed(
            tags_of(before),
            chain,
            label_of(directory, name),
        ) is Some,
        first_owned(before, chain, 0) == chain.len() ==> claimed(
            tags_of(before),
            chain,
            label_of(directory, name),
        ) == Some(tags_of(after)),
{
    lemma_first_owned(before, chain, 0);
    if first_owned(before, chain, 0) == chain.len() {
        assert(chain.take(chain.len() as int) =~= chain);
        let label = label_of(directory, name);
        let expected = Seq::new(
            before.len(),
            |i: int|
                if occurs(chain, i + 2) {
                    label
                } else {
                    tags_of(before)[i]
                },
        );
        assert forall|i: int| 0 <= i < before.len() implies tags_of(after)[i] == expected[i] by {
            if occurs(chain, i + 2) {
                assert(tag_is(after[i], directory, name));
            } else {
                assert(after[i] == before[i]);
            }
        }
        assert(tags_of(after) =~= expected);
    }
}

/// A cluster of a chain is none of the clusters in front of it.
pub proof fn lemma_not_yet(chain: Seq<u32>, k: int)
    requires
        chain.no_duplicates(),
        0 <= k < chain.len(),
    ensures
        !occurs(chain.take(k), chain[k] as int),
{
    if occurs(chain.take(k), chain[k] as int) {
        let j = crate::chain::position(chain.take(k), chain[k] as int);
        assert(chain.take(k)[j] == chain[j]);
    }
}

/// Whether `now` is the map `start` after the first `k` clusters of
/// `chain` have been tagged: they have the tag of the file, or of the
/// directory, of the name `name`, and every other cluster has the tag that
/// it had.
#[verifier::opaque]
pub open spec fn tagged(
    start: Seq<Cluster>,
    now: Seq<Cluster>,
    chain: Seq<u32>,
    k: int,
    directory: bool,
    name: Seq<u16>,
) -> bool {
    &&& now.len() == start.len()
    &&& forall|i: int|
        0 <= i < start.len() ==> if occurs(chain.take(k), i + 2) {
            tag_is(#[trigger] now[i], directory, name)
        } else {
            now[i] == start[i]
        }
}

/// Before any cluster has been tagged the map is as it was.
pub proof fn lemma_tag_none(start: Seq<Cluster>, chain: Seq<u32>, directory: bool, name: Seq<u16>)
    ensures
        tagged(start, start, chain, 0, directory, name),
{
    reveal(tagged);
    assert forall|i: int| 0 <= i < start.len() implies if occurs(chain.take(0), i + 2) {
        tag_is(#[trigger] start[i], directory, name)
    } else {
        start[i] == start[i]
    } by {
        if occurs(chain.take(0), i + 2) {
            let j = crate::chain::position(chain.take(0), i + 2);
            assert(0 <= j < chain.take(0).len());
        }
    }
}

/// The next cluster of a chain still has the tag that it had.
pub proof fn lemma_tag_next(
    start: Seq<Cluster>,
    now: Seq<Cluster>,
    chain: Seq<u32>,
    k: int,
    directory: bool,
    name: Seq<u16>,
)
    requires
        chain.no_duplicates(),
        0 <= k < chain.len(),
        2 <= chain[k] < start.len() + 2,
        tagged(start, now, chain, k, directory, name),
    ensures
        now.len() == start.len(),
        now[chain[k] - 2] == start[chain[k] - 2],
{
    reveal(tagged);
    lemma_not_yet(chain, k);
}

/// Tagging the next cluster of a chain leaves a map in which the clusters
/// of the chain up to that one have the tag, and every other cluster has the
/// tag that it had.
pub proof fn lemma_tag_step(
    start: Seq<Cluster>,
    before: Seq<Cluster>,
    chain: Seq<u32>,
    k: int,
    tag: Cluster,
    directory: bool,
    name: Seq<u16>,
)
    requires
        chain.no_duplicates(),
        0 <= k < chain.len(),
        2 <= chain[k] < start.len() + 2,
        tag_is(tag, directory, name),
        tagged(start, before, chain, k, directory, name),
    ensures
        tagged(start, before.update(chain[k] - 2, tag), chain, k + 1, directory, name),
{
    reveal(tagged);
    let at = chain[k] - 2;
    let after = before.update(at, tag);
    let shorter = chain.take(k);
    let longer = chain.take(k + 1);
    assert forall|i: int| 0 <= i < start.len() implies if occurs(longer, i + 2) {
        tag_is(#[trigger] after[i], directory, name)
    } else {
        after[i] == start[i]
    } by {
        if i == at {
            assert(longer[k] == chain[k]);
            assert(occurs(longer, i + 2));
        } else {
            assert(after[i] == before[i]);
            if occurs(shorter, i + 2) {
                let j = crate::chain::position(shorter, i + 2);
                assert(longer[j] == shorter[j]);
                assert(occurs(longer, i + 2));
            } else if occurs(longer, i + 2) {
                let j = crate::chain::position(longer, i + 2);
                if j < k {
                    assert(shorter[j] == longer[j]);
                } else {
                    assert(longer[j] == chain[k]);
                }
            }
        }
    }
}

impl FileSystem {
    /// Whether `map` tells the free clusters of the volume from the others:
    /// it has a tag for each data cluster, from cluster 2 on, and the tag is
    /// `Free` exactly where the cluster is free.
    pub open spec fn maps_free(&self, map: Seq<Cluster>) -> bool {
        &&& map.len() == self.fat().spec_cluster_count()
        &&& forall|i: int|
            0 <= i < map.len() ==> ((#[trigger] map[i]) is Free) == (self.fat().entries()[i + 2]
                == ClusterEntry::Free)
    }

    /// Tags the clusters of the chain that starts at `first` in `map`, in
    /// the order of the chain, with the name `name`: as clusters of a
    /// directory where `directory` is set, else as clusters of a file. A
    /// cluster that has the tag of a file or a directory already is a
    /// corrupted filesystem: the tagging stops there, and the clusters in
    /// front of it keep their new tags. A chain that is broken is a
    /// corrupted filesystem too, and nothing is tagged.
    fn tag_chain(&self, map: &mut Vec<Cluster>, first: u32, name: &Vec<u16>, directory: bool) -> (result:
        Result<(), Error>)
        requires
            self.wf(),
            self.maps_free(old(map)@),
        ensures
            self.maps_free(final(map)@),
            result matches Err(e) ==> e == Error::CorruptedFileSystem,
            final(map)@.len() == old(map)@.len(),
            chain_of(self.fat().entries(), first) is None ==> result is Err && final(map)@ == old(map)@,
            chain_of(self.fat().entries(), first) matches Some(chain) ==> {
                let stop = first_owned(old(map)@, chain, 0);
                &&& result is Ok <==> stop == chain.len()
                &&& forall|i: int|
                    0 <= i < old(map)@.len() ==> if occurs(chain.take(stop), i + 2) {
                        tag_is(#[trigger] final(map)@[i], directory, name@)
                    } else {
                        final(map)@[i] == old(map)@[i]
                    }
            },
    {
        let chain = match self.fat.follow_chain(first) {
            Ok(chain) => chain,
            Err(e) => {
                return Err(e);
            },
        };
        proof {
            lemma_tag_none(old(map)@, chain@, directory, name@);
        }
        let mut k: usize = 0;
        while k < chain.len()
            invariant
                self.wf(),
                self.maps_free(map@),
                k <= chain@.len(),
                crate::chain::is_chain(self.fat().entries(), first, chain@),
                chain_of(self.fat().entries(), first) == Some(chain@),
                chain@.no_duplicates(),
                old(map)@.len() == self.fat().spec_cluster_count(),
                first_owned(old(map)@, chain@, k as int) == first_owned(old(map)@, chain@, 0),
                tagged(old(map)@, map@, chain@, k as int, directory, name@),
            decreases chain@.len() - k,
        {
            let cluster = chain[k];
            proof {
                assert(is_cluster(self.fat().entries(), chain@[k as int] as int));
                if k < chain@.len() - 1 {
                    assert(self.fat().entries()[chain@[k as int] as int] == ClusterEntry::Used(
                        chain@[k + 1],
                    ));
                }
                lemma_tag_next(old(map)@, map@, chain@, k as int, directory, name@);
            }
            let at = (cluster - 2) as usize;
            let taken = match &map[at] {
                Cluster::Fat => false,
                _ => true,
            };
            if taken {
                proof {
                    reveal(tagged);
                }
                return Err(Error::CorruptedFileSystem);
            }
            let label = slice_to_vec(name.as_slice());
            let ghost before = map@;
            let tag = if directory {
                Cluster::Directory(label)
            } else {
                Cluster::File(label)
            };
            let ghost put = tag;
            map[at] = tag;
            proof {
                assert(map@ == before.update(at as int, put));
                lemma_tag_step(old(map)@, before, chain@, k as int, put, directory, name@);
            }
            k += 1;
        }
        proof {
            reveal(tagged);
            assert(chain@.take(k as int) =~= chain@);
        }
        Ok(())
    }

    /// The tags that the walk through the directory tree of the volume
    /// ends with; none where the walk fails.
    ///
    /// The walk begins with the map in which every free cluster has the tag
    /// `Free` and every other the tag `Fat`. On FAT32 the clusters of the
    /// root directory get the tag of a directory with the empty name. Then
    /// the root directory is read, and after it every directory that an
    /// entry leads to, as `walked` says; the walk reads one directory more
    /// than the volume has clusters at most, so that a tree with a loop
    /// makes it fail.
    pub open spec fn surveyed(&self) -> Option<Seq<Tag>> {
        let kind = self.spec_geometry().spec_kind();
        let entries = self.fat().entries();
        let root = Dir {
            first_cluster: if kind == FatType::Fat32 {
                self.spec_geometry().root_cluster
            } else {
                0
            },
        };
        let begun = if root.first_cluster == 0 {
            Some(fresh_tags(entries))
        } else {
            match chain_of(entries, root.first_cluster) {
                None => None,
                Some(chain) => claimed(fresh_tags(entries), chain, Tag::Directory(Seq::empty())),
            }
        };
        match begun {
            None => None,
            Some(tags) => walked(
                kind,
                entries,
                self.root(),
                self.store().data(),
                self.store().spec_cluster_size() as int,
                Survey { tags, pending: seq![root] },
                (self.fat().spec_cluster_count() + 1) as nat,
            ),
        }
    }

    /// Claims the chain of `first` in `map`, as `tag_chain` does.
    fn claim(&self, map: &mut Vec<Cluster>, first: u32, name: &Vec<u16>, directory: bool) -> (result:
        Result<(), Error>)
        requires
            self.wf(),
            self.maps_free(old(map)@),
        ensures
            self.maps_free(final(map)@),
            result matches Err(e) ==> e == Error::CorruptedFileSystem,
            match chain_of(self.fat().entries(), first) {
                None => result is Err,
                Some(chain) => match claimed(
                    tags_of(old(map)@),
                    chain,
                    label_of(directory, name@),
                ) {
                    None => result is Err,
                    Some(tags) => result is Ok && tags_of(final(map)@) == tags,
                },
            },
    {
        let result = self.tag_chain(map, first, name, directory);
        proof {
            if chain_of(self.fat().entries(), first) is Some {
                let chain = chain_of(self.fat().entries(), first).unwrap();
                assert(is_chain(self.fat().entries(), first, chain));
                assert forall|k: int| 0 <= k < chain.len() implies 2 <= #[trigger] chain[k]
                    < old(map)@.len() + 2 by {
                    assert(is_cluster(self.fat().entries(), chain[k] as int));
                }
                lemma_tag_claims(old(map)@, map@, chain, directory, name@);
            }
        }
        result
    }

    /// Looks at the slot `i` of the directory `bytes`, as the walk does.
    fn visit_slot(
        &self,
        map: &mut Vec<Cluster>,
        pending: &mut Vec<Dir>,
        bytes: &Vec<u8>,
        i: usize,
        end: usize,
    ) -> (result: Result<(), Error>)
        requires
            self.wf(),
            self.maps_free(old(map)@),
            end == crate::dir::end_index(bytes@),
            end <= crate::dir::slot_count(bytes@),
            i < end,
        ensures
            self.maps_free(final(map)@),
            result matches Err(e) ==> e == Error::CorruptedFileSystem,
            match visited(
                self.spec_geometry().spec_kind(),
                self.fat().entries(),
                bytes@,
                Survey { tags: tags_of(old(map)@), pending: old(pending)@ },
                i as int,
            ) {
                None => result is Err,
                Some(next) => result is Ok && tags_of(final(map)@) == next.tags && final(pending)@
                    == next.pending,
            },
    {
        proof {
            reveal(visited);
        }
        let kind = self.geometry.kind();
        if !crate::dir::is_listed(bytes.as_slice(), i, end) {
            return Ok(());
        }
        let entry = crate::dir::entry_at(bytes.as_slice(), i);
        let meta = entry.meta.narrowed(kind);
        let label = meta.attributes / 8 % 2 == 1;
        let directory = meta.attributes / 16 % 2 == 1;
        if label || dot_name(&entry.name) || meta.first_cluster == 0 {
            return Ok(());
        }
        match self.claim(map, meta.first_cluster, &entry.name, directory) {
            Ok(()) => {},
            Err(e) => {
                return Err(e);
            },
        }
        if directory {
            pending.push(Dir { first_cluster: meta.first_cluster });
        }
        Ok(())
    }

    /// Looks at the slots of the directory `bytes` in their order, as the
    /// walk does.
    fn visit_dir(&self, map: &mut Vec<Cluster>, pending: &mut Vec<Dir>, bytes: &Vec<u8>) -> (result:
        Result<(), Error>)
        requires
            self.wf(),
            self.maps_free(old(map)@),
        ensures
            self.maps_free(final(map)@),
            result matches Err(e) ==> e == Error::CorruptedFileSystem,
            match visited_upto(
                self.spec_geometry().spec_kind(),
                self.fat().entries(),
                bytes@,
                Survey { tags: tags_of(old(map)@), pending: old(pending)@ },
                crate::dir::end_index(bytes@),
            ) {
                None => result is Err,
                Some(next) => result is Ok && tags_of(final(map)@) == next.tags && final(pending)@
                    == next.pending,
            },
    {
        let end = crate::dir::find_end(bytes.as_slice());
        let ghost kind = self.spec_geometry().spec_kind();
        let ghost entries = self.fat().entries();
        let ghost start = Survey { tags: tags_of(map@), pending: pending@ };
        let mut i: usize = 0;
        while i < end
            invariant
                self.wf(),
                self.maps_free(map@),
                kind == self.spec_geometry().spec_kind(),
                entries == self.fat().entries(),
                end == crate::dir::end_index(bytes@),
                end <= crate::dir::slot_count(bytes@),
                i <= end,
                start == (Survey { tags: tags_of(old(map)@), pending: old(pending)@ }),
                visited_upto(kind, entries, bytes@, start, i as int) == Some(
                    Survey { tags: tags_of(map@), pending: pending@ },
                ),
            decreases end - i,
        {
            match self.visit_slot(map, pending, bytes, i, end) {
                Ok(()) => {},
                Err(e) => {
                    proof {
                        assert(visited_upto(kind, entries, bytes@, start, i + 1) is None);
                        lemma_visit_failed(kind, entries, bytes@, start, i + 1, end as int);
                    }
                    return Err(e);
                },
            }
            i += 1;
        }
        Ok(())
    }

    /// Tells for every data cluster, from cluster 2 on, what it is used
    /// for. The directory tree is walked from the root; the clusters of
    /// each file and directory get its name, those of the root directory the
    /// empty name. A cluster that is taken and that the walk does not come
    /// by keeps the tag `Fat`. A tree that is broken (a chain that does not
    /// end, a cluster with two owners, a directory that cannot be read, a
    /// loop) is a corrupted filesystem.
    pub fn cluster_map(&self) -> (result: Result<Vec<Cluster>, Error>)
        requires
            self.wf(),
        ensures
            self.surveyed() matches Some(tags) ==> (result matches Ok(map) && tags_of(map@)
                == tags),
            self.surveyed() is None ==> result == Err::<Vec<Cluster>, Error>(
                Error::CorruptedFileSystem,
            ),
            result matches Ok(map) ==> self.maps_free(map@),
    {
        let count = self.fat.cluster_count();
        let kind = self.geometry.kind();
        let ghost entries = self.fat().entries();
        let ghost size = self.store().spec_cluster_size() as int;
        let mut map: Vec<Cluster> = Vec::new();
        let mut cluster: u32 = 2;
        while cluster - 2 < count
            invariant
                self.wf(),
                count == self.fat().spec_cluster_count(),
                2 <= cluster <= count + 2,
                map@.len() == cluster - 2,
                forall|i: int|
                    0 <= i < map@.len() ==> tag_of(#[trigger] map@[i]) == if self.fat().entries()[i
                        + 2] == ClusterEntry::Free {
                        Tag::Free
                    } else {
                        Tag::Fat
                    },
            decreases count + 2 - cluster,
        {
            match self.fat.read_entry(cluster) {
                Ok(ClusterEntry::Free) => map.push(Cluster::Free),
                _ => map.push(Cluster::Fat),
            }
            cluster += 1;
        }
        proof {
            assert(tags_of(map@) =~= fresh_tags(entries));
            assert(self.maps_free(map@)) by {
                assert forall|i: int| 0 <= i < map@.len() implies ((#[trigger] map@[i]) is Free)
                    == (self.fat().entries()[i + 2] == ClusterEntry::Free) by {
                    assert(tag_of(map@[i]) == if self.fat().entries()[i + 2] == ClusterEntry::Free {
                        Tag::Free
                    } else {
                        Tag::Fat
                    });
                }
            }
        }
        let root = self.root_dir();
        if root.first_cluster != 0 {
            let nameless: Vec<u16> = Vec::new();
            assert(nameless@ =~= Seq::<u16>::empty());
            match self.claim(&mut map, root.first_cluster, &nameless, true) {
                Ok(()) => {},
                Err(e) => {
                    return Err(e);
                },
            }
        }
        let mut pending: Vec<Dir> = Vec::new();
        pending.push(root);
        assert(pending@ =~= seq![root]);
        let mut budget: u32 = count + 1;
        let ghost goal = self.surveyed();
        while pending.len() > 0
            invariant
                self.wf(),
                self.maps_free(map@),
                kind == self.spec_geometry().spec_kind(),
                entries == self.fat().entries(),
                size == self.store().spec_cluster_size(),
                goal == self.surveyed(),
                walked(
                    kind,
                    entries,
                    self.root(),
                    self.store().data(),
                    size,
                    Survey { tags: tags_of(map@), pending: pending@ },
                    budget as nat,
                ) == goal,
            decreases budget,
        {
            if budget == 0 {
                return Err(Error::CorruptedFileSystem);
            }
            budget -= 1;
            let ghost waiting = pending@;
            let dir = match pending.pop() {
                Some(dir) => dir,
                None => {
                    return Err(Error::CorruptedFileSystem);
                },
            };
            assert(pending@ =~= waiting.drop_last());
            assert(dir == waiting.last());
            let bytes = match self.load_dir(dir) {
                Ok(bytes) => bytes,
                Err(e) => {
                    return Err(e);
                },
            };
            match self.visit_dir(&mut map, &mut pending, &bytes) {
                Ok(()) => {},
                Err(e) => {
                    return Err(e);
                },
            }
        }
        Ok(map)
    }
}

impl FileSystem {
    /// Makes a directory one cluster longer: allocates a cluster, fills it
    /// with zeros and splices it behind the last cluster of the directory.
    /// The fixed root directory cannot grow, nor a directory beyond the
    /// greatest length of a directory, nor any on a volume without a free
    /// cluster: these give `NotEnoughSpace`, and nothing is written.
    pub fn grow_dir(&mut self, dir: Dir) -> (result: Result<(), Error>)
        requires
            old(self).wf(),
        ensures
            final(self).wf(),
            final(self).spec_geometry() == old(self).spec_geometry(),
            final(self).head() == old(self).head(),
            final(self).tail() == old(self).tail(),
            final(self).root() == old(self).root(),
            result is Err ==> final(self).fat().copies() == old(self).fat().copies() && final(self).store().data() == old(self).store().data(),
            dir.spec_first_cluster() == 0 ==> result == Err::<(), Error>(Error::NotEnoughSpace),
            dir.spec_first_cluster() != 0 && old(self).dir_bytes(dir) is None ==> result == Err::<
                (),
                Error,
            >(Error::CorruptedFileSystem),
            dir.spec_first_cluster() != 0 ==> (old(self).dir_bytes(dir) matches Some(before) ==> {
                let size = old(self).store().spec_cluster_size();
                let chain = chain_of(old(self).fat().entries(), dir.spec_first_cluster()).unwrap();
                &&& before.len() + size > MAX_DIR_LEN || free_count(old(self).fat().entries()) < 1
                    ==> result == Err::<(), Error>(Error::NotEnoughSpace)
                &&& before.len() + size <= MAX_DIR_LEN && free_count(old(self).fat().entries()) >= 1
                    ==> {
                    &&& result == Ok::<(), Error>(())
                    &&& final(self).dir_bytes(dir) == Some(before + zeros(size as int))
                    &&& final(self).fat().entries() == extended(
                        old(self).fat().entries(),
                        chain.last(),
                        1,
                    )
                    &&& final(self).store().data().len() == old(self).store().data().len()
                    &&& forall|x: int|
                        0 <= x < old(self).store().data().len() && !within_chain(
                            seq![free_order(old(self).fat().entries(), (chain.last() + 1) as u32)[0]],
                            size as int,
                            x,
                        ) ==> final(self).store().data()[x] == old(self).store().data()[x]
                }
            }),
    {
        if dir.first_cluster == 0 {
            return Err(Error::NotEnoughSpace);
        }
        let chain = match self.fat.follow_chain(dir.first_cluster) {
            Ok(chain) => chain,
            Err(e) => {
                return Err(e);
            },
        };
        let size = self.store.cluster_size();
        let ghost entries = self.fat().entries();
        let ghost data = self.store().data();
        proof {
            lemma_chain_bounded(entries, dir.first_cluster, chain@);
            self.store.lemma_fits();
            assert(chain@.len() * size <= self.store().spec_clusters() * size) by (nonlinear_arith)
                requires
                    chain@.len() <= self.store().spec_clusters(),
                    size > 0,
            ;
        }
        let len = chain.len() * size;
        if len > MAX_DIR_LEN {
            return Err(Error::CorruptedFileSystem);
        }
        if len + size > MAX_DIR_LEN {
            return Err(Error::NotEnoughSpace);
        }
        let last = chain[chain.len() - 1];
        proof {
            assert(is_cluster(entries, chain@.last() as int));
        }
        let tail = match self.fat.extend_chain(last, 1) {
            Ok(tail) => tail,
            Err(e) => {
                return Err(e);
            },
        };
        proof {
            lemma_extended_chain(entries, dir.first_cluster, chain@, 1);
            let added = free_order(entries, (last + 1) as u32).take(1);
            assert(added =~= seq![tail]);
            assert(is_cluster(entries, added[0] as int) && entries[added[0] as int]
                == ClusterEntry::Free);
        }
        self.store.fill(tail, 0);
        proof {
            let after = self.store().data();
            let longer = chain@ + seq![tail];
            assert(longer =~= chain@.push(tail));
            crate::store::lemma_address(
                size as int,
                self.store().spec_clusters() as int,
                tail as int,
                0,
            );
            lemma_chain_bytes_push(after, size as int, chain@, tail);
            assert(cluster_bytes(after, size as int, tail as int) =~= zeros(size as int));
            assert forall|x: int| within_chain(chain@, size as int, x) implies after[x]
                == data[x] by {
                assert forall|i: int, j: int|
                    0 <= i < chain@.len() && 0 <= j < seq![tail].len() implies #[trigger] chain@[i]
                    != #[trigger] seq![tail][j] by {
                    assert(is_cluster(entries, chain@[i] as int));
                    if i < chain@.len() - 1 {
                        assert(entries[chain@[i] as int] == ClusterEntry::Used(chain@[i + 1]));
                    }
                }
                lemma_chains_apart(chain@, seq![tail], size as int, x);
                let k = choose|k: int|
                    0 <= k < chain@.len() && crate::store::offset_of(
                        size as int,
                        #[trigger] chain@[k] as int,
                    ) <= x < crate::store::offset_of(size as int, chain@[k] as int) + size;
                assert(is_cluster(entries, chain@[k] as int));
                crate::store::lemma_address(
                    size as int,
                    self.store().spec_clusters() as int,
                    chain@[k] as int,
                    0,
                );
                if crate::store::offset_of(size as int, tail as int) <= x
                    < crate::store::offset_of(size as int, tail as int) + size {
                    assert(within_chain(seq![tail], size as int, x)) by {
                        assert(seq![tail][0] == tail);
                    }
                }
            }
            lemma_chain_bytes_frame(data, after, size as int, chain@);
            assert((chain@.len() + 1) * size == chain@.len() * size + size) by (nonlinear_arith);
            assert forall|x: int|
                0 <= x < data.len() && !within_chain(seq![tail], size as int, x) implies after[x]
                == data[x] by {
                if crate::store::offset_of(size as int, tail as int) <= x
                    < crate::store::offset_of(size as int, tail as int) + size {
                    assert(seq![tail][0] == tail);
                    assert(within_chain(seq![tail], size as int, x));
                }
            }
        }
        Ok(())
    }
}

/// Whether `after` is the directory `before` with one more entry, in the
/// slot `slot`, with the name `name` and the content `meta`: a listing gives
/// that entry, and every entry that was listed before, unchanged, and no
/// other.
pub open spec fn entered(
    before: Seq<u8>,
    after: Seq<u8>,
    slot: int,
    name: Seq<u16>,
    meta: Meta,
) -> bool {
    &&& listed(after, slot)
    &&& !listed(before, slot)
    &&& entry_name(after, slot) == name
    &&& meta_at(after, slot) == meta
    &&& forall|j: int| j != slot ==> listed(after, j) == listed(before, j)
    &&& forall|j: int|
        listed(before, j) ==> entry_name(after, j) == entry_name(before, j) && short_bytes(after, j)
            == short_bytes(before, j) && meta_at(after, j) == meta_at(before, j)
}

/// The size of a cluster is a whole number of slots, and so is the length
/// of any number of clusters.
pub proof fn lemma_cluster_slots(g: Geometry, n: int)
    requires
        g.wf(),
        0 <= n,
    ensures
        g.spec_cluster_size() % 32 == 0,
        (n * g.spec_cluster_size()) % 32 == 0,
        g.spec_cluster_size() >= 512,
{
    let b = g.bytes_per_sector as int;
    let c = g.sectors_per_cluster as int;
    let q = (b / 32) * c;
    assert(b == 32 * (b / 32));
    assert(b * c == q * 32) by (nonlinear_arith)
        requires
            b == 32 * (b / 32),
            q == (b / 32) * c,
    ;
    assert(n * (b * c) == (n * q) * 32) by (nonlinear_arith)
        requires
            b * c == q * 32,
    ;
    vstd::arithmetic::div_mod::lemma_mod_multiples_basic(q, 32);
    vstd::arithmetic::div_mod::lemma_mod_multiples_basic(n * q, 32);
    assert(b * c >= 512) by (nonlinear_arith)
        requires
            b >= 512,
            c >= 1,
    ;
}

/// Whether the directory `dir` with the bytes `bytes` can be made one
/// cluster longer: it lies in a cluster chain, it stays within the greatest
/// length of a directory, and the volume has a free cluster.
pub open spec fn can_grow(
    dir: Dir,
    bytes: Seq<u8>,
    cluster_size: int,
    entries: Seq<ClusterEntry>,
) -> bool {
    &&& dir.spec_first_cluster() != 0
    &&& bytes.len() + cluster_size <= MAX_DIR_LEN
    &&& free_count(entries) >= 1
}

/// Whether the data region `after` differs from `before` in the clusters
/// of `chain` at most.
pub open spec fn only_within(before: Seq<u8>, after: Seq<u8>, chain: Seq<u32>, size: int) -> bool {
    &&& after.len() == before.len()
    &&& forall|x: int|
        0 <= x < before.len() && !within_chain(chain, size, x) ==> #[trigger] after[x] == before[x]
}

/// A byte of a chain is a byte of every chain that the chain is a part of.
pub proof fn lemma_within_longer(chain: Seq<u32>, more: Seq<u32>, size: int, x: int)
    ensures
        within_chain(chain, size, x) ==> within_chain(chain + more, size, x),
        within_chain(more, size, x) ==> within_chain(chain + more, size, x),
{
    let whole = chain + more;
    if within_chain(chain, size, x) {
        let k = choose|k: int|
            0 <= k < chain.len() && crate::store::offset_of(size, #[trigger] chain[k] as int) <= x
                < crate::store::offset_of(size, chain[k] as int) + size;
        assert(whole[k] == chain[k]);
    }
    if within_chain(more, size, x) {
        let k = choose|k: int|
            0 <= k < more.len() && crate::store::offset_of(size, #[trigger] more[k] as int) <= x
                < crate::store::offset_of(size, more[k] as int) + size;
        assert(whole[chain.len() + k] == more[k]);
    }
}

/// What changes a part of a chain at most, and then the chain at most, has
/// changed the chain at most.
pub proof fn lemma_only_within_longer(
    a: Seq<u8>,
    b: Seq<u8>,
    c: Seq<u8>,
    chain: Seq<u32>,
    more: Seq<u32>,
    size: int,
)
    requires
        only_within(a, b, chain, size) || only_within(a, b, more, size) || a == b,
        only_within(b, c, chain + more, size) || b == c,
    ensures
        only_within(a, c, chain + more, size),
{
    assert forall|x: int| 0 <= x < a.len() && !within_chain(chain + more, size, x) implies #[trigger] c[x]
        == a[x] by {
        lemma_within_longer(chain, more, size, x);
        assert(b[x] == a[x]);
    }
}

/// What changes a chain at most, twice, has changed the chain at most.
pub proof fn lemma_only_within_again(
    a: Seq<u8>,
    b: Seq<u8>,
    c: Seq<u8>,
    chain: Seq<u32>,
    size: int,
)
    requires
        only_within(a, b, chain, size) || a == b,
        only_within(b, c, chain, size) || b == c,
    ensures
        only_within(a, c, chain, size),
{
    assert forall|x: int| 0 <= x < a.len() && !within_chain(chain, size, x) implies #[trigger] c[x]
        == a[x] by {
        assert(b[x] == a[x]);
    }
}

/// What changes a chain at most changes at most every chain that the chain
/// is a part of.
pub proof fn lemma_only_within_wider(
    a: Seq<u8>,
    b: Seq<u8>,
    chain: Seq<u32>,
    more: Seq<u32>,
    size: int,
)
    requires
        only_within(a, b, chain, size) || only_within(a, b, more, size) || a == b,
    ensures
        only_within(a, b, chain + more, size),
{
    assert forall|x: int| 0 <= x < a.len() && !within_chain(chain + more, size, x) implies #[trigger] b[x]
        == a[x] by {
        lemma_within_longer(chain, more, size, x);
    }
}

/// The directory and the table after room has been made in the directory
/// for an entry of `slots` slots: as long as the directory has no run of
/// vacant slots for the entry and can grow, it is made one cluster longer,
/// `tries` times at most.
pub open spec fn made_room(
    dir: Dir,
    bytes: Seq<u8>,
    size: int,
    entries: Seq<ClusterEntry>,
    slots: int,
    tries: nat,
) -> (Seq<u8>, Seq<ClusterEntry>)
    decreases tries,
{
    if tries == 0 || fit_from(bytes, slots, 0) >= 0 || !can_grow(dir, bytes, size, entries) {
        (bytes, entries)
    } else {
        made_room(
            dir,
            bytes + zeros(size),
            size,
            extended(entries, chain_of(entries, dir.spec_first_cluster()).unwrap().last(), 1),
            slots,
            (tries - 1) as nat,
        )
    }
}

/// Whether `result` and the directory `after` are what the creation of an
/// entry gives in a directory with the bytes `before` that is not made
/// longer: `InvalidInput` for a name that cannot be the name of an entry and
/// for the attribute of a slot of a long name, `AlreadyExists` for a name by
/// which an entry goes already and for a name for which every generated
/// short name is in use, `NotEnoughSpace` where the directory has no run of
/// vacant slots for the entry; else the entry is placed at the first fit,
/// and the result is the slot of its short entry. After an error the
/// directory is as it was.
#[verifier::opaque]
pub open spec fn adds(
    before: Seq<u8>,
    after: Seq<u8>,
    name: Seq<u16>,
    meta: Meta,
    result: Result<usize, Error>,
) -> bool {
    let n = long_slots(name);
    let s = fit_from(before, n + 1, 0);
    if !valid_name(name) || meta.attributes == ATTR_LONG_NAME {
        result == Err::<usize, Error>(Error::InvalidInput) && after == before
    } else if name_taken(before, name) || chosen_short(before, name) is None {
        result == Err::<usize, Error>(Error::AlreadyExists) && after == before
    } else if s < 0 {
        result == Err::<usize, Error>(Error::NotEnoughSpace) && after == before
    } else {
        &&& result == Ok::<usize, Error>((s + n) as usize)
        &&& placed(before, after, s, n, name, chosen_short(before, name).unwrap(), meta)
        &&& entered(before, after, s + n, name, meta)
        &&& 0 <= s + n <= usize::MAX
    }
}

/// Whether `result`, the directory `after` and the table `table` are what
/// the creation of an entry gives, in a directory with the bytes `before` on
/// a volume with the table `entries` and clusters of `size` bytes.
///
/// A name that cannot be the name of an entry, and the attribute of a slot
/// of a long name, give `InvalidInput`; a name by which an entry goes
/// already, and a name for which every generated short name is in use, give
/// `AlreadyExists`. Directory and table are then as they were. Otherwise
/// room is made: the directory grows by up to two clusters, as far as it
/// must and can. Where the directory has room then, the entry is placed at
/// the first fit, and the result is the slot of its short entry; where it
/// has none, the result is `NotEnoughSpace`, and the directory keeps the
/// clusters that it has got.
pub open spec fn enters(
    dir: Dir,
    before: Seq<u8>,
    after: Seq<u8>,
    entries: Seq<ClusterEntry>,
    table: Seq<ClusterEntry>,
    size: int,
    name: Seq<u16>,
    meta: Meta,
    result: Result<usize, Error>,
) -> bool {
    enters_in(dir, before, after, entries, table, size, name, meta, result, 2)
}

/// What `enters` says, for a directory that grows by up to `tries`
/// clusters.
#[verifier::opaque]
pub open spec fn enters_in(
    dir: Dir,
    before: Seq<u8>,
    after: Seq<u8>,
    entries: Seq<ClusterEntry>,
    table: Seq<ClusterEntry>,
    size: int,
    name: Seq<u16>,
    meta: Meta,
    result: Result<usize, Error>,
    tries: nat,
) -> bool {
    let n = long_slots(name);
    let room = made_room(dir, before, size, entries, n + 1, tries);
    let s = fit_from(room.0, n + 1, 0);
    if !valid_name(name) || meta.attributes == ATTR_LONG_NAME {
        result == Err::<usize, Error>(Error::InvalidInput) && after == before && table == entries
    } else if name_taken(before, name) || chosen_short(before, name) is None {
        result == Err::<usize, Error>(Error::AlreadyExists) && after == before && table == entries
    } else if s < 0 {
        result == Err::<usize, Error>(Error::NotEnoughSpace) && after == room.0 && table == room.1
    } else {
        &&& result == Ok::<usize, Error>((s + n) as usize)
        &&& table == room.1
        &&& placed(room.0, after, s, n, name, chosen_short(before, name).unwrap(), meta)
        &&& entered(before, after, s + n, name, meta)
        &&& 0 <= s + n <= usize::MAX
    }
}

/// A directory made longer by one cluster of zeros.
pub open spec fn once_before(bytes: Seq<u8>, size: int) -> Seq<u8> {
    bytes + zeros(size)
}

/// An entry that is created without more room, or refused for another
/// reason than room, is created or refused in the same way where the
/// directory may grow.
pub proof fn lemma_enters_at_once(
    dir: Dir,
    before: Seq<u8>,
    after: Seq<u8>,
    entries: Seq<ClusterEntry>,
    size: int,
    name: Seq<u16>,
    meta: Meta,
    result: Result<usize, Error>,
    tries: nat,
)
    requires
        adds(before, after, name, meta, result),
        result != Err::<usize, Error>(Error::NotEnoughSpace) || tries == 0 || !can_grow(
            dir,
            before,
            size,
            entries,
        ),
    ensures
        enters_in(dir, before, after, entries, entries, size, name, meta, result, tries),
{
    reveal(adds);
    reveal(enters_in);
    reveal_with_fuel(made_room, 2);
}

/// An entry for which a directory has no room is created or refused as it
/// is in the directory made longer by a cluster.
pub proof fn lemma_enters_grown(
    dir: Dir,
    before: Seq<u8>,
    after: Seq<u8>,
    entries: Seq<ClusterEntry>,
    table: Seq<ClusterEntry>,
    size: int,
    name: Seq<u16>,
    meta: Meta,
    result: Result<usize, Error>,
    tries: nat,
)
    requires
        tries >= 1,
        before.len() % 32 == 0,
        size % 32 == 0,
        size >= 0,
        adds(before, before, name, meta, Err::<usize, Error>(Error::NotEnoughSpace)),
        can_grow(dir, before, size, entries),
        enters_in(
            dir,
            before + zeros(size),
            after,
            extended(entries, chain_of(entries, dir.spec_first_cluster()).unwrap().last(), 1),
            table,
            size,
            name,
            meta,
            result,
            (tries - 1) as nat,
        ),
    ensures
        enters_in(dir, before, after, entries, table, size, name, meta, result, tries),
{
    reveal(adds);
    reveal(enters_in);
    reveal_with_fuel(made_room, 2);
    crate::dir::lemma_grown_names(before, zeros(size), name);
    lemma_dir_grown(before, zeros(size));
}

/// The slot in the result of the creation of a file.
pub open spec fn slot_of(result: Result<(File, usize), Error>) -> Result<usize, Error> {
    match result {
        Ok(made) => Ok(made.1),
        Err(e) => Err(e),
    }
}

impl FileSystem {
    /// Creates the entry, as `add_entry` does.
    fn add_brief(&mut self, dir: Dir, name: &[u16], meta: Meta) -> (result: Result<usize, Error>)
        requires
            old(self).wf(),
        ensures
            final(self).wf(),
            final(self).spec_geometry() == old(self).spec_geometry(),
            final(self).head() == old(self).head(),
            final(self).tail() == old(self).tail(),
            final(self).fat().copies() == old(self).fat().copies(),
            final(self).fat().spec_kind() == old(self).fat().spec_kind(),
            final(self).fat().spec_cluster_count() == old(self).fat().spec_cluster_count(),
            final(self).store().spec_cluster_size() == old(self).store().spec_cluster_size(),
            dir.spec_first_cluster() != 0 ==> final(self).root() == old(self).root(),
            dir.spec_first_cluster() == 0 ==> final(self).store().data() == old(self).store().data(),
            result is Err ==> final(self).store().data() == old(self).store().data() && final(self).root() == old(self).root(),
            dir.spec_first_cluster() != 0 && old(self).dir_bytes(dir) is Some ==> only_within(
                old(self).store().data(),
                final(self).store().data(),
                chain_of(old(self).fat().entries(), dir.spec_first_cluster()).unwrap(),
                old(self).store().spec_cluster_size() as int,
            ),
            old(self).dir_bytes(dir) is None ==> result == Err::<usize, Error>(
                Error::CorruptedFileSystem,
            ),
            old(self).dir_bytes(dir) matches Some(before) ==> final(self).dir_bytes(dir) is Some
                && adds(before, final(self).dir_bytes(dir).unwrap(), name@, meta, result),
            result is Err ==> final(self).dir_bytes(dir) == old(self).dir_bytes(dir),
    {
        let result = self.add_entry(dir, name, meta);
        proof {
            reveal(adds);
            if old(self).dir_bytes(dir) is Some {
                let before = old(self).dir_bytes(dir).unwrap();
                let after = self.dir_bytes(dir).unwrap();
                if result is Ok {
                    let slot = result.unwrap();
                    let n = long_slots(name@);
                    let s = fit_from(before, n + 1, 0);
                    assert(valid_name(name@) && meta.attributes != ATTR_LONG_NAME);
                    assert(!name_taken(before, name@) && chosen_short(before, name@) is Some);
                    assert(s >= 0);
                    assert(listed(after, s + n));
                    crate::dir::lemma_end_from(after, 0);
                    self.lemma_root_fits();
                    assert(after.len() <= usize::MAX);
                    assert(slot == s + n);
                    assert(placed(
                        before,
                        after,
                        s,
                        n,
                        name@,
                        chosen_short(before, name@).unwrap(),
                        meta,
                    ));
                    assert(meta_at(after, s + n) == meta);
                    assert(entered(before, after, slot as int, name@, meta));
                }
            }
        }
        result
    }

    /// Makes the directory one cluster longer and creates the entry in the
    /// longer directory, as `add_entry` does.
    ///
    /// The fixed root directory cannot grow, nor a directory beyond the
    /// greatest length of a directory, nor any on a volume without a free
    /// cluster: these give `NotEnoughSpace`, and nothing is written. Where
    /// the directory has grown and the entry cannot be created, the directory
    /// stays longer by its new cluster of zeros.
    fn add_grown(&mut self, dir: Dir, name: &[u16], meta: Meta) -> (result: Result<usize, Error>)
        requires
            old(self).wf(),
            old(self).dir_bytes(dir) is Some,
        ensures
            final(self).wf(),
            final(self).spec_geometry() == old(self).spec_geometry(),
            final(self).head() == old(self).head(),
            final(self).tail() == old(self).tail(),
            final(self).root() == old(self).root(),
            final(self).dir_bytes(dir) is Some,
            !can_grow(
                dir,
                old(self).dir_bytes(dir).unwrap(),
                old(self).store().spec_cluster_size() as int,
                old(self).fat().entries(),
            ) ==> {
                &&& result == Err::<usize, Error>(Error::NotEnoughSpace)
                &&& final(self).dir_bytes(dir) == old(self).dir_bytes(dir)
                &&& final(self).fat().copies() == old(self).fat().copies()
                &&& final(self).store().data() == old(self).store().data()
            },
            can_grow(
                dir,
                old(self).dir_bytes(dir).unwrap(),
                old(self).store().spec_cluster_size() as int,
                old(self).fat().entries(),
            ) ==> {
                let grown = old(self).dir_bytes(dir).unwrap() + zeros(
                    old(self).store().spec_cluster_size() as int,
                );
                let chain = chain_of(old(self).fat().entries(), dir.spec_first_cluster()).unwrap();
                let added = free_order(old(self).fat().entries(), (chain.last() + 1) as u32).take(1);
                &&& final(self).fat().entries() == extended(
                    old(self).fat().entries(),
                    chain.last(),
                    1,
                )
                &&& chain_of(final(self).fat().entries(), dir.spec_first_cluster()) == Some(
                    chain + added,
                )
                &&& only_within(
                    old(self).store().data(),
                    final(self).store().data(),
                    chain + added,
                    old(self).store().spec_cluster_size() as int,
                )
                &&& adds(grown, final(self).dir_bytes(dir).unwrap(), name@, meta, result)
                &&& result is Err ==> final(self).dir_bytes(dir) == Some(grown)
            },
    {
        let ghost before = self.dir_bytes(dir).unwrap();
        let ghost size = self.store().spec_cluster_size() as int;
        match self.grow_dir(dir) {
            Ok(()) => {},
            Err(e) => {
                proof {
                    self.lemma_same_view(*old(self), dir);
                }
                return Err(e);
            },
        }
        let ghost grown_data = self.store().data();
        proof {
            if dir.spec_first_cluster() != 0 {
                let chain = chain_of(old(self).fat().entries(), dir.spec_first_cluster()).unwrap();
                lemma_extended_chain(
                    old(self).fat().entries(),
                    dir.spec_first_cluster(),
                    chain,
                    1,
                );
            }
        }
        let result = self.add_brief(dir, name, meta);
        proof {
            let chain = chain_of(old(self).fat().entries(), dir.spec_first_cluster()).unwrap();
            let added = free_order(old(self).fat().entries(), (chain.last() + 1) as u32).take(1);
            assert(added =~= seq![free_order(
                old(self).fat().entries(),
                (chain.last() + 1) as u32,
            )[0]]);
            assert(only_within(old(self).store().data(), grown_data, added, size));
            lemma_only_within_longer(
                old(self).store().data(),
                grown_data,
                self.store().data(),
                chain,
                added,
                size,
            );
        }
        result
    }

    /// The fixed root directory is no longer than memory can hold.
    proof fn lemma_root_fits(&self)
        ensures
            self.root().len() <= usize::MAX,
    {
        vstd::std_specs::vec::axiom_spec_len(&self.root);
    }

    /// Volumes with the same table, root directory and data region have the
    /// same directories.
    proof fn lemma_same_view(&self, other: FileSystem, dir: Dir)
        requires
            self.spec_geometry() == other.spec_geometry(),
            self.fat().copies() == other.fat().copies(),
            self.fat().spec_kind() == other.fat().spec_kind(),
            self.fat().spec_cluster_count() == other.fat().spec_cluster_count(),
            self.root() == other.root(),
            self.store().data() == other.store().data(),
            self.store().spec_cluster_size() == other.store().spec_cluster_size(),
        ensures
            self.dir_bytes(dir) == other.dir_bytes(dir),
    {
    }

    /// Creates the entry, and makes the directory longer for it where it
    /// must and can: by one cluster, and by a second one where the first is
    /// not enough.
    fn enter(&mut self, dir: Dir, name: &[u16], meta: Meta) -> (result: Result<usize, Error>)
        requires
            old(self).wf(),
        ensures
            final(self).wf(),
            final(self).spec_geometry() == old(self).spec_geometry(),
            final(self).head() == old(self).head(),
            final(self).tail() == old(self).tail(),
            dir.spec_first_cluster() != 0 ==> final(self).root() == old(self).root(),
            dir.spec_first_cluster() == 0 ==> final(self).store().data() == old(self).store().data(),
            old(self).dir_bytes(dir) is None ==> result == Err::<usize, Error>(
                Error::CorruptedFileSystem,
            ) && final(self).fat().copies() == old(self).fat().copies() && final(self).store().data() == old(self).store().data() && final(self).root() == old(self).root(),
            dir.spec_first_cluster() != 0 && old(self).dir_bytes(dir) is Some ==> chain_of(
                final(self).fat().entries(),
                dir.spec_first_cluster(),
            ) is Some && only_within(
                old(self).store().data(),
                final(self).store().data(),
                chain_of(final(self).fat().entries(), dir.spec_first_cluster()).unwrap(),
                old(self).store().spec_cluster_size() as int,
            ),
            old(self).dir_bytes(dir) matches Some(before) ==> final(self).dir_bytes(dir) is Some
                && enters(
                dir,
                before,
                final(self).dir_bytes(dir).unwrap(),
                old(self).fat().entries(),
                final(self).fat().entries(),
                old(self).store().spec_cluster_size() as int,
                name@,
                meta,
                result,
            ),
    {
        let ghost before = self.dir_bytes(dir);
        let ghost size = self.store().spec_cluster_size() as int;
        let ghost entries = self.fat().entries();
        let ghost data = self.store().data();
        let first = self.add_brief(dir, name, meta);
        match first {
            Err(Error::NotEnoughSpace) => {},
            _ => {
                proof {
                    if before is Some {
                        lemma_enters_at_once(
                            dir,
                            before.unwrap(),
                            self.dir_bytes(dir).unwrap(),
                            entries,
                            size,
                            name@,
                            meta,
                            first,
                            2,
                        );
                    }
                }
                return first;
            },
        }
        let second = self.add_grown(dir, name, meta);
        let ghost once = self.dir_bytes(dir).unwrap();
        let ghost once_entries = self.fat().entries();
        let ghost once_data = self.store().data();
        proof {
            if dir.spec_first_cluster() != 0 {
                let chain = chain_of(entries, dir.spec_first_cluster()).unwrap();
                lemma_cluster_slots(self.spec_geometry(), chain.len() as int);
                lemma_cluster_slots(self.spec_geometry(), chain.len() as int + 1);
                assert((chain.len() + 1) * size == chain.len() * size + size) by (nonlinear_arith);
            }
        }
        if !self.may_go_on(&second) {
            proof {
                if can_grow(dir, before.unwrap(), size, entries) {
                    lemma_enters_at_once(dir, once_before(before.unwrap(), size), once, once_entries, size, name@, meta, second, 1);
                    lemma_enters_grown(dir, before.unwrap(), once, entries, once_entries, size, name@, meta, second, 2);
                } else {
                    lemma_enters_at_once(dir, before.unwrap(), once, entries, size, name@, meta, first, 2);
                }
            }
            return second;
        }
        let third = self.add_grown(dir, name, meta);
        proof {
            let after = self.dir_bytes(dir).unwrap();
            let table = self.fat().entries();
            if !can_grow(dir, before.unwrap(), size, entries) {
                lemma_enters_at_once(dir, before.unwrap(), after, entries, size, name@, meta, first, 2);
            } else {
                let grown = once_before(before.unwrap(), size);
                if !can_grow(dir, grown, size, once_entries) {
                    lemma_enters_at_once(dir, grown, after, once_entries, size, name@, meta, second, 1);
                } else {
                    let longer = chain_of(once_entries, dir.spec_first_cluster()).unwrap();
                    let added = free_order(once_entries, (longer.last() + 1) as u32).take(1);
                    lemma_only_within_longer(data, once_data, self.store().data(), longer, added, size);
                    lemma_enters_at_once(dir, once_before(grown, size), after, table, size, name@, meta, third, 0);
                    lemma_enters_grown(dir, grown, after, once_entries, table, size, name@, meta, third, 1);
                }
                lemma_enters_grown(dir, before.unwrap(), after, entries, table, size, name@, meta, third, 2);
            }
        }
        third
    }

    /// Whether the creation of an entry failed for want of room.
    fn may_go_on(&self, result: &Result<usize, Error>) -> (yes: bool)
        ensures
            yes == (*result == Err::<usize, Error>(Error::NotEnoughSpace)),
    {
        match result {
            Err(Error::NotEnoughSpace) => true,
            _ => false,
        }
    }

    /// Creates an empty file with the name `name` in a directory and opens
    /// it. Of `meta` the attributes, the case flags and the dates and times
    /// are entered; a file begins without clusters and with the size 0.
    ///
    /// Where the directory has no run of vacant slots for the entry, it is
    /// made longer by a cluster, and by a second one where the first is not
    /// enough. The fixed root directory cannot grow, nor a directory beyond
    /// its greatest length, nor any on a volume without a free cluster:
    /// where room cannot be made the result is `NotEnoughSpace`, and the
    /// directory keeps the clusters that it has got.
    pub fn create_file(&mut self, dir: Dir, name: &[u16], meta: Meta) -> (result: Result<
        (File, usize),
        Error,
    >)
        requires
            old(self).wf(),
        ensures
            final(self).wf(),
            final(self).spec_geometry() == old(self).spec_geometry(),
            final(self).head() == old(self).head(),
            final(self).tail() == old(self).tail(),
            dir.spec_first_cluster() != 0 ==> final(self).root() == old(self).root(),
            dir.spec_first_cluster() == 0 ==> final(self).store().data() == old(self).store().data(),
            meta.attributes / 16 % 2 == 1 || old(self).dir_bytes(dir) is None ==> final(self).fat().copies() == old(self).fat().copies() && final(self).store().data() == old(self).store().data() && final(self).root() == old(self).root(),
            meta.attributes / 16 % 2 == 1 ==> result == Err::<(File, usize), Error>(
                Error::InvalidInput,
            ),
            meta.attributes / 16 % 2 == 0 && old(self).dir_bytes(dir) is None ==> result == Err::<
                (File, usize),
                Error,
            >(Error::CorruptedFileSystem),
            meta.attributes / 16 % 2 == 0 && dir.spec_first_cluster() != 0 && old(self).dir_bytes(
                dir,
            ) is Some ==> chain_of(final(self).fat().entries(), dir.spec_first_cluster()) is Some
                && only_within(
                old(self).store().data(),
                final(self).store().data(),
                chain_of(final(self).fat().entries(), dir.spec_first_cluster()).unwrap(),
                old(self).store().spec_cluster_size() as int,
            ),
            meta.attributes / 16 % 2 == 0 ==> (old(self).dir_bytes(dir) matches Some(before)
                ==> final(self).dir_bytes(dir) is Some && enters(
                dir,
                before,
                final(self).dir_bytes(dir).unwrap(),
                old(self).fat().entries(),
                final(self).fat().entries(),
                old(self).store().spec_cluster_size() as int,
                name@,
                Meta { first_cluster: 0, size: 0, ..meta },
                slot_of(result),
            )),
            result matches Ok(made) ==> made.0.spec_first_cluster() == 0 && made.0.spec_size() == 0
                && made.0.spec_position() == 0 && !made.0.spec_is_dirty(),
    {
        if meta.attributes / 16 % 2 == 1 {
            return Err(Error::InvalidInput);
        }
        let empty = Meta { first_cluster: 0, size: 0, ..meta };
        match self.enter(dir, name, empty) {
            Ok(slot) => Ok((File::open(0, 0), slot)),
            Err(e) => Err(e),
        }
    }
}

/// The attributes with the bit of a directory set.
pub open spec fn spec_as_directory(attributes: u8) -> u8 {
    if attributes / 16 % 2 == 1 {
        attributes
    } else {
        (attributes + 16) as u8
    }
}

/// Sets the bit of a directory in the attributes.
#[verifier::when_used_as_spec(spec_as_directory)]
pub fn as_directory(attributes: u8) -> (with_bit: u8)
    ensures
        with_bit == spec_as_directory(attributes),
        with_bit / 16 % 2 == 1,
{
    if attributes / 16 % 2 == 1 {
        attributes
    } else {
        attributes + 16
    }
}

/// The 11 bytes of the short name `.`.
pub open spec fn dot_short() -> Seq<u8> {
    seq![0x2Eu8, 0x20, 0x20, 0x20, 0x20, 0x20, 0x20, 0x20, 0x20, 0x20, 0x20]
}

/// The 11 bytes of the short name `..`.
pub open spec fn dotdot_short() -> Seq<u8> {
    seq![0x2Eu8, 0x2E, 0x20, 0x20, 0x20, 0x20, 0x20, 0x20, 0x20, 0x20, 0x20]
}

/// The content of the entry `.` of a new directory in the cluster `head`:
/// a directory without size, with the dates and times of `meta`.
pub open spec fn own_meta(meta: Meta, head: u32) -> Meta {
    Meta { attributes: ATTR_DIRECTORY, case_flags: 0, first_cluster: head, size: 0, ..meta }
}

/// The bytes of a new directory of `size` bytes: the entry `.` with the
/// content `own` in slot 0, the entry `..` with the cluster `above` in slot
/// 1, and zeros.
pub open spec fn dot_entries(size: int, own: Meta, above: u32) -> Seq<u8> {
    Seq::new(
        size as nat,
        |x: int|
            if x < 32 {
                crate::dir::short_slot(dot_short(), own)[x]
            } else if x < 64 {
                crate::dir::short_slot(dotdot_short(), Meta { first_cluster: above, ..own })[x - 32]
            } else {
                0u8
            },
    )
}

/// Makes the bytes of a new directory.
fn make_dots(size: usize, own: Meta, above: u32) -> (dots: Vec<u8>)
    requires
        size >= 64,
    ensures
        dots@ == dot_entries(size as int, own, above),
{
    let mut dots = zeroes(size);
    let up = Meta { first_cluster: above, ..own };
    let dot: [u8; 11] = [0x2E, 0x20, 0x20, 0x20, 0x20, 0x20, 0x20, 0x20, 0x20, 0x20, 0x20];
    let dotdot: [u8; 11] = [0x2E, 0x2E, 0x20, 0x20, 0x20, 0x20, 0x20, 0x20, 0x20, 0x20, 0x20];
    write_short_slot(&mut dots, 0, &dot, own);
    let ghost one = dots@;
    write_short_slot(&mut dots, 1, &dotdot, up);
    proof {
        assert(dot@ =~= dot_short());
        assert(dotdot@ =~= dotdot_short());
        assert forall|x: int| 0 <= x < size implies dots@[x] == dot_entries(size as int, own, above)[x] by {
            if x < 32 {
                assert(one[32 * 0 + x] == crate::dir::short_slot(dot@, own)[x]);
                assert(dots@[x] == one[x]);
            } else if x < 64 {
                assert(dots@[32 * 1 + (x - 32)] == crate::dir::short_slot(dotdot@, up)[x - 32]);
            } else {
                assert(dots@[x] == one[x]);
            }
        }
        assert(dots@ =~= dot_entries(size as int, own, above));
    }
    dots
}

/// Making room in a directory leaves alone a cluster that is in use and no
/// part of the directory: its entry stays, and it is no part of the longer
/// directory.
pub proof fn lemma_made_room(
    dir: Dir,
    bytes: Seq<u8>,
    size: int,
    entries: Seq<ClusterEntry>,
    slots: int,
    tries: nat,
    other: u32,
)
    requires
        entries.len() <= u32::MAX,
        is_cluster(entries, other as int),
        entries[other as int] != ClusterEntry::Free,
        dir.spec_first_cluster() != 0 ==> (chain_of(entries, dir.spec_first_cluster()) matches Some(
            chain,
        ) && forall|i: int| 0 <= i < chain.len() ==> #[trigger] chain[i] != other),
    ensures
        made_room(dir, bytes, size, entries, slots, tries).1.len() == entries.len(),
        made_room(dir, bytes, size, entries, slots, tries).1[other as int] == entries[other as int],
        dir.spec_first_cluster() != 0 ==> (chain_of(
            made_room(dir, bytes, size, entries, slots, tries).1,
            dir.spec_first_cluster(),
        ) matches Some(chain) && forall|i: int| 0 <= i < chain.len() ==> #[trigger] chain[i] != other),
    decreases tries,
{
    if !(tries == 0 || fit_from(bytes, slots, 0) >= 0 || !can_grow(dir, bytes, size, entries)) {
        let first = dir.spec_first_cluster();
        let chain = chain_of(entries, first).unwrap();
        assert(is_chain(entries, first, chain));
        let longer = extended(entries, chain.last(), 1);
        let added = free_order(entries, (chain.last() + 1) as u32).take(1);
        lemma_extended_chain(entries, first, chain, 1);
        lemma_extended_frame(entries, first, chain, 1);
        assert(chain[chain.len() - 1] != other);
        assert(longer[other as int] == entries[other as int]);
        assert forall|i: int| 0 <= i < (chain + added).len() implies #[trigger] (chain + added)[i]
            != other by {
            if i < chain.len() {
                assert((chain + added)[i] == chain[i]);
            } else {
                assert((chain + added)[i] == added[i - chain.len()]);
                assert(entries[added[i - chain.len()] as int] == ClusterEntry::Free);
            }
        }
        lemma_made_room(dir, bytes + zeros(size), size, longer, slots, (tries - 1) as nat, other);
    }
}

/// The creation of an entry leaves alone a cluster that is in use and no
/// part of the directory.
pub proof fn lemma_enters_spares(
    dir: Dir,
    before: Seq<u8>,
    after: Seq<u8>,
    entries: Seq<ClusterEntry>,
    table: Seq<ClusterEntry>,
    size: int,
    name: Seq<u16>,
    meta: Meta,
    result: Result<usize, Error>,
    other: u32,
)
    requires
        enters(dir, before, after, entries, table, size, name, meta, result),
        entries.len() <= u32::MAX,
        is_cluster(entries, other as int),
        entries[other as int] != ClusterEntry::Free,
        dir.spec_first_cluster() != 0 ==> (chain_of(entries, dir.spec_first_cluster()) matches Some(
            chain,
        ) && forall|i: int| 0 <= i < chain.len() ==> #[trigger] chain[i] != other),
    ensures
        table.len() == entries.len(),
        table[other as int] == entries[other as int],
        dir.spec_first_cluster() != 0 ==> (chain_of(table, dir.spec_first_cluster()) matches Some(
            chain,
        ) && forall|i: int| 0 <= i < chain.len() ==> #[trigger] chain[i] != other),
{
    reveal(enters_in);
    lemma_made_room(dir, before, size, entries, long_slots(name) + 1, 2, other);
}

impl FileSystem {
    /// The cluster under which a directory enters its parent in its entry
    /// `..`: 0 for the root directory.
    pub open spec fn above(&self, parent: Dir) -> u32 {
        if self.spec_geometry().spec_kind() == FatType::Fat32 && parent.spec_first_cluster()
            == self.spec_geometry().root_cluster {
            0
        } else {
            parent.spec_first_cluster()
        }
    }

    /// Gives a new directory its cluster: allocates the first free cluster
    /// from cluster 2 on and writes the entries `.` and `..` into it.
    fn found_dir(&mut self, parent: Dir, meta: Meta) -> (result: Result<u32, Error>)
        requires
            old(self).wf(),
            old(self).dir_bytes(parent) is Some,
        ensures
            final(self).wf(),
            final(self).spec_geometry() == old(self).spec_geometry(),
            final(self).head() == old(self).head(),
            final(self).tail() == old(self).tail(),
            final(self).root() == old(self).root(),
            final(self).dir_bytes(parent) == old(self).dir_bytes(parent),
            free_count(old(self).fat().entries()) < 1 ==> result == Err::<u32, Error>(
                Error::NotEnoughSpace,
            ) && final(self).fat().copies() == old(self).fat().copies() && final(self).store().data() == old(self).store().data(),
            free_count(old(self).fat().entries()) >= 1 ==> {
                let head = free_order(old(self).fat().entries(), 2)[0];
                &&& result == Ok::<u32, Error>(head)
                &&& is_cluster(old(self).fat().entries(), head as int)
                &&& old(self).fat().entries()[head as int] == ClusterEntry::Free
                &&& final(self).fat().entries() == old(self).fat().entries().update(
                    head as int,
                    ClusterEntry::EndOfChain,
                )
                &&& final(self).dir_bytes(Dir { first_cluster: head }) == Some(
                    dot_entries(
                        old(self).store().spec_cluster_size() as int,
                        own_meta(meta, head),
                        old(self).above(parent),
                    ),
                )
                &&& only_within(
                    old(self).store().data(),
                    final(self).store().data(),
                    seq![head],
                    old(self).store().spec_cluster_size() as int,
                )
                &&& parent.spec_first_cluster() != 0 ==> (chain_of(
                    final(self).fat().entries(),
                    parent.spec_first_cluster(),
                ) matches Some(chain) && forall|i: int|
                    0 <= i < chain.len() ==> #[trigger] chain[i] != head)
            },
    {
        let ghost entries = self.fat().entries();
        let size = self.store.cluster_size();
        let head = match self.fat.allocate_chain(1, 2) {
            Ok(head) => head,
            Err(e) => {
                proof {
                    self.lemma_same_view(*old(self), parent);
                }
                return Err(e);
            },
        };
        proof {
            crate::chain::lemma_allocated_one(entries, 2);
            lemma_cluster_slots(self.spec_geometry(), 1);
            assert(seq![head].len() * size == size) by (nonlinear_arith)
                requires
                    seq![head].len() == 1,
            ;
        }
        let above = if parent.first_cluster == self.root_dir().first_cluster {
            0
        } else {
            parent.first_cluster
        };
        let own = Meta {
            attributes: ATTR_DIRECTORY,
            case_flags: 0,
            first_cluster: head,
            size: 0,
            ..meta
        };
        let dots = make_dots(size, own, above);
        let ghost marked = *self;
        self.save_dir(Dir { first_cluster: head }, &dots);
        proof {
            assert(only_within(
                old(self).store().data(),
                self.store().data(),
                seq![head],
                size as int,
            ));
            self.lemma_parent_kept(*old(self), parent, head);
        }
        Ok(head)
    }

    /// A directory is as it was after a cluster that was free has been
    /// marked as the end of a chain and written.
    proof fn lemma_parent_kept(&self, earlier: FileSystem, parent: Dir, head: u32)
        requires
            self.wf(),
            earlier.wf(),
            self.spec_geometry() == earlier.spec_geometry(),
            self.root() == earlier.root(),
            earlier.dir_bytes(parent) is Some,
            is_cluster(earlier.fat().entries(), head as int),
            earlier.fat().entries()[head as int] == ClusterEntry::Free,
            self.fat().entries() == earlier.fat().entries().update(
                head as int,
                ClusterEntry::EndOfChain,
            ),
            only_within(
                earlier.store().data(),
                self.store().data(),
                seq![head],
                self.store().spec_cluster_size() as int,
            ),
        ensures
            self.dir_bytes(parent) == earlier.dir_bytes(parent),
            parent.spec_first_cluster() != 0 ==> (chain_of(
                self.fat().entries(),
                parent.spec_first_cluster(),
            ) matches Some(chain) && forall|i: int|
                0 <= i < chain.len() ==> #[trigger] chain[i] != head),
    {
        let size = self.store().spec_cluster_size() as int;
        let entries = earlier.fat().entries();
        if parent.spec_first_cluster() != 0 {
            let first = parent.spec_first_cluster();
            let chain = chain_of(entries, first).unwrap();
            assert(is_chain(entries, first, chain));
            assert forall|i: int| 0 <= i < chain.len() implies #[trigger] chain[i] != head
                && self.fat().entries()[chain[i] as int] == entries[chain[i] as int] by {
                lemma_chain_in_use(entries, first, chain, i);
            }
            lemma_chain_frame(entries, self.fat().entries(), first, chain);
            assert forall|x: int| within_chain(chain, size, x) implies self.store().data()[x]
                == earlier.store().data()[x] by {
                assert forall|i: int, j: int|
                    0 <= i < chain.len() && 0 <= j < seq![head].len() implies #[trigger] chain[i]
                    != #[trigger] seq![head][j] by {}
                lemma_chains_apart(chain, seq![head], size, x);
                let k = choose|k: int|
                    0 <= k < chain.len() && crate::store::offset_of(size, #[trigger] chain[k] as int)
                        <= x < crate::store::offset_of(size, chain[k] as int) + size;
                lemma_chain_in_use(entries, first, chain, k);
                crate::store::lemma_address(
                    size,
                    self.store().spec_clusters() as int,
                    chain[k] as int,
                    0,
                );
            }
            lemma_chain_bytes_frame(earlier.store().data(), self.store().data(), size, chain);
        }
    }

    /// Creates a directory with the name `name` in the directory `parent`.
    ///
    /// The new directory gets one cluster, the first free one from cluster 2
    /// on, which gets the two entries `.` and `..`, for the directory itself
    /// and for its parent, and zeros behind them; a parent that is the root
    /// directory is entered as cluster 0. Then the entry of the directory is
    /// created in `parent` as `create_file` creates the entry of a file,
    /// with the bit of a directory set in its attributes. Where the entry
    /// cannot be created, the cluster of the new directory is free again; it
    /// keeps the bytes that were written to it.
    pub fn create_dir(&mut self, parent: Dir, name: &[u16], meta: Meta) -> (result: Result<
        Dir,
        Error,
    >)
        requires
            old(self).wf(),
        ensures
            final(self).wf(),
            final(self).spec_geometry() == old(self).spec_geometry(),
            final(self).head() == old(self).head(),
            final(self).tail() == old(self).tail(),
            parent.spec_first_cluster() != 0 ==> final(self).root() == old(self).root(),
            old(self).dir_bytes(parent) is None ==> result == Err::<Dir, Error>(
                Error::CorruptedFileSystem,
            ) && final(self).fat().copies() == old(self).fat().copies() && final(self).store().data() == old(self).store().data() && final(self).root() == old(self).root(),
            old(self).dir_bytes(parent) is Some && free_count(old(self).fat().entries()) < 1
                ==> result == Err::<Dir, Error>(Error::NotEnoughSpace) && final(self).fat().copies() == old(self).fat().copies() && final(self).store().data() == old(self).store().data() && final(self).root() == old(self).root(),
            old(self).dir_bytes(parent) is Some && free_count(old(self).fat().entries()) >= 1
                ==> only_within(
                old(self).store().data(),
                final(self).store().data(),
                seq![free_order(old(self).fat().entries(), 2)[0]] + if parent.spec_first_cluster()
                    != 0 {
                    chain_of(final(self).fat().entries(), parent.spec_first_cluster()).unwrap()
                } else {
                    Seq::empty()
                },
                old(self).store().spec_cluster_size() as int,
            ),
            old(self).dir_bytes(parent) is Some && free_count(old(self).fat().entries()) >= 1
                ==> final(self).dir_bytes(parent) is Some && {
                let before = old(self).dir_bytes(parent).unwrap();
                let head = free_order(old(self).fat().entries(), 2)[0];
                let size = old(self).store().spec_cluster_size() as int;
                exists|table: Seq<ClusterEntry>, made: Result<usize, Error>|
                    {
                        &&& #[trigger] enters(
                            parent,
                            before,
                            final(self).dir_bytes(parent).unwrap(),
                            old(self).fat().entries().update(
                                head as int,
                                ClusterEntry::EndOfChain,
                            ),
                            table,
                            size,
                            name@,
                            Meta {
                                attributes: spec_as_directory(meta.attributes),
                                first_cluster: head,
                                size: 0,
                                ..meta
                            },
                            made,
                        )
                        &&& made matches Err(e) ==> result == Err::<Dir, Error>(e) && final(self).fat().entries() == table.update(head as int, ClusterEntry::Free)
                        &&& made is Ok ==> result == Ok::<Dir, Error>(Dir { first_cluster: head })
                            && final(self).fat().entries() == table && final(self).dir_bytes(
                            Dir { first_cluster: head },
                        ) == Some(dot_entries(size, own_meta(meta, head), old(self).above(parent)))
                    }
            },
    {
        match self.load_dir(parent) {
            Ok(_) => {},
            Err(e) => {
                return Err(e);
            },
        }
        let ghost before = self.dir_bytes(parent).unwrap();
        let ghost size = self.store().spec_cluster_size() as int;
        let head = match self.found_dir(parent, meta) {
            Ok(head) => head,
            Err(e) => {
                return Err(e);
            },
        };
        let made = Dir { first_cluster: head };
        let ghost marked = self.fat().entries();
        let ghost founded = *self;
        let entry = Meta {
            attributes: as_directory(meta.attributes),
            first_cluster: head,
            size: 0,
            ..meta
        };
        let entered = self.enter(parent, name, entry);
        let ghost table = self.fat().entries();
        let ghost after = self.dir_bytes(parent).unwrap();
        proof {
            lemma_enters_spares(parent, before, after, marked, table, size, name@, entry, entered, head);
            let beside = if parent.spec_first_cluster() != 0 {
                chain_of(table, parent.spec_first_cluster()).unwrap()
            } else {
                Seq::<u32>::empty()
            };
            lemma_only_within_wider(
                founded.store().data(),
                self.store().data(),
                seq![head],
                beside,
                size,
            );
            lemma_only_within_longer(
                old(self).store().data(),
                founded.store().data(),
                self.store().data(),
                seq![head],
                beside,
                size,
            );
        }
        match entered {
            Ok(_) => {
                proof {
                    self.lemma_kept(founded, parent, head);
                }
                Ok(made)
            },
            Err(e) => {
                self.release(parent, head);
                Err(e)
            },
        }
    }

    /// Frees the cluster of a directory that got no entry.
    fn release(&mut self, parent: Dir, head: u32)
        requires
            old(self).wf(),
            is_cluster(old(self).fat().entries(), head as int),
            old(self).fat().entries()[head as int] == ClusterEntry::EndOfChain,
            old(self).dir_bytes(parent) is Some,
            parent.spec_first_cluster() != 0 ==> (chain_of(
                old(self).fat().entries(),
                parent.spec_first_cluster(),
            ) matches Some(chain) && forall|i: int|
                0 <= i < chain.len() ==> #[trigger] chain[i] != head),
        ensures
            final(self).wf(),
            final(self).spec_geometry() == old(self).spec_geometry(),
            final(self).head() == old(self).head(),
            final(self).tail() == old(self).tail(),
            final(self).root() == old(self).root(),
            final(self).store().data() == old(self).store().data(),
            final(self).fat().entries() == old(self).fat().entries().update(
                head as int,
                ClusterEntry::Free,
            ),
            final(self).dir_bytes(parent) == old(self).dir_bytes(parent),
            parent.spec_first_cluster() != 0 ==> chain_of(
                final(self).fat().entries(),
                parent.spec_first_cluster(),
            ) == chain_of(old(self).fat().entries(), parent.spec_first_cluster()),
    {
        let ghost table = self.fat().entries();
        proof {
            assert(crate::chain::is_chain(table, head, seq![head]));
            crate::chain::lemma_chain_of(table, head, seq![head]);
        }
        let freed = self.fat.truncate_chain(head, 0);
        proof {
            assert(self.fat().entries() =~= table.update(head as int, ClusterEntry::Free)) by {
                assert forall|c: int| 0 <= c < table.len() implies self.fat().entries()[c]
                    == table.update(head as int, ClusterEntry::Free)[c] by {
                    if c == head {
                        crate::chain::lemma_position(seq![head], 0);
                    } else if occurs(seq![head], c) {
                        let k = crate::chain::position(seq![head], c);
                        assert(seq![head][k] == head);
                    }
                }
            }
            if parent.spec_first_cluster() != 0 {
                let chain = chain_of(table, parent.spec_first_cluster()).unwrap();
                assert(is_chain(table, parent.spec_first_cluster(), chain));
                lemma_chain_frame(table, self.fat().entries(), parent.spec_first_cluster(), chain);
            }
        }
    }

    /// A directory of one cluster is as it was where its entry in the table
    /// has stayed and the data region has changed in the clusters of
    /// another directory at most.
    proof fn lemma_kept(&self, earlier: FileSystem, parent: Dir, head: u32)
        requires
            self.wf(),
            earlier.wf(),
            self.spec_geometry() == earlier.spec_geometry(),
            is_cluster(self.fat().entries(), head as int),
            self.fat().entries()[head as int] == ClusterEntry::EndOfChain,
            earlier.fat().entries()[head as int] == ClusterEntry::EndOfChain,
            parent.spec_first_cluster() == 0 ==> self.store().data() == earlier.store().data(),
            parent.spec_first_cluster() != 0 ==> (chain_of(
                self.fat().entries(),
                parent.spec_first_cluster(),
            ) matches Some(chain) && (forall|i: int|
                0 <= i < chain.len() ==> #[trigger] chain[i] != head) && only_within(
                earlier.store().data(),
                self.store().data(),
                chain,
                self.store().spec_cluster_size() as int,
            )),
        ensures
            self.dir_bytes(Dir { first_cluster: head }) == earlier.dir_bytes(
                Dir { first_cluster: head },
            ),
    {
        assert(crate::chain::is_chain(self.fat().entries(), head, seq![head]));
        crate::chain::lemma_chain_of(self.fat().entries(), head, seq![head]);
        assert(crate::chain::is_chain(earlier.fat().entries(), head, seq![head]));
        crate::chain::lemma_chain_of(earlier.fat().entries(), head, seq![head]);
        self.lemma_apart(parent, head, earlier.store().data());
    }

    /// A directory of one cluster keeps its bytes where the data region
    /// changes in the clusters of another directory at most.
    proof fn lemma_apart(&self, parent: Dir, head: u32, written: Seq<u8>)
        requires
            self.wf(),
            chain_of(self.fat().entries(), head) == Some(seq![head]),
            is_cluster(self.fat().entries(), head as int),
            parent.spec_first_cluster() == 0 ==> self.store().data() == written,
            parent.spec_first_cluster() != 0 ==> (chain_of(
                self.fat().entries(),
                parent.spec_first_cluster(),
            ) matches Some(chain) && (forall|i: int|
                0 <= i < chain.len() ==> #[trigger] chain[i] != head) && only_within(
                written,
                self.store().data(),
                chain,
                self.store().spec_cluster_size() as int,
            )),
        ensures
            chain_bytes(self.store().data(), self.store().spec_cluster_size() as int, seq![head])
                == chain_bytes(written, self.store().spec_cluster_size() as int, seq![head]),
    {
        let size = self.store().spec_cluster_size() as int;
        if parent.spec_first_cluster() != 0 {
            let chain = chain_of(self.fat().entries(), parent.spec_first_cluster()).unwrap();
            assert forall|x: int| within_chain(seq![head], size, x) implies self.store().data()[x]
                == written[x] by {
                assert forall|i: int, j: int|
                    0 <= i < seq![head].len() && 0 <= j < chain.len() implies #[trigger] seq![head][i]
                    != #[trigger] chain[j] by {}
                lemma_chains_apart(seq![head], chain, size, x);
                let k = choose|k: int|
                    0 <= k < seq![head].len() && crate::store::offset_of(
                        size,
                        #[trigger] seq![head][k] as int,
                    ) <= x < crate::store::offset_of(size, seq![head][k] as int) + size;
                crate::store::lemma_address(size, self.store().spec_clusters() as int, head as int, 0);
            }
            lemma_chain_bytes_frame(written, self.store().data(), size, seq![head]);
        }
    }
}

impl FileSystem {
    /// Removes the entry in the slot `slot` of a directory; the cluster
    /// chain of its file stays as it is.
    fn drop_entry(&mut self, dir: Dir, slot: usize)
        requires
            old(self).wf(),
            old(self).dir_bytes(dir) matches Some(before) && listed(before, slot as int),
        ensures
            final(self).wf(),
            final(self).spec_geometry() == old(self).spec_geometry(),
            final(self).head() == old(self).head(),
            final(self).tail() == old(self).tail(),
            final(self).fat().copies() == old(self).fat().copies(),
            dir.spec_first_cluster() != 0 ==> final(self).root() == old(self).root(),
            dir.spec_first_cluster() == 0 ==> final(self).store().data() == old(self).store().data(),
            dir.spec_first_cluster() != 0 ==> only_within(
                old(self).store().data(),
                final(self).store().data(),
                chain_of(old(self).fat().entries(), dir.spec_first_cluster()).unwrap(),
                old(self).store().spec_cluster_size() as int,
            ),
            final(self).dir_bytes(dir) matches Some(after) && removed(
                old(self).dir_bytes(dir).unwrap(),
                after,
                slot as int,
                run_len(old(self).dir_bytes(dir).unwrap(), slot as int),
            ),
    {
        let mut bytes = match self.load_dir(dir) {
            Ok(bytes) => bytes,
            Err(_) => {
                return ;
            },
        };
        let gone = crate::dir::remove(&mut bytes, slot);
        self.save_dir(dir, &bytes);
    }

    /// Gives the entry that goes by the name `name` in a directory the name
    /// `new_name`: creates an entry with the new name and the content of the
    /// old one, and then removes the old one. The cluster chain of the file
    /// stays as it is. Gives back the slot of the new entry.
    ///
    /// A new name by which an entry of the directory goes already, the old
    /// one too, is refused with `AlreadyExists`. The directory is made
    /// longer for the new entry as `create_file` makes it; where room cannot
    /// be made the result is `NotEnoughSpace`, and the old entry stays.
    pub fn rename(&mut self, dir: Dir, name: &[u16], new_name: &[u16]) -> (result: Result<
        usize,
        Error,
    >)
        requires
            old(self).wf(),
        ensures
            final(self).wf(),
            final(self).spec_geometry() == old(self).spec_geometry(),
            final(self).head() == old(self).head(),
            final(self).tail() == old(self).tail(),
            dir.spec_first_cluster() != 0 ==> final(self).root() == old(self).root(),
            dir.spec_first_cluster() == 0 ==> final(self).store().data() == old(self).store().data(),
            dir.spec_first_cluster() != 0 && old(self).dir_bytes(dir) is Some ==> chain_of(
                final(self).fat().entries(),
                dir.spec_first_cluster(),
            ) is Some && only_within(
                old(self).store().data(),
                final(self).store().data(),
                chain_of(final(self).fat().entries(), dir.spec_first_cluster()).unwrap(),
                old(self).store().spec_cluster_size() as int,
            ),
            old(self).dir_bytes(dir) is None ==> result == Err::<usize, Error>(
                Error::CorruptedFileSystem,
            ) && final(self).fat().copies() == old(self).fat().copies() && final(self).store().data() == old(self).store().data() && final(self).root() == old(self).root(),
            old(self).dir_bytes(dir) matches Some(before) ==> final(self).dir_bytes(dir) is Some && {
                let after = final(self).dir_bytes(dir).unwrap();
                let slot = found_slot(before, name@);
                &&& !name_taken(before, name@) ==> result == Err::<usize, Error>(Error::NotFound)
                    && after == before && final(self).fat().entries() == old(self).fat().entries()
                &&& name_taken(before, name@) ==> exists|between: Seq<u8>|
                    #[trigger] enters(
                        dir,
                        before,
                        between,
                        old(self).fat().entries(),
                        final(self).fat().entries(),
                        old(self).store().spec_cluster_size() as int,
                        new_name@,
                        meta_at(before, slot),
                        result,
                    ) && (result is Err ==> after == between) && (result is Ok ==> removed(
                        between,
                        after,
                        slot,
                        run_len(between, slot),
                    ))
            },
    {
        let entry = match self.locate(dir, name) {
            Ok(entry) => entry,
            Err(e) => {
                return Err(e);
            },
        };
        self.rename_at(dir, entry.slot, entry.meta, new_name)
    }

    /// Gives the entry in the slot `slot` of a directory, which has the
    /// content `meta`, the name `new_name`.
    fn rename_at(&mut self, dir: Dir, slot: usize, meta: Meta, new_name: &[u16]) -> (result: Result<
        usize,
        Error,
    >)
        requires
            old(self).wf(),
            old(self).dir_bytes(dir) matches Some(before) && listed(before, slot as int)
                && meta_at(before, slot as int) == meta,
        ensures
            final(self).wf(),
            final(self).spec_geometry() == old(self).spec_geometry(),
            final(self).head() == old(self).head(),
            final(self).tail() == old(self).tail(),
            dir.spec_first_cluster() != 0 ==> final(self).root() == old(self).root(),
            dir.spec_first_cluster() == 0 ==> final(self).store().data() == old(self).store().data(),
            dir.spec_first_cluster() != 0 ==> chain_of(
                final(self).fat().entries(),
                dir.spec_first_cluster(),
            ) is Some && only_within(
                old(self).store().data(),
                final(self).store().data(),
                chain_of(final(self).fat().entries(), dir.spec_first_cluster()).unwrap(),
                old(self).store().spec_cluster_size() as int,
            ),
            final(self).dir_bytes(dir) matches Some(after) && exists|between: Seq<u8>|
                #[trigger] enters(
                    dir,
                    old(self).dir_bytes(dir).unwrap(),
                    between,
                    old(self).fat().entries(),
                    final(self).fat().entries(),
                    old(self).store().spec_cluster_size() as int,
                    new_name@,
                    meta,
                    result,
                ) && (result is Err ==> after == between) && (result is Ok ==> removed(
                    between,
                    after,
                    slot as int,
                    run_len(between, slot as int),
                )),
    {
        let ghost before = self.dir_bytes(dir).unwrap();
        let new_slot = match self.enter(dir, new_name, meta) {
            Ok(new_slot) => new_slot,
            Err(e) => {
                return Err(e);
            },
        };
        let ghost between = self.dir_bytes(dir).unwrap();
        let ghost entered_data = self.store().data();
        assert(listed(between, slot as int)) by {
            reveal(enters_in);
        }
        self.drop_entry(dir, slot);
        proof {
            if dir.spec_first_cluster() != 0 {
                lemma_only_within_again(
                    old(self).store().data(),
                    entered_data,
                    self.store().data(),
                    chain_of(self.fat().entries(), dir.spec_first_cluster()).unwrap(),
                    old(self).store().spec_cluster_size() as int,
                );
            }
        }
        Ok(new_slot)
    }
}

/// Every free cluster of the list stands there with its bytes in the data
/// region.
pub proof fn lemma_free_clusters(
    entries: Seq<ClusterEntry>,
    data: Seq<u8>,
    cluster_size: int,
    upto: int,
    i: int,
)
    requires
        upto <= u32::MAX,
        0 <= i < free_clusters(entries, data, cluster_size, upto).len(),
    ensures
        2 <= free_clusters(entries, data, cluster_size, upto)[i].0 < upto,
        free_clusters(entries, data, cluster_size, upto)[i].1 == cluster_bytes(
            data,
            cluster_size,
            free_clusters(entries, data, cluster_size, upto)[i].0 as int,
        ),
    decreases upto,
{
    if upto > 2 {
        let before = free_clusters(entries, data, cluster_size, upto - 1);
        if i < before.len() {
            lemma_free_clusters(entries, data, cluster_size, upto - 1, i);
        }
    }
}

/// The bytes of clusters that stand in a list with their bytes in the data
/// region are the bytes of the chain of these clusters.
pub proof fn lemma_picked_chain_bytes(
    data: Seq<u8>,
    cluster_size: int,
    total: int,
    list: Seq<(u32, Seq<u8>)>,
    picks: Seq<int>,
)
    requires
        cluster_size > 0,
        data.len() == total * cluster_size,
        forall|i: int|
            0 <= i < list.len() ==> 2 <= (#[trigger] list[i]).0 < total + 2 && list[i].1
                == cluster_bytes(data, cluster_size, list[i].0 as int),
        forall|k: int| 0 <= k < picks.len() ==> 0 <= #[trigger] picks[k] < list.len(),
    ensures
        picked_bytes(list, picks) == chain_bytes(data, cluster_size, picked_numbers(list, picks)),
    decreases picks.len(),
{
    let numbers = picked_numbers(list, picks);
    if picks.len() == 0 {
        assert(numbers.len() * cluster_size == 0) by (nonlinear_arith)
            requires
                numbers.len() == 0,
        ;
        assert(picked_bytes(list, picks) =~= chain_bytes(data, cluster_size, numbers));
    } else {
        let shorter = picks.drop_last();
        assert forall|k: int| 0 <= k < shorter.len() implies 0 <= #[trigger] shorter[k]
            < list.len() by {
            assert(shorter[k] == picks[k]);
        }
        lemma_picked_chain_bytes(data, cluster_size, total, list, shorter);
        let at = picks[picks.len() - 1];
        let cluster = list[at].0;
        assert(numbers =~= picked_numbers(list, shorter).push(cluster));
        crate::store::lemma_address(cluster_size, total, cluster as int, 0);
        lemma_chain_bytes_push(data, cluster_size, picked_numbers(list, shorter), cluster);
    }
}

impl FileSystem {
    /// The bytes of a recovered file are the bytes, in the data region of
    /// the volume, of the clusters that the file holds, in their order.
    pub proof fn lemma_recovered_bytes<F: RecoveryFactory>(
        &self,
        factory: F,
        min_clusters: usize,
        max_clusters: usize,
        j: int,
    )
        requires
            self.wf(),
            0 <= j < recovered(
                factory,
                free_clusters(
                    self.fat().entries(),
                    self.store().data(),
                    self.store().spec_cluster_size() as int,
                    self.fat().entries().len() as int,
                ),
                min_clusters,
                max_clusters,
            ).len(),
        ensures
            ({
                let file = recovered(
                    factory,
                    free_clusters(
                        self.fat().entries(),
                        self.store().data(),
                        self.store().spec_cluster_size() as int,
                        self.fat().entries().len() as int,
                    ),
                    min_clusters,
                    max_clusters,
                )[j];
                file.data == chain_bytes(
                    self.store().data(),
                    self.store().spec_cluster_size() as int,
                    file.clusters,
                )
            }),
    {
        let entries = self.fat().entries();
        let data = self.store().data();
        let size = self.store().spec_cluster_size() as int;
        let list = free_clusters(entries, data, size, entries.len() as int);
        let candidates = CarverModel::fresh(factory).scanned(list).candidates;
        let pred = |c: CandidateModel<F::State>| min_clusters <= c.file.clusters.len() <= max_clusters;
        let kept = candidates.filter(pred);
        assert(kept.contains(kept[j]));
        candidates.lemma_filter_contains_rev(pred, kept[j]);
        let i = choose|i: int| 0 <= i < candidates.len() && candidates[i] == kept[j];
        let picks = lemma_scan_gathers(factory, list, i);
        assert forall|k: int| 0 <= k < list.len() implies 2 <= (#[trigger] list[k]).0
            < self.store().spec_clusters() + 2 && list[k].1 == cluster_bytes(
            data,
            size,
            list[k].0 as int,
        ) by {
            lemma_free_clusters(entries, data, size, entries.len() as int, k);
        }
        lemma_picked_chain_bytes(data, size, self.store().spec_clusters() as int, list, picks);
    }

    /// Where the clusters of a recovered file begin with the clusters that
    /// a lost file had, the bytes of the recovered file begin with the
    /// content of the lost file: a file of `n` bytes in the chain `chain`
    /// has the first `n` bytes of the chain for its content.
    pub proof fn lemma_recovered_begins<F: RecoveryFactory>(
        &self,
        factory: F,
        min_clusters: usize,
        max_clusters: usize,
        j: int,
        chain: Seq<u32>,
        n: int,
    )
        requires
            self.wf(),
            0 <= j < recovered(
                factory,
                free_clusters(
                    self.fat().entries(),
                    self.store().data(),
                    self.store().spec_cluster_size() as int,
                    self.fat().entries().len() as int,
                ),
                min_clusters,
                max_clusters,
            ).len(),
            chain.len() <= recovered(
                factory,
                free_clusters(
                    self.fat().entries(),
                    self.store().data(),
                    self.store().spec_cluster_size() as int,
                    self.fat().entries().len() as int,
                ),
                min_clusters,
                max_clusters,
            )[j].clusters.len(),
            recovered(
                factory,
                free_clusters(
                    self.fat().entries(),
                    self.store().data(),
                    self.store().spec_cluster_size() as int,
                    self.fat().entries().len() as int,
                ),
                min_clusters,
                max_clusters,
            )[j].clusters.take(chain.len() as int) == chain,
            0 <= n <= chain.len() * self.store().spec_cluster_size(),
        ensures
            ({
                let file = recovered(
                    factory,
                    free_clusters(
                        self.fat().entries(),
                        self.store().data(),
                        self.store().spec_cluster_size() as int,
                        self.fat().entries().len() as int,
                    ),
                    min_clusters,
                    max_clusters,
                )[j];
                &&& n <= file.data.len()
                &&& file.data.take(n) == chain_bytes(
                    self.store().data(),
                    self.store().spec_cluster_size() as int,
                    chain,
                ).take(n)
            }),
    {
        let data = self.store().data();
        let size = self.store().spec_cluster_size() as int;
        let file = recovered(
            factory,
            free_clusters(self.fat().entries(), data, size, self.fat().entries().len() as int),
            min_clusters,
            max_clusters,
        )[j];
        self.lemma_recovered_bytes(factory, min_clusters, max_clusters, j);
        let rest = file.clusters.skip(chain.len() as int);
        assert(file.clusters =~= chain + rest);
        crate::file::lemma_chain_bytes_prefix(data, size, chain, rest);
        let all = chain_bytes(data, size, file.clusters);
        let front = chain_bytes(data, size, chain);
        assert(all.take(chain.len() * size) == front);
        assert(file.data.take(n) =~= front.take(n));
    }
}

} // verus!
