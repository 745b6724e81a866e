//! The allocation table of a mounted volume: its entries, read and written
//! in the volume's encoding, and the cluster chains threaded through them.
use crate::chain::{
    allocated, chain_of, extended, free_count, free_in, free_order, free_scan, is_chain,
    is_cluster, is_path, lemma_chain_bounded, lemma_chain_no_duplicates, lemma_chain_of,
    lemma_free_in_bounded, lemma_free_in_update, lemma_free_order_len, lemma_free_scan,
    lemma_free_scan_grows, lemma_linked_push, lemma_path_meets_chain, lemma_released_start,
    lemma_released_step, lemma_same_when_all_kept, linked, occurs, position, released,
    scan_cluster, scan_start, scan_step, truncated,
};
use crate::entry::{ClusterEntry, FatType, lemma_decode_encode};
use crate::error::Error;
use crate::raw::{
    entry_end, lemma_read_other, lemma_read_written, lemma_write_is_local, raw_at, read_raw,
    with_raw, write_raw,
};
use vstd::prelude::*;
use vstd::slice::slice_to_vec;

verus! {

/// The entries that the table bytes `bytes` hold for a volume of the variant
/// `kind` with `cluster_count` data clusters, indexed by cluster number.
pub open spec fn table_entries(kind: FatType, cluster_count: u32, bytes: Seq<u8>) -> Seq<
    ClusterEntry,
> {
    Seq::new(
        (cluster_count + 2) as nat,
        |c: int| ClusterEntry::spec_decode(kind, cluster_count, raw_at(kind, bytes, c)),
    )
}

/// The number of bytes that a table of the variant `kind` needs for
/// `cluster_count` data clusters.
pub open spec fn table_len(kind: FatType, cluster_count: u32) -> int {
    entry_end(kind, cluster_count + 1)
}

/// The allocation table of a volume, with all its copies.
pub struct FatTable {
    kind: FatType,
    cluster_count: u32,
    copies: Vec<Vec<u8>>,
    free_cache: Option<u32>,
}

impl FatTable {
    /// The variant of the volume.
    pub closed spec fn spec_kind(&self) -> FatType {
        self.kind
    }

    /// The number of data clusters of the volume.
    pub closed spec fn spec_cluster_count(&self) -> u32 {
        self.cluster_count
    }

    /// The bytes of every copy of the table.
    pub closed spec fn copies(&self) -> Seq<Seq<u8>> {
        self.copies@.map_values(|copy: Vec<u8>| copy@)
    }

    /// The bytes of the first copy of the table.
    pub open spec fn bytes(&self) -> Seq<u8> {
        self.copies()[0]
    }

    /// The number of free clusters that the table remembers, if it does.
    pub closed spec fn cached_free(&self) -> Option<u32> {
        self.free_cache
    }

    /// The entries of the table, indexed by cluster number.
    pub open spec fn entries(&self) -> Seq<ClusterEntry> {
        table_entries(self.spec_kind(), self.spec_cluster_count(), self.bytes())
    }

    /// Whether every copy of the table holds the same bytes.
    pub open spec fn copies_agree(&self) -> bool {
        forall|k: int| 0 <= k < self.copies().len() ==> #[trigger] self.copies()[k] == self.bytes()
    }

    /// Whether the table is in order: the volume is not larger than its
    /// variant allows, there is at least one copy, all copies agree and are
    /// long enough, and a remembered free count is the true one.
    pub open spec fn wf(&self) -> bool {
        &&& self.spec_cluster_count() <= self.spec_kind().spec_max_clusters()
        &&& self.copies().len() >= 1
        &&& self.copies_agree()
        &&& table_len(self.spec_kind(), self.spec_cluster_count()) <= self.bytes().len()
        &&& self.cached_free() matches Some(n) ==> n == free_count(self.entries())
    }

    /// The variant of the volume.
    #[verifier::when_used_as_spec(spec_kind)]
    pub fn kind(&self) -> (kind: FatType)
        ensures
            kind == self.spec_kind(),
    {
        self.kind
    }

    /// The number of data clusters of the volume.
    #[verifier::when_used_as_spec(spec_cluster_count)]
    pub fn cluster_count(&self) -> (count: u32)
        ensures
            count == self.spec_cluster_count(),
    {
        self.cluster_count
    }

    /// Reads the entry of a data cluster. The clusters 0 and 1 and those
    /// behind the last data cluster cannot be addressed.
    pub fn read_entry(&self, cluster: u32) -> (result: Result<ClusterEntry, Error>)
        requires
            self.wf(),
        ensures
            is_cluster(self.entries(), cluster as int) ==> result == Ok::<ClusterEntry, Error>(
                self.entries()[cluster as int],
            ),
            !is_cluster(self.entries(), cluster as int) ==> result == Err::<ClusterEntry, Error>(
                Error::InvalidInput,
            ),
    {
        if cluster < 2 || cluster - 2 >= self.cluster_count {
            return Err(Error::InvalidInput);
        }
        assert(self.copies@[0]@ == self.copies()[0]);
        let raw = read_raw(self.kind, self.copies[0].as_slice(), cluster);
        Ok(ClusterEntry::decode(self.kind, self.cluster_count, raw))
    }

    /// The number of bytes that a table of the variant `kind` needs for
    /// `cluster_count` data clusters.
    pub fn required_len(kind: FatType, cluster_count: u32) -> (len: usize)
        requires
            cluster_count <= kind.spec_max_clusters(),
        ensures
            len == table_len(kind, cluster_count),
    {
        let last = cluster_count as usize + 1;
        match kind {
            FatType::Fat12 => last + last / 2 + 2,
            FatType::Fat16 => 2 * last + 2,
            FatType::Fat32 => 4 * last + 4,
        }
    }

    /// Takes up the table of a volume from the bytes of its first copy. The
    /// volume has `fats` copies of the table, which from here on are kept
    /// equal to the first. A geometry that the variant does not allow, a
    /// table too short for its clusters, or a volume without any copy of the
    /// table is a corrupted filesystem.
    pub fn new(kind: FatType, cluster_count: u32, bytes: Vec<u8>, fats: usize) -> (result: Result<
        FatTable,
        Error,
    >)
        ensures
            result is Ok <==> cluster_count <= kind.spec_max_clusters() && fats >= 1 && table_len(
                kind,
                cluster_count,
            ) <= bytes.len(),
            result matches Ok(table) ==> {
                &&& table.wf()
                &&& table.spec_kind() == kind
                &&& table.spec_cluster_count() == cluster_count
                &&& table.copies().len() == fats
                &&& table.bytes() == bytes@
                &&& table.cached_free() is None
            },
            result matches Err(e) ==> e == Error::CorruptedFileSystem,
    {
        if cluster_count > kind.max_clusters() || fats < 1 {
            return Err(Error::CorruptedFileSystem);
        }
        if bytes.len() < Self::required_len(kind, cluster_count) {
            return Err(Error::CorruptedFileSystem);
        }
        Ok(Self::with_copies(kind, cluster_count, bytes, fats))
    }

    /// Takes up the table of a volume whose geometry is known to be in
    /// order.
    pub fn with_copies(kind: FatType, cluster_count: u32, bytes: Vec<u8>, fats: usize) -> (table:
        FatTable)
        requires
            cluster_count <= kind.spec_max_clusters(),
            fats >= 1,
            table_len(kind, cluster_count) <= bytes.len(),
        ensures
            table.wf(),
            table.spec_kind() == kind,
            table.spec_cluster_count() == cluster_count,
            table.copies().len() == fats,
            table.bytes() == bytes@,
            table.cached_free() is None,
    {
        let mut copies: Vec<Vec<u8>> = Vec::new();
        let mut k: usize = 1;
        while k < fats
            invariant
                1 <= k <= fats,
                copies.len() == k - 1,
                forall|j: int| 0 <= j < copies.len() ==> (#[trigger] copies@[j])@ == bytes@,
            decreases fats - k,
        {
            copies.push(slice_to_vec(bytes.as_slice()));
            k += 1;
        }
        copies.push(bytes);
        let table = FatTable { kind, cluster_count, copies, free_cache: None };
        assert(table.copies().len() == fats);
        assert forall|j: int| 0 <= j < table.copies().len() implies #[trigger] table.copies()[j]
            == bytes@ by {
            assert(table.copies()[j] == table.copies@[j]@);
        }
        table
    }

    /// The number of copies of the table.
    pub fn fat_count(&self) -> (fats: usize)
        ensures
            fats == self.copies().len(),
    {
        self.copies.len()
    }

    /// Gives up the table for the bytes of its copies, as they are to be
    /// written back to the volume. Every copy holds the same bytes.
    pub fn into_copies(self) -> (copies: Vec<Vec<u8>>)
        requires
            self.wf(),
        ensures
            copies@.len() == self.copies().len(),
            forall|k: int| 0 <= k < copies@.len() ==> (#[trigger] copies@[k])@ == self.bytes(),
    {
        assert forall|k: int| 0 <= k < self.copies@.len() implies (#[trigger] self.copies@[k])@
            == self.bytes() by {
            assert(self.copies()[k] == self.copies@[k]@);
        }
        self.copies
    }

    /// Writes the entry of a data cluster, in every copy of the table. An
    /// entry that links to something other than a data cluster is refused,
    /// and so is a cluster that cannot be addressed. The remembered free
    /// count is dropped where the write makes a free cluster used or a used
    /// one free.
    pub fn write_entry(&mut self, cluster: u32, entry: ClusterEntry) -> (result: Result<(), Error>)
        requires
            old(self).wf(),
        ensures
            final(self).wf(),
            final(self).spec_kind() == old(self).spec_kind(),
            final(self).spec_cluster_count() == old(self).spec_cluster_count(),
            final(self).copies().len() == old(self).copies().len(),
            final(self).bytes().len() == old(self).bytes().len(),
            result is Ok <==> is_cluster(old(self).entries(), cluster as int) && entry.valid_for(
                old(self).spec_cluster_count(),
            ),
            result is Ok ==> {
                &&& final(self).entries() == old(self).entries().update(cluster as int, entry)
                &&& final(self).bytes() == with_raw(
                    old(self).spec_kind(),
                    old(self).bytes(),
                    cluster as int,
                    entry.spec_encode(old(self).spec_kind()),
                )
                &&& final(self).cached_free() == if (entry == ClusterEntry::Free) == (old(self).entries()[cluster as int]
                    == ClusterEntry::Free) {
                    old(self).cached_free()
                } else {
                    None
                }
            },
            result matches Err(e) ==> e == Error::InvalidInput && *final(self) == *old(self),
    {
        if cluster < 2 || cluster - 2 >= self.cluster_count {
            return Err(Error::InvalidInput);
        }
        match entry {
            ClusterEntry::Used(next) => {
                if next < 2 || next - 2 >= self.cluster_count {
                    return Err(Error::InvalidInput);
                }
            },
            _ => {},
        }
        let ghost before = self.bytes();
        let ghost entries = self.entries();
        assert(self.copies@[0]@ == self.copies()[0]);
        let previous = ClusterEntry::decode(
            self.kind,
            self.cluster_count,
            read_raw(self.kind, self.copies[0].as_slice(), cluster),
        );
        let raw = entry.encode(self.kind);
        proof {
            lemma_decode_encode(self.kind, self.cluster_count, entry);
        }
        let ghost after = with_raw(self.kind, before, cluster as int, raw);
        assert forall|j: int| 0 <= j < self.copies.len() implies (#[trigger] self.copies@[j])@
            == before by {
            assert(self.copies()[j] == self.copies@[j]@);
        }
        let mut k: usize = 0;
        while k < self.copies.len()
            invariant
                k <= self.copies.len(),
                self.copies.len() == old(self).copies.len(),
                self.kind == old(self).kind,
                self.cluster_count == old(self).cluster_count,
                self.free_cache == old(self).free_cache,
                entry_end(self.kind, cluster as int) <= before.len(),
                raw <= self.kind.spec_end_mark(),
                after == with_raw(self.kind, before, cluster as int, raw),
                forall|j: int| 0 <= j < k ==> (#[trigger] self.copies@[j])@ == after,
                forall|j: int| k <= j < self.copies.len() ==> (#[trigger] self.copies@[j])@ == before,
            decreases self.copies.len() - k,
        {
            write_raw(self.kind, &mut self.copies[k], cluster, raw);
            k += 1;
        }
        if (previous == ClusterEntry::Free) != (entry == ClusterEntry::Free) {
            self.free_cache = None;
        }
        proof {
            assert forall|j: int| 0 <= j < self.copies().len() implies #[trigger] self.copies()[j]
                == after by {
                assert(self.copies()[j] == self.copies@[j]@);
            }
            lemma_write_is_local(self.kind, before, cluster as int, raw, 0);
            lemma_entries_after_write(self.kind, self.cluster_count, before, cluster, entry);
            lemma_free_in_update(entries, 2, entries.len() as int, cluster as int, entry);
        }
        Ok(())
    }

    /// Follows the chain that starts at `start` and gives back its clusters
    /// in order. A chain that leaves the data clusters, runs into a free, bad
    /// or reserved entry, or never ends is a corrupted filesystem.
    pub fn follow_chain(&self, start: u32) -> (result: Result<Vec<u32>, Error>)
        requires
            self.wf(),
        ensures
            result matches Ok(chain) ==> chain_of(self.entries(), start) == Some(chain@)
                && is_chain(self.entries(), start, chain@) && chain@.no_duplicates(),
            result matches Err(e) ==> e == Error::CorruptedFileSystem && chain_of(
                self.entries(),
                start,
            ) is None,
    {
        let ghost entries = self.entries();
        let mut chain: Vec<u32> = Vec::new();
        let mut current = start;
        loop
            invariant
                self.wf(),
                entries == self.entries(),
                chain@.len() <= self.cluster_count,
                is_path(entries, chain@),
                chain@.len() == 0 ==> current == start,
                chain@.len() > 0 ==> chain@[0] == start && entries[chain@.last() as int]
                    == ClusterEntry::Used(current),
            decreases self.cluster_count - chain@.len(),
        {
            if current < 2 || current - 2 >= self.cluster_count {
                proof {
                    assert forall|s: Seq<u32>| !is_chain(entries, start, s) by {
                        if is_chain(entries, start, s) {
                            if chain@.len() == 0 {
                                assert(is_cluster(entries, s[0] as int));
                            } else {
                                lemma_path_meets_chain(entries, chain@, s);
                            }
                        }
                    }
                }
                return Err(Error::CorruptedFileSystem);
            }
            let ghost path = chain@.push(current);
            proof {
                assert(is_path(entries, path)) by {
                    assert forall|i: int| 0 <= i < path.len() implies is_cluster(
                        entries,
                        #[trigger] path[i] as int,
                    ) by {
                        if i < chain@.len() {
                            assert(path[i] == chain@[i]);
                        }
                    }
                    assert forall|i: int| 0 <= i < path.len() - 1 implies entries[#[trigger] path[i] as int]
                        == ClusterEntry::Used(path[i + 1]) by {
                        assert(path[i] == chain@[i]);
                        if i + 1 < chain@.len() {
                            assert(path[i + 1] == chain@[i + 1]);
                        }
                    }
                }
                assert(path[0] == start);
            }
            if chain.len() >= self.cluster_count as usize {
                proof {
                    assert forall|s: Seq<u32>| !is_chain(entries, start, s) by {
                        if is_chain(entries, start, s) {
                            lemma_chain_bounded(entries, start, s);
                            lemma_path_meets_chain(entries, path, s);
                        }
                    }
                }
                return Err(Error::CorruptedFileSystem);
            }
            chain.push(current);
            assert(chain@ == path);
            match self.read_entry(current) {
                Ok(ClusterEntry::Used(next)) => {
                    current = next;
                },
                Ok(ClusterEntry::EndOfChain) => {
                    proof {
                        lemma_chain_of(entries, start, chain@);
                        lemma_chain_no_duplicates(entries, start, chain@);
                    }
                    return Ok(chain);
                },
                _ => {
                    proof {
                        assert forall|s: Seq<u32>| !is_chain(entries, start, s) by {
                            if is_chain(entries, start, s) {
                                lemma_path_meets_chain(entries, path, s);
                            }
                        }
                    }
                    return Err(Error::CorruptedFileSystem);
                },
            }
        }
    }

    /// Counts the free clusters of the table. The first call scans the
    /// table; the count is then remembered until a write makes a free cluster
    /// used or a used one free.
    pub fn count_free(&mut self) -> (free: u32)
        requires
            old(self).wf(),
        ensures
            free == free_count(old(self).entries()),
            final(self).wf(),
            final(self).spec_kind() == old(self).spec_kind(),
            final(self).spec_cluster_count() == old(self).spec_cluster_count(),
            final(self).copies() == old(self).copies(),
            final(self).cached_free() == Some(free),
    {
        match self.free_cache {
            Some(free) => free,
            None => {
                let free = self.scan_free();
                self.free_cache = Some(free);
                free
            },
        }
    }

    fn scan_free(&self) -> (free: u32)
        requires
            self.wf(),
        ensures
            free == free_count(self.entries()),
    {
        let end = self.cluster_count + 2;
        let mut free: u32 = 0;
        let mut cluster: u32 = 2;
        while cluster < end
            invariant
                self.wf(),
                end == self.cluster_count + 2,
                2 <= cluster <= end,
                free == free_in(self.entries(), 2, cluster as int),
                free <= cluster - 2,
            decreases end - cluster,
        {
            match self.read_entry(cluster) {
                Ok(ClusterEntry::Free) => {
                    free += 1;
                },
                _ => {},
            }
            cluster += 1;
        }
        free
    }
}

impl FatTable {
    /// Allocates a chain and gives back its first and its last cluster.
    fn allocate(&mut self, len: u32, hint: u32) -> (result: Result<(u32, u32), Error>)
        requires
            old(self).wf(),
        ensures
            final(self).wf(),
            final(self).spec_kind() == old(self).spec_kind(),
            final(self).spec_cluster_count() == old(self).spec_cluster_count(),
            final(self).copies().len() == old(self).copies().len(),
            final(self).bytes().len() == old(self).bytes().len(),
            len == 0 ==> result == Err::<(u32, u32), Error>(Error::InvalidInput),
            len > 0 && free_count(old(self).entries()) < len ==> result == Err::<(u32, u32), Error>(
                Error::NotEnoughSpace,
            ),
            result is Err ==> final(self).copies() == old(self).copies(),
            len > 0 && free_count(old(self).entries()) >= len ==> result == Ok::<(u32, u32), Error>(
                (
                    free_order(old(self).entries(), hint)[0],
                    free_order(old(self).entries(), hint)[len - 1],
                ),
            ) && final(self).entries() == allocated(old(self).entries(), hint, len as int),
    {
        if len == 0 {
            return Err(Error::InvalidInput);
        }
        let free = self.count_free();
        if free < len {
            return Err(Error::NotEnoughSpace);
        }
        let count = self.cluster_count;
        let ghost before = self.entries();
        let start: u32 = if 2 <= hint && hint - 2 < count {
            hint
        } else {
            2
        };
        proof {
            lemma_free_in_bounded(before, 2, before.len() as int);
            lemma_free_order_len(before, hint);
            assert(linked(before, free_scan(before, start as int, 0)) =~= before);
        }
        let mut k: u32 = 0;
        let mut got: u32 = 0;
        let mut head: u32 = 0;
        let mut tail: u32 = 0;
        while got < len
            invariant
                self.wf(),
                self.spec_kind() == old(self).spec_kind(),
                self.spec_cluster_count() == old(self).spec_cluster_count(),
                self.copies().len() == old(self).copies().len(),
                self.bytes().len() == old(self).bytes().len(),
                count == self.cluster_count,
                before.len() == count + 2,
                start == scan_start(before, hint),
                is_cluster(before, start as int),
                k <= count,
                got <= len,
                len <= free_order(before, hint).len(),
                got == free_scan(before, start as int, k as int).len(),
                self.entries() == linked(before, free_scan(before, start as int, k as int)),
                got > 0 ==> head == free_scan(before, start as int, k as int)[0] && tail
                    == free_scan(before, start as int, k as int).last(),
            decreases count - k,
        {
            let ghost found = free_scan(before, start as int, k as int);
            proof {
                lemma_free_scan_grows(before, start as int, k as int, count as int);
                lemma_free_scan(before, start as int, k as int);
            }
            let offset = start - 2 + k;
            let cluster = if offset < count {
                offset + 2
            } else {
                offset - count + 2
            };
            assert(cluster == scan_cluster(before, start as int, k as int));
            assert(!occurs(found, cluster as int)) by {
                if occurs(found, cluster as int) {
                    let i = position(found, cluster as int);
                    assert(scan_step(before, start as int, found[i] as int) < k);
                }
            }
            match self.read_entry(cluster) {
                Ok(ClusterEntry::Free) => {
                    let ended = self.write_entry(cluster, ClusterEntry::EndOfChain);
                    assert(ended is Ok);
                    if got > 0 {
                        assert(is_cluster(before, found.last() as int));
                        let spliced = self.write_entry(tail, ClusterEntry::Used(cluster));
                        assert(spliced is Ok);
                    } else {
                        head = cluster;
                    }
                    proof {
                        assert forall|i: int| 0 <= i < found.len() implies 0 <= #[trigger] found[i]
                            < before.len() by {
                            assert(is_cluster(before, found[i] as int));
                        }
                        lemma_linked_push(before, found, cluster);
                        assert(found.push(cluster)[0] == head);
                    }
                    tail = cluster;
                    got += 1;
                },
                _ => {},
            }
            k += 1;
        }
        proof {
            lemma_free_scan_grows(before, start as int, k as int, count as int);
            let found = free_scan(before, start as int, k as int);
            assert(found == free_order(before, hint).take(len as int));
            assert(found[0] == free_order(before, hint)[0]);
            assert(found[len - 1] == free_order(before, hint)[len - 1]);
        }
        Ok((head, tail))
    }

    /// Allocates a chain of exactly `len` clusters and gives back its first
    /// cluster. The scan for free clusters starts at `hint`, or at cluster 2
    /// where `hint` is no data cluster, goes forward and wraps around at the
    /// end of the table; the free clusters are taken, and linked, in the
    /// order in which the scan comes by them. Where the table has fewer than
    /// `len` free clusters nothing is written.
    pub fn allocate_chain(&mut self, len: u32, hint: u32) -> (result: Result<u32, Error>)
        requires
            old(self).wf(),
        ensures
            final(self).wf(),
            final(self).spec_kind() == old(self).spec_kind(),
            final(self).spec_cluster_count() == old(self).spec_cluster_count(),
            final(self).copies().len() == old(self).copies().len(),
            final(self).bytes().len() == old(self).bytes().len(),
            len == 0 ==> result == Err::<u32, Error>(Error::InvalidInput),
            len > 0 && free_count(old(self).entries()) < len ==> result == Err::<u32, Error>(
                Error::NotEnoughSpace,
            ),
            result is Err ==> final(self).copies() == old(self).copies(),
            len > 0 && free_count(old(self).entries()) >= len ==> result == Ok::<u32, Error>(
                free_order(old(self).entries(), hint)[0],
            ) && final(self).entries() == allocated(old(self).entries(), hint, len as int),
    {
        match self.allocate(len, hint) {
            Ok((head, _)) => Ok(head),
            Err(e) => Err(e),
        }
    }

    /// Allocates `len` new clusters and splices them behind `last`, the last
    /// cluster of a chain; gives back the new last cluster. The scan for free
    /// clusters starts behind `last`. With `len == 0` nothing is written and
    /// `last` comes back. A `last` that is not the end of a chain is refused.
    pub fn extend_chain(&mut self, last: u32, len: u32) -> (result: Result<u32, Error>)
        requires
            old(self).wf(),
        ensures
            final(self).wf(),
            final(self).spec_kind() == old(self).spec_kind(),
            final(self).spec_cluster_count() == old(self).spec_cluster_count(),
            final(self).copies().len() == old(self).copies().len(),
            final(self).bytes().len() == old(self).bytes().len(),
            !(is_cluster(old(self).entries(), last as int) && old(self).entries()[last as int]
                == ClusterEntry::EndOfChain) ==> result == Err::<u32, Error>(Error::InvalidInput),
            is_cluster(old(self).entries(), last as int) && old(self).entries()[last as int]
                == ClusterEntry::EndOfChain ==> {
                &&& len == 0 ==> result == Ok::<u32, Error>(last)
                &&& len > 0 && free_count(old(self).entries()) < len ==> result == Err::<u32, Error>(
                    Error::NotEnoughSpace,
                )
                &&& len > 0 && free_count(old(self).entries()) >= len ==> result == Ok::<u32, Error>(
                    free_order(old(self).entries(), (last + 1) as u32)[len - 1],
                ) && final(self).entries() == extended(old(self).entries(), last, len as int)
            },
            result is Err || len == 0 ==> final(self).copies() == old(self).copies(),
    {
        match self.read_entry(last) {
            Ok(ClusterEntry::EndOfChain) => {},
            _ => {
                return Err(Error::InvalidInput);
            },
        }
        if len == 0 {
            return Ok(last);
        }
        match self.allocate(len, last + 1) {
            Ok((head, tail)) => {
                proof {
                    let before = old(self).entries();
                    lemma_free_order_len(before, (last + 1) as u32);
                    lemma_free_scan(before, scan_start(before, (last + 1) as u32), before.len() - 2);
                    assert(is_cluster(before, head as int));
                }
                let spliced = self.write_entry(last, ClusterEntry::Used(head));
                assert(spliced is Ok);
                Ok(tail)
            },
            Err(e) => Err(e),
        }
    }

    /// Cuts the chain that starts at `start` down to its first `keep_len`
    /// clusters: the clusters behind them become free, and the last one kept
    /// becomes the end of the chain. With `keep_len == 0` the whole chain
    /// becomes free. Gives back the number of clusters freed; a chain that
    /// has no more than `keep_len` clusters stays as it is. A `start` without
    /// a chain is a corrupted filesystem.
    pub fn truncate_chain(&mut self, start: u32, keep_len: u32) -> (result: Result<u32, Error>)
        requires
            old(self).wf(),
        ensures
            final(self).wf(),
            final(self).spec_kind() == old(self).spec_kind(),
            final(self).spec_cluster_count() == old(self).spec_cluster_count(),
            final(self).copies().len() == old(self).copies().len(),
            final(self).bytes().len() == old(self).bytes().len(),
            chain_of(old(self).entries(), start) is None ==> result == Err::<u32, Error>(
                Error::CorruptedFileSystem,
            ) && final(self).copies() == old(self).copies(),
            chain_of(old(self).entries(), start) matches Some(chain) ==> {
                &&& final(self).entries() == truncated(old(self).entries(), chain, keep_len as int)
                &&& chain.len() <= keep_len ==> result == Ok::<u32, Error>(0) && final(self).copies()
                    == old(self).copies()
                &&& chain.len() > keep_len ==> result == Ok::<u32, Error>(
                    (chain.len() - keep_len) as u32,
                )
            },
    {
        let chain = match self.follow_chain(start) {
            Ok(chain) => chain,
            Err(e) => {
                return Err(e);
            },
        };
        let ghost before = self.entries();
        let total = chain.len();
        let keep = keep_len as usize;
        proof {
            lemma_chain_bounded(before, start, chain@);
            assert forall|i: int| 0 <= i < chain@.len() implies 0 <= #[trigger] chain@[i]
                < before.len() by {
                assert(is_cluster(before, chain@[i] as int));
            }
        }
        if keep >= total {
            proof {
                lemma_same_when_all_kept(before, start, chain@, keep_len as int);
            }
            return Ok(0);
        }
        proof {
            lemma_released_start(before, chain@, keep as int);
        }
        if keep > 0 {
            assert(is_cluster(before, chain@[keep - 1] as int));
            let ended = self.write_entry(chain[keep - 1], ClusterEntry::EndOfChain);
            assert(ended is Ok);
        }
        let mut j: usize = keep;
        while j < total
            invariant
                self.wf(),
                self.spec_kind() == old(self).spec_kind(),
                self.spec_cluster_count() == old(self).spec_cluster_count(),
                self.copies().len() == old(self).copies().len(),
                self.bytes().len() == old(self).bytes().len(),
                total == chain@.len(),
                keep <= j <= total,
                chain@.no_duplicates(),
                forall|i: int| 0 <= i < chain@.len() ==> is_cluster(before, #[trigger] chain@[i] as int),
                before.len() == self.spec_cluster_count() + 2,
                self.entries() == released(before, chain@, keep as int, j as int),
            decreases total - j,
        {
            proof {
                assert(is_cluster(before, chain@[j as int] as int));
                assert forall|i: int| 0 <= i < chain@.len() implies 0 <= #[trigger] chain@[i]
                    < before.len() by {
                    assert(is_cluster(before, chain@[i] as int));
                }
                lemma_released_step(before, chain@, keep as int, j as int);
            }
            let freed = self.write_entry(chain[j], ClusterEntry::Free);
            assert(freed is Ok);
            j += 1;
        }
        Ok((total - keep) as u32)
    }
}

/// The entries after a write are those before it with the written entry in
/// its place.
pub proof fn lemma_entries_after_write(
    kind: FatType,
    cluster_count: u32,
    bytes: Seq<u8>,
    cluster: u32,
    entry: ClusterEntry,
)
    requires
        cluster_count <= kind.spec_max_clusters(),
        table_len(kind, cluster_count) <= bytes.len(),
        2 <= cluster,
        cluster - 2 < cluster_count,
        entry.valid_for(cluster_count),
    ensures
        table_entries(
            kind,
            cluster_count,
            with_raw(kind, bytes, cluster as int, entry.spec_encode(kind)),
        ) == table_entries(kind, cluster_count, bytes).update(cluster as int, entry),
{
    let raw = entry.spec_encode(kind);
    lemma_decode_encode(kind, cluster_count, entry);
    let after = table_entries(kind, cluster_count, with_raw(kind, bytes, cluster as int, raw));
    let expected = table_entries(kind, cluster_count, bytes).update(cluster as int, entry);
    assert forall|c: int| 0 <= c < after.len() implies after[c] == expected[c] by {
        if c == cluster {
            lemma_read_written(kind, bytes, cluster as int, raw);
        } else {
            lemma_read_other(kind, bytes, cluster as int, raw, c);
        }
    }
    assert(after =~= expected);
}

} // verus!
