//! The file stream: a read/write cursor on the bytes of a cluster chain.
//!
//! A file is its first cluster and its size in bytes. Its bytes are those of
//! the clusters of its chain, in order, up to the size; what the last cluster
//! holds behind the size is not part of the file. A file without clusters has
//! the first cluster 0 and the size 0.
use crate::chain::{
    allocated, chain_of, extended, free_count, free_order, is_chain, is_cluster,
    lemma_allocated_chain, lemma_extended_chain, lemma_truncated_chain, truncated,
};
use crate::entry::ClusterEntry;
use crate::error::Error;
use crate::store::{chain_bytes, ClusterStore, lemma_address_injective, lemma_slot, offset_of};
use crate::table::FatTable;
use vstd::prelude::*;

verus! {

/// The chain of a file with the first cluster `first`: none for 0.
pub open spec fn file_chain(entries: Seq<ClusterEntry>, first: u32) -> Option<Seq<u32>> {
    if first == 0 {
        Some(Seq::empty())
    } else {
        chain_of(entries, first)
    }
}

/// The bytes of the file with the first cluster `first` and the size `size`,
/// where its chain is in order and long enough for its size.
pub open spec fn file_bytes(
    entries: Seq<ClusterEntry>,
    data: Seq<u8>,
    cluster_size: int,
    first: u32,
    size: int,
) -> Option<Seq<u8>> {
    match file_chain(entries, first) {
        Some(chain) => if size <= chain.len() * cluster_size {
            Some(chain_bytes(data, cluster_size, chain).take(size))
        } else {
            None
        },
        None => None,
    }
}

/// The bytes of a file after `bytes` have been written at `at`: they stand
/// where they were written, the bytes before and behind them are as they
/// were, and where the write began behind the end, zeros fill the gap.
pub open spec fn overlaid(content: Seq<u8>, at: int, bytes: Seq<u8>) -> Seq<u8> {
    Seq::new(
        (if content.len() >= at + bytes.len() {
            content.len() as int
        } else {
            at + bytes.len()
        }) as nat,
        |i: int|
            if at <= i < at + bytes.len() {
                bytes[i - at]
            } else if i < content.len() {
                content[i]
            } else {
                0u8
            },
    )
}

/// A write of `bytes` at the offset `at` into a file of the size
/// `content.len()` makes a file of the greater of the old size and
/// `at + bytes.len()`; a read of as many bytes at `at` gives back `bytes`;
/// the bytes from the old size up to `at`, where `at` lies behind it, are zero.
pub proof fn lemma_read_after_write(content: Seq<u8>, at: int, bytes: Seq<u8>)
    requires
        0 <= at,
    ensures
        overlaid(content, at, bytes).len() == if content.len() >= at + bytes.len() {
            content.len() as int
        } else {
            at + bytes.len()
        },
        overlaid(content, at, bytes).subrange(at, at + bytes.len()) == bytes,
        forall|i: int| content.len() <= i < at ==> #[trigger] overlaid(content, at, bytes)[i] == 0,
        forall|i: int|
            0 <= i < content.len() && !(at <= i < at + bytes.len()) ==> #[trigger] overlaid(
                content,
                at,
                bytes,
            )[i] == content[i],
{
    assert(overlaid(content, at, bytes).subrange(at, at + bytes.len()) =~= bytes);
}

/// Whether the clusters of `chain` are distinct data clusters of a store
/// with `clusters` clusters.
pub open spec fn chain_fits(chain: Seq<u32>, clusters: int) -> bool {
    &&& chain.no_duplicates()
    &&& forall|i: int| 0 <= i < chain.len() ==> 2 <= #[trigger] chain[i] < clusters + 2
}

/// Where the byte `at` of a chain lies in the data region.
pub open spec fn address(cluster_size: int, chain: Seq<u32>, at: int) -> int {
    offset_of(cluster_size, chain[at / cluster_size] as int) + at % cluster_size
}

/// Writing one byte of the data region changes one byte of a chain's bytes.
pub proof fn lemma_chain_bytes_update(
    data: Seq<u8>,
    cluster_size: int,
    clusters: int,
    chain: Seq<u32>,
    at: int,
    byte: u8,
)
    requires
        cluster_size > 0,
        data.len() == clusters * cluster_size,
        chain_fits(chain, clusters),
        0 <= at < chain.len() * cluster_size,
    ensures
        0 <= address(cluster_size, chain, at) < data.len(),
        chain_bytes(data.update(address(cluster_size, chain, at), byte), cluster_size, chain)
            == chain_bytes(data, cluster_size, chain).update(at, byte),
{
    let target = address(cluster_size, chain, at);
    lemma_slot(cluster_size, chain.len() as int, at);
    crate::store::lemma_address(
        cluster_size,
        clusters,
        chain[at / cluster_size] as int,
        at % cluster_size,
    );
    let after = chain_bytes(data.update(target, byte), cluster_size, chain);
    let expected = chain_bytes(data, cluster_size, chain).update(at, byte);
    assert forall|i: int| 0 <= i < after.len() implies after[i] == expected[i] by {
        lemma_slot(cluster_size, chain.len() as int, i);
        crate::store::lemma_address(
            cluster_size,
            clusters,
            chain[i / cluster_size] as int,
            i % cluster_size,
        );
        if i != at && address(cluster_size, chain, i) == target {
            lemma_address_injective(
                cluster_size,
                chain[i / cluster_size] as int,
                i % cluster_size,
                chain[at / cluster_size] as int,
                at % cluster_size,
            );
        }
    }
    assert(after =~= expected);
}

/// The bytes of a chain are the beginning of the bytes of every longer chain
/// that begins with it.
pub proof fn lemma_chain_bytes_prefix(
    data: Seq<u8>,
    cluster_size: int,
    chain: Seq<u32>,
    more: Seq<u32>,
)
    requires
        cluster_size > 0,
    ensures
        chain_bytes(data, cluster_size, chain + more).len() >= chain.len() * cluster_size,
        chain_bytes(data, cluster_size, chain + more).take(chain.len() * cluster_size)
            == chain_bytes(data, cluster_size, chain),
{
    let long = chain_bytes(data, cluster_size, chain + more);
    let short = chain_bytes(data, cluster_size, chain);
    assert((chain.len() + more.len()) * cluster_size == chain.len() * cluster_size + more.len()
        * cluster_size) by (nonlinear_arith);
    assert(more.len() * cluster_size >= 0) by (nonlinear_arith)
        requires
            cluster_size > 0,
            more.len() >= 0,
    ;
    assert(chain.len() * cluster_size >= 0) by (nonlinear_arith)
        requires
            cluster_size > 0,
            chain.len() >= 0,
    ;
    assert forall|i: int| 0 <= i < short.len() implies long[i] == short[i] by {
        lemma_slot(cluster_size, chain.len() as int, i);
        assert((chain + more)[i / cluster_size] == chain[i / cluster_size]);
    }
    assert(long.take(chain.len() * cluster_size) =~= short);
}

/// The table after the chain of a file with the first cluster `first` has
/// grown by `missing` clusters: a file without clusters gets a new chain,
/// for which the scan begins at cluster 2; any other has its chain
/// extended. Where no cluster is missing the table is as it was.
pub open spec fn grown_table(entries: Seq<ClusterEntry>, first: u32, missing: int) -> Seq<
    ClusterEntry,
> {
    if missing <= 0 {
        entries
    } else if first == 0 {
        allocated(entries, 2, missing)
    } else {
        extended(entries, chain_of(entries, first).unwrap().last(), missing)
    }
}

/// The first cluster of a file after its chain has grown by `missing`
/// clusters: a file without clusters gets the first cluster of its new
/// chain.
pub open spec fn grown_first(entries: Seq<ClusterEntry>, first: u32, missing: int) -> u32 {
    if missing > 0 && first == 0 {
        free_order(entries, 2)[0]
    } else {
        first
    }
}

/// Whether the table and the data region belong to one volume and are in
/// order.
pub open spec fn attached(fat: &FatTable, store: &ClusterStore) -> bool {
    &&& fat.wf()
    &&& store.wf()
    &&& store.spec_clusters() == fat.spec_cluster_count()
}

/// The number of clusters that a file of `size` bytes needs.
pub open spec fn clusters_for(size: int, cluster_size: int) -> int {
    size / cluster_size + if size % cluster_size != 0 {
        1int
    } else {
        0int
    }
}

/// The clusters that a file needs hold its bytes, and one cluster less
/// would not.
pub proof fn lemma_clusters_for(size: int, cluster_size: int)
    requires
        0 <= size,
        0 < cluster_size,
    ensures
        0 <= clusters_for(size, cluster_size) <= size,
        size <= clusters_for(size, cluster_size) * cluster_size < size + cluster_size,
        size > 0 ==> clusters_for(size, cluster_size) >= 1,
{
    vstd::arithmetic::div_mod::lemma_fundamental_div_mod(size, cluster_size);
    vstd::arithmetic::div_mod::lemma_mod_bound(size, cluster_size);
    let q = size / cluster_size;
    assert(q * cluster_size == cluster_size * q) by (nonlinear_arith);
    assert((q + 1) * cluster_size == cluster_size * q + cluster_size) by (nonlinear_arith);
    let r = size % cluster_size;
    assert(0 <= q && q <= cluster_size * q) by (nonlinear_arith)
        requires
            size >= 0,
            cluster_size >= 1,
            size == cluster_size * q + r,
            0 <= r < cluster_size,
    ;
    if q == 0 {
        assert(cluster_size * q == 0) by (nonlinear_arith)
            requires
                q == 0,
        ;
    }
}

/// An open file: a cursor on the bytes of a cluster chain.
#[derive(Debug, PartialEq, Eq, Clone, Copy, Structural)]
pub struct File {
    first_cluster: u32,
    size: u32,
    position: u32,
    dirty: bool,
}

impl File {
    /// The first cluster of the file, 0 where it has none.
    pub closed spec fn spec_first_cluster(&self) -> u32 {
        self.first_cluster
    }

    /// The size of the file in bytes.
    pub closed spec fn spec_size(&self) -> u32 {
        self.size
    }

    /// The offset at which the next read or write begins.
    pub closed spec fn spec_position(&self) -> u32 {
        self.position
    }

    /// Whether the file has been written since it was opened or flushed.
    pub closed spec fn spec_is_dirty(&self) -> bool {
        self.dirty
    }

    /// The bytes of the file on the volume, where its chain is in order.
    pub open spec fn content(&self, fat: &FatTable, store: &ClusterStore) -> Option<Seq<u8>> {
        file_bytes(
            fat.entries(),
            store.data(),
            store.spec_cluster_size() as int,
            self.spec_first_cluster(),
            self.spec_size() as int,
        )
    }

    /// Opens the file with the given first cluster and size, at offset 0.
    pub fn open(first_cluster: u32, size: u32) -> (file: File)
        ensures
            file.spec_first_cluster() == first_cluster,
            file.spec_size() == size,
            file.spec_position() == 0,
            !file.spec_is_dirty(),
    {
        File { first_cluster, size, position: 0, dirty: false }
    }

    /// The first cluster of the file, 0 where it has none.
    #[verifier::when_used_as_spec(spec_first_cluster)]
    pub fn first_cluster(&self) -> (first: u32)
        ensures
            first == self.spec_first_cluster(),
    {
        self.first_cluster
    }

    /// The size of the file in bytes.
    #[verifier::when_used_as_spec(spec_size)]
    pub fn size(&self) -> (size: u32)
        ensures
            size == self.spec_size(),
    {
        self.size
    }

    /// The offset at which the next read or write begins.
    #[verifier::when_used_as_spec(spec_position)]
    pub fn position(&self) -> (position: u32)
        ensures
            position == self.spec_position(),
    {
        self.position
    }

    /// Whether the file has been written since it was opened or flushed.
    #[verifier::when_used_as_spec(spec_is_dirty)]
    pub fn is_dirty(&self) -> (dirty: bool)
        ensures
            dirty == self.spec_is_dirty(),
    {
        self.dirty
    }

    /// The chain of the file, checked against its size.
    fn chain(&self, fat: &FatTable, store: &ClusterStore) -> (result: Result<Vec<u32>, Error>)
        requires
            attached(fat, store),
        ensures
            result is Ok <==> self.content(fat, store) is Some,
            result matches Ok(chain) ==> {
                &&& file_chain(fat.entries(), self.first_cluster) == Some(chain@)
                &&& self.size <= chain@.len() * store.spec_cluster_size()
                &&& chain_fits(chain@, store.spec_clusters() as int)
                &&& chain@.len() <= store.spec_clusters()
                &&& self.first_cluster != 0 ==> is_chain(fat.entries(), self.first_cluster, chain@)
                &&& self.first_cluster == 0 ==> chain@.len() == 0
            },
            result matches Err(e) ==> e == Error::CorruptedFileSystem,
    {
        let chain = if self.first_cluster == 0 {
            Vec::new()
        } else {
            match fat.follow_chain(self.first_cluster) {
                Ok(chain) => chain,
                Err(e) => {
                    return Err(e);
                },
            }
        };
        let cluster_size = store.cluster_size();
        proof {
            if self.first_cluster != 0 {
                crate::chain::lemma_chain_bounded(fat.entries(), self.first_cluster, chain@);
                assert forall|i: int| 0 <= i < chain@.len() implies 2 <= #[trigger] chain@[i]
                    < store.spec_clusters() + 2 by {
                    assert(is_cluster(fat.entries(), chain@[i] as int));
                }
            }
            assert(chain@.len() * cluster_size <= store.spec_clusters() * cluster_size)
                by (nonlinear_arith)
                requires
                    chain@.len() <= store.spec_clusters(),
                    cluster_size > 0,
            ;
            assert(chain@.len() * cluster_size >= 0) by (nonlinear_arith)
                requires
                    chain@.len() >= 0,
                    cluster_size > 0,
            ;
            assert(store.data().len() <= usize::MAX) by {
                store.lemma_fits();
            }
        }
        if self.size as usize > chain.len() * cluster_size {
            return Err(Error::CorruptedFileSystem);
        }
        Ok(chain)
    }

    /// Where a read of `len` bytes ends: at the end of the file at the latest.
    pub open spec fn read_end(&self, len: usize) -> int {
        if self.spec_position() >= self.spec_size() {
            self.spec_position() as int
        } else if len >= self.spec_size() - self.spec_position() {
            self.spec_size() as int
        } else {
            self.spec_position() + len
        }
    }

    /// Reads up to `len` bytes at the current offset and moves the offset
    /// behind them. The read ends at the end of the file: at or behind it,
    /// nothing is read. A file whose chain is broken, or too short for its
    /// size, is a corrupted filesystem.
    pub fn read(&mut self, fat: &FatTable, store: &ClusterStore, len: usize) -> (result: Result<
        Vec<u8>,
        Error,
    >)
        requires
            attached(fat, store),
        ensures
            old(self).content(fat, store) matches Some(content) ==> {
                &&& result matches Ok(bytes) && bytes@ == if old(self).spec_position() >= old(self).spec_size() {
                    Seq::<u8>::empty()
                } else {
                    content.subrange(old(self).spec_position() as int, old(self).read_end(len))
                }
                &&& final(self).spec_position() == old(self).read_end(len)
            },
            old(self).content(fat, store) is None ==> result == Err::<Vec<u8>, Error>(
                Error::CorruptedFileSystem,
            ) && final(self).spec_position() == old(self).spec_position(),
            final(self).spec_first_cluster() == old(self).spec_first_cluster(),
            final(self).spec_size() == old(self).spec_size(),
            final(self).spec_is_dirty() == old(self).spec_is_dirty(),
    {
        let chain = match self.chain(fat, store) {
            Ok(chain) => chain,
            Err(e) => {
                return Err(e);
            },
        };
        let mut out: Vec<u8> = Vec::new();
        if self.position >= self.size {
            return Ok(out);
        }
        let cluster_size = store.cluster_size();
        let start = self.position as usize;
        let stop = if len >= (self.size - self.position) as usize {
            self.size as usize
        } else {
            start + len
        };
        let ghost all = chain_bytes(store.data(), cluster_size as int, chain@);
        let mut at = start;
        while at < stop
            invariant
                attached(fat, store),
                cluster_size == store.spec_cluster_size(),
                start <= at <= stop <= self.size,
                self.size <= chain@.len() * cluster_size,
                chain_fits(chain@, store.spec_clusters() as int),
                all == chain_bytes(store.data(), cluster_size as int, chain@),
                out@ == all.subrange(start as int, at as int),
            decreases stop - at,
        {
            proof {
                lemma_slot(cluster_size as int, chain@.len() as int, at as int);
            }
            let byte = store.get(chain[at / cluster_size], at % cluster_size);
            out.push(byte);
            assert(out@ =~= all.subrange(start as int, at + 1));
            at += 1;
        }
        assert(out@ =~= all.take(self.size as int).subrange(start as int, stop as int));
        self.position = stop as u32;
        Ok(out)
    }
}

/// The bytes `base` with zeros from `from` up to, not including, `to`.
pub open spec fn zeroed(base: Seq<u8>, from: int, to: int) -> Seq<u8> {
    Seq::new(
        base.len(),
        |i: int|
            if from <= i < to {
                0u8
            } else {
                base[i]
            },
    )
}

/// The bytes `base` with the first `n` bytes of `bytes` written at `at`.
pub open spec fn stamped(base: Seq<u8>, at: int, bytes: Seq<u8>, n: int) -> Seq<u8> {
    Seq::new(
        base.len(),
        |i: int|
            if at <= i < at + n {
                bytes[i - at]
            } else {
                base[i]
            },
    )
}

/// Whether the byte `x` of the data region lies in one of the clusters of
/// `chain`.
pub open spec fn within_chain(chain: Seq<u32>, cluster_size: int, x: int) -> bool {
    exists|k: int|
        0 <= k < chain.len() && offset_of(cluster_size, #[trigger] chain[k] as int) <= x
            < offset_of(cluster_size, chain[k] as int) + cluster_size
}

/// The bytes of a chain depend only on the bytes of its clusters.
pub proof fn lemma_chain_bytes_frame(
    before: Seq<u8>,
    after: Seq<u8>,
    cluster_size: int,
    chain: Seq<u32>,
)
    requires
        cluster_size > 0,
        forall|x: int| within_chain(chain, cluster_size, x) ==> after[x] == before[x],
    ensures
        chain_bytes(after, cluster_size, chain) == chain_bytes(before, cluster_size, chain),
{
    assert forall|i: int| 0 <= i < chain.len() * cluster_size implies chain_bytes(
        after,
        cluster_size,
        chain,
    )[i] == chain_bytes(before, cluster_size, chain)[i] by {
        lemma_slot(cluster_size, chain.len() as int, i);
        let k = i / cluster_size;
        let x = address(cluster_size, chain, i);
        assert(offset_of(cluster_size, chain[k] as int) <= x < offset_of(
            cluster_size,
            chain[k] as int,
        ) + cluster_size);
        assert(within_chain(chain, cluster_size, x));
    }
    assert(chain_bytes(after, cluster_size, chain) =~= chain_bytes(before, cluster_size, chain));
}

/// The bytes of a chain with one more cluster are the bytes of the chain
/// followed by those of the cluster.
pub proof fn lemma_chain_bytes_push(data: Seq<u8>, cluster_size: int, chain: Seq<u32>, cluster: u32)
    requires
        cluster_size > 0,
        0 <= offset_of(cluster_size, cluster as int),
        offset_of(cluster_size, cluster as int) + cluster_size <= data.len(),
    ensures
        chain_bytes(data, cluster_size, chain.push(cluster)) == chain_bytes(
            data,
            cluster_size,
            chain,
        ) + crate::store::cluster_bytes(data, cluster_size, cluster as int),
{
    let longer = chain_bytes(data, cluster_size, chain.push(cluster));
    let front = chain_bytes(data, cluster_size, chain);
    let last = crate::store::cluster_bytes(data, cluster_size, cluster as int);
    assert((chain.len() + 1) * cluster_size == chain.len() * cluster_size + cluster_size)
        by (nonlinear_arith);
    assert(chain.len() * cluster_size >= 0) by (nonlinear_arith)
        requires
            chain.len() >= 0,
            cluster_size > 0,
    ;
    assert forall|i: int| 0 <= i < longer.len() implies longer[i] == (front + last)[i] by {
        lemma_slot(cluster_size, (chain.len() + 1) as int, i);
        if i < front.len() {
            lemma_slot(cluster_size, chain.len() as int, i);
            assert(chain.push(cluster)[i / cluster_size] == chain[i / cluster_size]);
        } else {
            let r = i - chain.len() * cluster_size;
            assert(i / cluster_size == chain.len() && i % cluster_size == r) by {
                vstd::arithmetic::div_mod::lemma_fundamental_div_mod_converse(
                    i,
                    cluster_size,
                    chain.len() as int,
                    r,
                );
            }
            assert(chain.push(cluster)[chain.len() as int] == cluster);
        }
    }
    assert(longer =~= front + last);
}

/// Chains without a common cluster have no common byte.
pub proof fn lemma_chains_apart(one: Seq<u32>, other: Seq<u32>, cluster_size: int, x: int)
    requires
        cluster_size > 0,
        forall|i: int, j: int|
            0 <= i < one.len() && 0 <= j < other.len() ==> #[trigger] one[i] != #[trigger] other[j],
        within_chain(one, cluster_size, x),
    ensures
        !within_chain(other, cluster_size, x),
{
    if within_chain(other, cluster_size, x) {
        let i = choose|k: int|
            0 <= k < one.len() && offset_of(cluster_size, #[trigger] one[k] as int) <= x
                < offset_of(cluster_size, one[k] as int) + cluster_size;
        let j = choose|k: int|
            0 <= k < other.len() && offset_of(cluster_size, #[trigger] other[k] as int) <= x
                < offset_of(cluster_size, other[k] as int) + cluster_size;
        lemma_address_injective(
            cluster_size,
            one[i] as int,
            x - offset_of(cluster_size, one[i] as int),
            other[j] as int,
            x - offset_of(cluster_size, other[j] as int),
        );
    }
}

/// Writes one byte of a chain.
fn put(store: &mut ClusterStore, chain: &Vec<u32>, at: usize, byte: u8)
    requires
        old(store).wf(),
        chain_fits(chain@, old(store).spec_clusters() as int),
        at < chain@.len() * old(store).spec_cluster_size(),
    ensures
        final(store).wf(),
        final(store).spec_cluster_size() == old(store).spec_cluster_size(),
        final(store).spec_clusters() == old(store).spec_clusters(),
        chain_bytes(final(store).data(), old(store).spec_cluster_size() as int, chain@)
            == chain_bytes(old(store).data(), old(store).spec_cluster_size() as int, chain@).update(
            at as int,
            byte,
        ),
        final(store).data().len() == old(store).data().len(),
        forall|x: int|
            0 <= x < old(store).data().len() && !within_chain(
                chain@,
                old(store).spec_cluster_size() as int,
                x,
            ) ==> final(store).data()[x] == old(store).data()[x],
{
    let cluster_size = store.cluster_size();
    proof {
        lemma_slot(cluster_size as int, chain@.len() as int, at as int);
        lemma_chain_bytes_update(
            store.data(),
            cluster_size as int,
            store.spec_clusters() as int,
            chain@,
            at as int,
            byte,
        );
    }
    store.set(chain[at / cluster_size], at % cluster_size, byte);
}

impl File {
    /// Makes the chain of the file `needed` clusters long.
    fn grow(&mut self, fat: &mut FatTable, store: &ClusterStore, chain: Vec<u32>, needed: usize) -> (result:
        Result<Vec<u32>, Error>)
        requires
            attached(old(fat), store),
            file_chain(old(fat).entries(), old(self).first_cluster) == Some(chain@),
            old(self).first_cluster != 0 ==> is_chain(
                old(fat).entries(),
                old(self).first_cluster,
                chain@,
            ),
            old(self).first_cluster == 0 ==> chain@.len() == 0,
            chain@.len() < needed <= u32::MAX,
        ensures
            attached(final(fat), store),
            final(fat).spec_kind() == old(fat).spec_kind(),
            final(fat).spec_cluster_count() == old(fat).spec_cluster_count(),
            final(fat).copies().len() == old(fat).copies().len(),
            final(fat).bytes().len() == old(fat).bytes().len(),
            final(self).size == old(self).size,
            final(self).position == old(self).position,
            final(self).dirty == old(self).dirty,
            free_count(old(fat).entries()) < needed - chain@.len() ==> result == Err::<
                Vec<u32>,
                Error,
            >(Error::NotEnoughSpace) && final(fat).copies() == old(fat).copies() && *final(self)
                == *old(self),
            free_count(old(fat).entries()) >= needed - chain@.len() ==> {
                &&& result matches Ok(longer) && longer@.len() == needed && longer@.take(
                    chain@.len() as int,
                ) == chain@ && file_chain(final(fat).entries(), final(self).first_cluster) == Some(
                    longer@,
                ) && chain_fits(longer@, store.spec_clusters() as int)
                &&& final(fat).entries() == grown_table(
                    old(fat).entries(),
                    old(self).first_cluster,
                    needed - chain@.len(),
                )
                &&& final(self).first_cluster == grown_first(
                    old(fat).entries(),
                    old(self).first_cluster,
                    needed - chain@.len(),
                )
            },
    {
        let missing = (needed - chain.len()) as u32;
        let ghost before = fat.entries();
        let ghost added;
        if chain.len() == 0 {
            match fat.allocate_chain(missing, 2) {
                Ok(head) => {
                    proof {
                        lemma_allocated_chain(before, 2, missing as int);
                        added = free_order(before, 2).take(missing as int);
                        assert(chain@ + added =~= added);
                    }
                    self.first_cluster = head;
                    assert(chain_of(fat.entries(), self.first_cluster) == Some(chain@ + added));
                },
                Err(e) => {
                    return Err(e);
                },
            }
        } else {
            let last = chain[chain.len() - 1];
            proof {
                assert(is_cluster(before, chain@.last() as int));
                assert(before[last as int] == ClusterEntry::EndOfChain);
                added = free_order(before, (last + 1) as u32).take(missing as int);
            }
            match fat.extend_chain(last, missing) {
                Ok(_) => {
                    proof {
                        lemma_extended_chain(before, self.first_cluster, chain@, missing as int);
                    }
                    assert(chain_of(fat.entries(), self.first_cluster) == Some(chain@ + added));
                },
                Err(e) => {
                    return Err(e);
                },
            }
        }
        assert(chain_of(fat.entries(), self.first_cluster) == Some(chain@ + added));
        match fat.follow_chain(self.first_cluster) {
            Ok(longer) => {
                proof {
                    assert(longer@.take(chain@.len() as int) =~= chain@);
                    assert forall|i: int| 0 <= i < longer@.len() implies 2 <= #[trigger] longer@[i]
                        < store.spec_clusters() + 2 by {
                        assert(is_cluster(fat.entries(), longer@[i] as int));
                    }
                }
                Ok(longer)
            },
            Err(e) => Err(e),
        }
    }

    /// Writes `bytes` at the current offset and moves the offset behind
    /// them. A write that reaches behind the end of the file extends the
    /// chain and the size; where it begins behind the end, the gap is filled
    /// with zeros. A file cannot grow beyond `u32::MAX` bytes. Where the
    /// volume has too few free clusters, nothing is written.
    pub fn write(&mut self, fat: &mut FatTable, store: &mut ClusterStore, bytes: &[u8]) -> (result:
        Result<usize, Error>)
        requires
            attached(old(fat), old(store)),
        ensures
            attached(final(fat), final(store)),
            final(fat).spec_kind() == old(fat).spec_kind(),
            final(fat).spec_cluster_count() == old(fat).spec_cluster_count(),
            final(fat).copies().len() == old(fat).copies().len(),
            final(fat).bytes().len() == old(fat).bytes().len(),
            final(store).spec_cluster_size() == old(store).spec_cluster_size(),
            old(self).content(old(fat), old(store)) is None ==> result == Err::<usize, Error>(
                Error::CorruptedFileSystem,
            ),
            old(self).content(old(fat), old(store)) matches Some(content) ==> {
                let end = old(self).spec_position() + bytes@.len();
                let missing = clusters_for(end, old(store).spec_cluster_size() as int)
                    - file_chain(old(fat).entries(), old(self).spec_first_cluster()).unwrap().len();
                &&& bytes@.len() == 0 ==> result == Ok::<usize, Error>(0) && *final(self) == *old(self) && final(fat).copies() == old(fat).copies() && final(store).data() == old(store).data()
                &&& bytes@.len() > 0 && end > u32::MAX ==> result == Err::<usize, Error>(
                    Error::InvalidInput,
                )
                &&& bytes@.len() > 0 && end <= u32::MAX && free_count(old(fat).entries()) < missing
                    ==> result == Err::<usize, Error>(Error::NotEnoughSpace)
                &&& bytes@.len() > 0 && end <= u32::MAX && free_count(old(fat).entries()) >= missing
                    ==> {
                    &&& result == Ok::<usize, Error>(bytes@.len() as usize)
                    &&& final(self).content(final(fat), final(store)) == Some(
                        overlaid(content, old(self).spec_position() as int, bytes@),
                    )
                    &&& final(self).spec_size() == overlaid(
                        content,
                        old(self).spec_position() as int,
                        bytes@,
                    ).len()
                    &&& final(self).spec_position() == end
                    &&& final(self).spec_is_dirty()
                    &&& missing <= 0 ==> final(fat).copies() == old(fat).copies() && final(self).spec_first_cluster() == old(self).spec_first_cluster()
                    &&& final(fat).entries() == grown_table(
                        old(fat).entries(),
                        old(self).spec_first_cluster(),
                        missing,
                    )
                    &&& final(self).spec_first_cluster() == grown_first(
                        old(fat).entries(),
                        old(self).spec_first_cluster(),
                        missing,
                    )
                    &&& final(store).data().len() == old(store).data().len()
                    &&& forall|x: int|
                        0 <= x < old(store).data().len() && !within_chain(
                            file_chain(final(fat).entries(), final(self).spec_first_cluster()).unwrap(),
                            old(store).spec_cluster_size() as int,
                            x,
                        ) ==> final(store).data()[x] == old(store).data()[x]
                }
            },
            result is Err ==> *final(self) == *old(self) && final(fat).copies() == old(fat).copies() && final(store).data() == old(store).data(),
    {
        let chain = match self.chain(fat, store) {
            Ok(chain) => chain,
            Err(e) => {
                return Err(e);
            },
        };
        let len = bytes.len();
        if len == 0 {
            return Ok(0);
        }
        if len > u32::MAX as usize || self.position as u64 + len as u64 > u32::MAX as u64 {
            return Err(Error::InvalidInput);
        }
        let cluster_size = store.cluster_size();
        let start = self.position as usize;
        let end = start + len;
        proof {
            lemma_clusters_for(end as int, cluster_size as int);
        }
        let needed = end / cluster_size + if end % cluster_size != 0 {
            1
        } else {
            0
        };
        let ghost content = self.content(fat, store).unwrap();
        let ghost old_chain = chain@;
        let ghost old_data = store.data();
        let chain = if chain.len() < needed {
            match self.grow(fat, store, chain, needed) {
                Ok(longer) => longer,
                Err(e) => {
                    return Err(e);
                },
            }
        } else {
            chain
        };
        let ghost base = chain_bytes(old_data, cluster_size as int, chain@);
        proof {
            assert(chain@ =~= old_chain + chain@.skip(old_chain.len() as int)) by {
                assert(chain@.take(old_chain.len() as int) =~= old_chain);
            }
            lemma_chain_bytes_prefix(
                old_data,
                cluster_size as int,
                old_chain,
                chain@.skip(old_chain.len() as int),
            );
            assert(content =~= base.take(self.size as int));
            assert(needed * cluster_size <= chain@.len() * cluster_size) by (nonlinear_arith)
                requires
                    needed <= chain@.len(),
                    cluster_size > 0,
            ;
            assert(zeroed(base, self.size as int, self.size as int) =~= base);
        }
        let mut at = self.size as usize;
        while at < start
            invariant
                store.wf(),
                store.spec_cluster_size() == cluster_size,
                store.spec_clusters() == old(store).spec_clusters(),
                chain_fits(chain@, store.spec_clusters() as int),
                start <= end <= chain@.len() * cluster_size,
                self.size <= at || start <= self.size == at,
                base.len() == chain@.len() * cluster_size,
                chain_bytes(store.data(), cluster_size as int, chain@) == zeroed(
                    base,
                    self.size as int,
                    at as int,
                ),
                store.data().len() == old_data.len(),
                forall|x: int|
                    0 <= x < old_data.len() && !within_chain(chain@, cluster_size as int, x)
                        ==> store.data()[x] == old_data[x],
            decreases start - at,
        {
            put(store, &chain, at, 0);
            assert(zeroed(base, self.size as int, at as int).update(at as int, 0u8) =~= zeroed(
                base,
                self.size as int,
                at + 1,
            ));
            at += 1;
        }
        let ghost gapped = chain_bytes(store.data(), cluster_size as int, chain@);
        assert(stamped(gapped, start as int, bytes@, 0) =~= gapped);
        let mut i: usize = 0;
        while i < len
            invariant
                store.wf(),
                store.spec_cluster_size() == cluster_size,
                store.spec_clusters() == old(store).spec_clusters(),
                chain_fits(chain@, store.spec_clusters() as int),
                len == bytes@.len(),
                end == start + len,
                i <= len,
                end <= chain@.len() * cluster_size,
                gapped.len() == chain@.len() * cluster_size,
                chain_bytes(store.data(), cluster_size as int, chain@) == stamped(
                    gapped,
                    start as int,
                    bytes@,
                    i as int,
                ),
                store.data().len() == old_data.len(),
                forall|x: int|
                    0 <= x < old_data.len() && !within_chain(chain@, cluster_size as int, x)
                        ==> store.data()[x] == old_data[x],
            decreases len - i,
        {
            put(store, &chain, start + i, bytes[i]);
            assert(stamped(gapped, start as int, bytes@, i as int).update(
                start + i,
                bytes@[i as int],
            ) =~= stamped(gapped, start as int, bytes@, i + 1));
            i += 1;
        }
        if end > self.size as usize {
            self.size = end as u32;
        }
        self.position = end as u32;
        self.dirty = true;
        proof {
            let written = chain_bytes(store.data(), cluster_size as int, chain@);
            assert(written.take(self.size as int) =~= overlaid(content, start as int, bytes@));
        }
        Ok(len)
    }
}

/// Where a seek leads, told from the start of the file, from its end or
/// from the current offset.
#[derive(Debug, PartialEq, Eq, Clone, Copy, Structural)]
pub enum SeekFrom {
    /// The offset from the start of the file.
    Start(u64),
    /// The offset from the end of the file.
    End(i64),
    /// The offset from the current offset.
    Current(i64),
}

/// A sequence of `n` zeros.
pub open spec fn zeros(n: int) -> Seq<u8> {
    Seq::new(n as nat, |i: int| 0u8)
}

impl File {
    /// The offset that a seek leads to.
    pub open spec fn seek_target(&self, to: SeekFrom) -> int {
        match to {
            SeekFrom::Start(offset) => offset as int,
            SeekFrom::End(delta) => self.spec_size() + delta,
            SeekFrom::Current(delta) => self.spec_position() + delta,
        }
    }

    /// Moves the offset. The volume is not touched: an offset behind the end
    /// of the file is accepted, and only a later write acts on it. An offset
    /// before the start of the file, or behind what a file can hold, is
    /// refused.
    pub fn seek(&mut self, to: SeekFrom) -> (result: Result<u32, Error>)
        ensures
            final(self).spec_first_cluster() == old(self).spec_first_cluster(),
            final(self).spec_size() == old(self).spec_size(),
            final(self).spec_is_dirty() == old(self).spec_is_dirty(),
            0 <= old(self).seek_target(to) <= u32::MAX ==> result == Ok::<u32, Error>(
                old(self).seek_target(to) as u32,
            ) && final(self).spec_position() == old(self).seek_target(to),
            !(0 <= old(self).seek_target(to) <= u32::MAX) ==> result == Err::<u32, Error>(
                Error::InvalidInput,
            ) && final(self).spec_position() == old(self).spec_position(),
    {
        let (base, delta): (u32, i64) = match to {
            SeekFrom::Start(offset) => {
                if offset > u32::MAX as u64 {
                    return Err(Error::InvalidInput);
                }
                (0, offset as i64)
            },
            SeekFrom::End(delta) => (self.size, delta),
            SeekFrom::Current(delta) => (self.position, delta),
        };
        if delta > u32::MAX as i64 || delta < -(u32::MAX as i64) {
            return Err(Error::InvalidInput);
        }
        let target: i64 = base as i64 + delta;
        if target < 0 || target > u32::MAX as i64 {
            return Err(Error::InvalidInput);
        }
        self.position = target as u32;
        Ok(target as u32)
    }

    /// Writes out the state of the file: gives back its first cluster and
    /// its size, as they are to stand in its directory entry, and takes the
    /// file for clean.
    pub fn flush(&mut self) -> (entry: (u32, u32))
        ensures
            entry.0 == old(self).spec_first_cluster(),
            entry.1 == old(self).spec_size(),
            final(self).spec_first_cluster() == old(self).spec_first_cluster(),
            final(self).spec_size() == old(self).spec_size(),
            final(self).spec_position() == old(self).spec_position(),
            !final(self).spec_is_dirty(),
    {
        self.dirty = false;
        (self.first_cluster, self.size)
    }

    /// Sets the size of the file. A smaller size cuts the chain down to the
    /// clusters that the size needs and frees the rest; a file cut down to
    /// nothing has no cluster left. A greater size appends zeros, as a write
    /// of zeros at the end of the file does. The offset stays where it is.
    pub fn truncate(&mut self, fat: &mut FatTable, store: &mut ClusterStore, size: u32) -> (result:
        Result<(), Error>)
        requires
            attached(old(fat), old(store)),
        ensures
            attached(final(fat), final(store)),
            final(fat).spec_kind() == old(fat).spec_kind(),
            final(fat).spec_cluster_count() == old(fat).spec_cluster_count(),
            final(fat).copies().len() == old(fat).copies().len(),
            final(fat).bytes().len() == old(fat).bytes().len(),
            final(store).spec_cluster_size() == old(store).spec_cluster_size(),
            final(self).spec_position() == old(self).spec_position(),
            old(self).content(old(fat), old(store)) is None ==> result == Err::<(), Error>(
                Error::CorruptedFileSystem,
            ),
            old(self).content(old(fat), old(store)) matches Some(content) ==> {
                let chain = file_chain(old(fat).entries(), old(self).spec_first_cluster()).unwrap();
                let keep = clusters_for(size as int, old(store).spec_cluster_size() as int);
                &&& size <= old(self).spec_size() ==> {
                    &&& result == Ok::<(), Error>(())
                    &&& final(self).content(final(fat), final(store)) == Some(
                        content.take(size as int),
                    )
                    &&& final(self).spec_size() == size
                    &&& final(store).data() == old(store).data()
                    &&& final(fat).entries() == truncated(old(fat).entries(), chain, keep)
                    &&& final(self).spec_first_cluster() == if size == 0 {
                        0
                    } else {
                        old(self).spec_first_cluster()
                    }
                }
                &&& size > old(self).spec_size() ==> {
                    let missing = keep - chain.len();
                    &&& free_count(old(fat).entries()) < missing ==> result == Err::<(), Error>(
                        Error::NotEnoughSpace,
                    )
                    &&& free_count(old(fat).entries()) >= missing ==> {
                        &&& result == Ok::<(), Error>(())
                        &&& final(self).content(final(fat), final(store)) == Some(
                            overlaid(
                                content,
                                old(self).spec_size() as int,
                                zeros(size - old(self).spec_size()),
                            ),
                        )
                        &&& final(self).spec_size() == size
                        &&& final(fat).entries() == grown_table(
                            old(fat).entries(),
                            old(self).spec_first_cluster(),
                            missing,
                        )
                        &&& final(self).spec_first_cluster() == grown_first(
                            old(fat).entries(),
                            old(self).spec_first_cluster(),
                            missing,
                        )
                        &&& final(store).data().len() == old(store).data().len()
                        &&& forall|x: int|
                            0 <= x < old(store).data().len() && !within_chain(
                                file_chain(
                                    final(fat).entries(),
                                    final(self).spec_first_cluster(),
                                ).unwrap(),
                                old(store).spec_cluster_size() as int,
                                x,
                            ) ==> final(store).data()[x] == old(store).data()[x]
                    }
                }
            },
            result is Err ==> *final(self) == *old(self) && final(fat).copies() == old(fat).copies() && final(store).data() == old(store).data(),
    {
        if size > self.size {
            self.pad(fat, store, size)
        } else {
            self.shrink(fat, store, size)
        }
    }

    /// Appends zeros up to the size `size`.
    fn pad(&mut self, fat: &mut FatTable, store: &mut ClusterStore, size: u32) -> (result: Result<
        (),
        Error,
    >)
        requires
            attached(old(fat), old(store)),
            size > old(self).size,
        ensures
            attached(final(fat), final(store)),
            final(fat).spec_kind() == old(fat).spec_kind(),
            final(fat).spec_cluster_count() == old(fat).spec_cluster_count(),
            final(fat).copies().len() == old(fat).copies().len(),
            final(fat).bytes().len() == old(fat).bytes().len(),
            final(store).spec_cluster_size() == old(store).spec_cluster_size(),
            final(self).position == old(self).position,
            old(self).content(old(fat), old(store)) is None ==> result == Err::<(), Error>(
                Error::CorruptedFileSystem,
            ),
            old(self).content(old(fat), old(store)) matches Some(content) ==> {
                let chain = file_chain(old(fat).entries(), old(self).first_cluster).unwrap();
                let missing = clusters_for(size as int, old(store).spec_cluster_size() as int)
                    - chain.len();
                &&& free_count(old(fat).entries()) < missing ==> result == Err::<(), Error>(
                    Error::NotEnoughSpace,
                )
                &&& free_count(old(fat).entries()) >= missing ==> {
                    &&& result == Ok::<(), Error>(())
                    &&& final(self).content(final(fat), final(store)) == Some(
                        overlaid(content, old(self).size as int, zeros(size - old(self).size)),
                    )
                    &&& final(self).size == size
                    &&& final(fat).entries() == grown_table(
                        old(fat).entries(),
                        old(self).first_cluster,
                        missing,
                    )
                    &&& final(self).first_cluster == grown_first(
                        old(fat).entries(),
                        old(self).first_cluster,
                        missing,
                    )
                    &&& final(store).data().len() == old(store).data().len()
                    &&& forall|x: int|
                        0 <= x < old(store).data().len() && !within_chain(
                            file_chain(final(fat).entries(), final(self).first_cluster).unwrap(),
                            old(store).spec_cluster_size() as int,
                            x,
                        ) ==> final(store).data()[x] == old(store).data()[x]
                }
            },
            result is Err ==> *final(self) == *old(self) && final(fat).copies() == old(fat).copies() && final(store).data() == old(store).data(),
    {
        let position = self.position;
        let was_dirty = self.dirty;
        let mut padding: Vec<u8> = Vec::new();
        let mut n: u32 = self.size;
        while n < size
            invariant
                self.size <= n <= size,
                padding@ == zeros(n - self.size),
            decreases size - n,
        {
            padding.push(0);
            assert(padding@ =~= zeros(n + 1 - self.size));
            n += 1;
        }
        self.position = self.size;
        let written = self.write(fat, store, padding.as_slice());
        self.position = position;
        match written {
            Ok(_) => {
                proof {
                    lemma_read_after_write(
                        old(self).content(old(fat), old(store)).unwrap(),
                        old(self).size as int,
                        padding@,
                    );
                }
                Ok(())
            },
            Err(e) => {
                self.dirty = was_dirty;
                Err(e)
            },
        }
    }

    /// Cuts the file down to the size `size`.
    #[verifier::rlimit(50)]
    fn shrink(&mut self, fat: &mut FatTable, store: &mut ClusterStore, size: u32) -> (result: Result<
        (),
        Error,
    >)
        requires
            attached(old(fat), old(store)),
            size <= old(self).size,
        ensures
            attached(final(fat), final(store)),
            final(fat).spec_kind() == old(fat).spec_kind(),
            final(fat).spec_cluster_count() == old(fat).spec_cluster_count(),
            final(fat).copies().len() == old(fat).copies().len(),
            final(fat).bytes().len() == old(fat).bytes().len(),
            final(store).spec_cluster_size() == old(store).spec_cluster_size(),
            final(self).position == old(self).position,
            old(self).content(old(fat), old(store)) is None ==> result == Err::<(), Error>(
                Error::CorruptedFileSystem,
            ),
            old(self).content(old(fat), old(store)) matches Some(content) ==> {
                let chain = file_chain(old(fat).entries(), old(self).first_cluster).unwrap();
                let keep = clusters_for(size as int, old(store).spec_cluster_size() as int);
                &&& result == Ok::<(), Error>(())
                &&& final(self).content(final(fat), final(store)) == Some(content.take(size as int))
                &&& final(self).size == size
                &&& final(store).data() == old(store).data()
                &&& final(fat).entries() == truncated(old(fat).entries(), chain, keep)
                &&& final(self).first_cluster == if size == 0 {
                    0
                } else {
                    old(self).first_cluster
                }
            },
            result is Err ==> *final(self) == *old(self) && final(fat).copies() == old(fat).copies() && final(store).data() == old(store).data(),
    {
        let chain = match self.chain(fat, store) {
            Ok(chain) => chain,
            Err(e) => {
                return Err(e);
            },
        };
        let cluster_size = store.cluster_size();
        let ghost before = fat.entries();
        let ghost content = self.content(fat, store).unwrap();
        proof {
            lemma_clusters_for(size as int, cluster_size as int);
            lemma_clusters_for(self.size as int, cluster_size as int);
        }
        let target = size as usize;
        let keep = target / cluster_size + if target % cluster_size != 0 {
            1
        } else {
            0
        };
        if self.first_cluster == 0 {
            proof {
                assert(chain@.len() * cluster_size == 0) by (nonlinear_arith)
                    requires
                        chain@.len() == 0,
                ;
                assert(self.size == 0 && size == 0);
                assert(content.len() == 0);
                assert(truncated(before, chain@, keep as int) =~= before);
                assert(content.take(size as int) =~= content);
            }
            return Ok(());
        }
        proof {
            assert(keep * cluster_size < size + cluster_size);
            assert(keep <= chain@.len()) by (nonlinear_arith)
                requires
                    keep * cluster_size < size + cluster_size,
                    size <= chain@.len() * cluster_size,
                    cluster_size > 0,
            ;
        }
        let freed = fat.truncate_chain(self.first_cluster, keep as u32);
        assert(freed is Ok);
        proof {
            lemma_shrunk(
                before,
                store.data(),
                cluster_size as int,
                self.first_cluster,
                chain@,
                keep as int,
                self.size as int,
                size as int,
            );
        }
        if keep == 0 {
            self.first_cluster = 0;
        }
        if size != self.size {
            self.dirty = true;
        }
        self.size = size;
        Ok(())
    }
}

/// The bytes of a file that has been cut down are the beginning of its
/// bytes before.
pub proof fn lemma_shrunk(
    entries: Seq<ClusterEntry>,
    data: Seq<u8>,
    cluster_size: int,
    first: u32,
    chain: Seq<u32>,
    keep: int,
    old_size: int,
    size: int,
)
    requires
        cluster_size > 0,
        first != 0,
        is_chain(entries, first, chain),
        keep == clusters_for(size, cluster_size),
        0 <= size <= old_size <= chain.len() * cluster_size,
        0 <= keep <= chain.len(),
    ensures
        file_bytes(
            truncated(entries, chain, keep),
            data,
            cluster_size,
            if keep == 0 {
                0
            } else {
                first
            },
            size,
        ) == Some(chain_bytes(data, cluster_size, chain).take(old_size).take(size)),
{
    lemma_clusters_for(size, cluster_size);
    let kept = chain.take(keep);
    assert(chain =~= kept + chain.skip(keep));
    lemma_chain_bytes_prefix(data, cluster_size, kept, chain.skip(keep));
    let all = chain_bytes(data, cluster_size, chain);
    let short = chain_bytes(data, cluster_size, kept);
    assert(short.take(size) =~= all.take(old_size).take(size));
    if keep > 0 {
        lemma_truncated_chain(entries, first, chain, keep);
    } else {
        assert(kept =~= Seq::<u32>::empty());
    }
}

} // verus!
