//! Cluster I/O: the data region of a volume, addressed by cluster number.
//!
//! The data region begins with cluster 2: the bytes of the cluster `c` lie at
//! `(c - 2) * cluster_size` from the start of the region.
use crate::error::Error;
use vstd::prelude::*;

verus! {

/// The index, in the data region, of the first byte of `cluster`.
pub open spec fn offset_of(cluster_size: int, cluster: int) -> int {
    (cluster - 2) * cluster_size
}

/// The bytes of `cluster` in the data region `data`.
pub open spec fn cluster_bytes(data: Seq<u8>, cluster_size: int, cluster: int) -> Seq<u8> {
    data.subrange(offset_of(cluster_size, cluster), offset_of(cluster_size, cluster) + cluster_size)
}

/// The bytes of the clusters of `chain`, one cluster after the other.
pub open spec fn chain_bytes(data: Seq<u8>, cluster_size: int, chain: Seq<u32>) -> Seq<u8> {
    Seq::new(
        (chain.len() * cluster_size) as nat,
        |i: int| data[offset_of(cluster_size, chain[i / cluster_size] as int) + i % cluster_size],
    )
}

/// An offset into a run of `n` clusters lies in one of them, at an offset
/// within that cluster.
pub proof fn lemma_slot(cluster_size: int, n: int, i: int)
    requires
        cluster_size > 0,
        0 <= i < n * cluster_size,
    ensures
        0 <= i / cluster_size < n,
        0 <= i % cluster_size < cluster_size,
        i == (i / cluster_size) * cluster_size + i % cluster_size,
{
    vstd::arithmetic::div_mod::lemma_fundamental_div_mod(i, cluster_size);
    vstd::arithmetic::div_mod::lemma_mod_bound(i, cluster_size);
    let q = i / cluster_size;
    assert(q * cluster_size == cluster_size * q) by (nonlinear_arith);
    assert(q >= 0) by (nonlinear_arith)
        requires
            cluster_size > 0,
            i >= 0,
            i == cluster_size * q + i % cluster_size,
            0 <= i % cluster_size < cluster_size,
    ;
    assert(q < n) by (nonlinear_arith)
        requires
            cluster_size > 0,
            i < n * cluster_size,
            i == cluster_size * q + i % cluster_size,
            0 <= i % cluster_size < cluster_size,
    ;
}

/// A byte of a data cluster lies in the data region.
pub proof fn lemma_address(cluster_size: int, clusters: int, cluster: int, at: int)
    requires
        cluster_size > 0,
        2 <= cluster < clusters + 2,
        0 <= at < cluster_size,
    ensures
        0 <= offset_of(cluster_size, cluster) + at < clusters * cluster_size,
        offset_of(cluster_size, cluster) + cluster_size <= clusters * cluster_size,
{
    assert((cluster - 2) * cluster_size >= 0) by (nonlinear_arith)
        requires
            cluster_size > 0,
            cluster >= 2,
    ;
    assert((cluster - 2) * cluster_size + cluster_size <= clusters * cluster_size)
        by (nonlinear_arith)
        requires
            cluster_size > 0,
            cluster - 2 < clusters,
    ;
}

/// Two bytes of clusters lie at the same place only if they are the same
/// byte of the same cluster.
pub proof fn lemma_address_injective(cluster_size: int, c1: int, r1: int, c2: int, r2: int)
    requires
        cluster_size > 0,
        0 <= r1 < cluster_size,
        0 <= r2 < cluster_size,
        offset_of(cluster_size, c1) + r1 == offset_of(cluster_size, c2) + r2,
    ensures
        c1 == c2,
        r1 == r2,
{
    assert(c1 == c2) by (nonlinear_arith)
        requires
            cluster_size > 0,
            0 <= r1 < cluster_size,
            0 <= r2 < cluster_size,
            (c1 - 2) * cluster_size + r1 == (c2 - 2) * cluster_size + r2,
    ;
}

/// The data region of a volume.
pub struct ClusterStore {
    cluster_size: usize,
    clusters: u32,
    data: Vec<u8>,
}

impl ClusterStore {
    /// The number of bytes of a cluster.
    pub closed spec fn spec_cluster_size(&self) -> usize {
        self.cluster_size
    }

    /// The number of data clusters.
    pub closed spec fn spec_clusters(&self) -> u32 {
        self.clusters
    }

    /// The bytes of the data region.
    pub closed spec fn data(&self) -> Seq<u8> {
        self.data@
    }

    /// Whether the store is in order: clusters are not empty, and the region
    /// holds exactly its clusters.
    pub open spec fn wf(&self) -> bool {
        &&& self.spec_cluster_size() > 0
        &&& self.data().len() == self.spec_clusters() * self.spec_cluster_size()
    }

    /// Whether `cluster` is a data cluster of the store.
    pub open spec fn holds(&self, cluster: u32) -> bool {
        2 <= cluster && cluster - 2 < self.spec_clusters()
    }

    /// Takes up the data region of a volume with `clusters` clusters of
    /// `cluster_size` bytes. A region of another length, or a cluster size of
    /// zero, is refused.
    pub fn new(cluster_size: usize, clusters: u32, data: Vec<u8>) -> (result: Result<Self, Error>)
        ensures
            result is Ok <==> cluster_size > 0 && data@.len() == clusters * cluster_size,
            result matches Ok(store) ==> store.wf() && store.spec_cluster_size() == cluster_size
                && store.spec_clusters() == clusters && store.data() == data@,
            result matches Err(e) ==> e == Error::InvalidInput,
    {
        if cluster_size == 0 {
            return Err(Error::InvalidInput);
        }
        let fits = data.len() % cluster_size == 0 && data.len() / cluster_size == clusters as usize;
        proof {
            vstd::arithmetic::div_mod::lemma_fundamental_div_mod(
                data@.len() as int,
                cluster_size as int,
            );
            assert(cluster_size * (data@.len() as int / cluster_size as int) == (data@.len() as int
                / cluster_size as int) * cluster_size) by (nonlinear_arith);
            if data@.len() == clusters * cluster_size {
                vstd::arithmetic::div_mod::lemma_div_multiples_vanish(
                    clusters as int,
                    cluster_size as int,
                );
                vstd::arithmetic::div_mod::lemma_mod_multiples_basic(
                    clusters as int,
                    cluster_size as int,
                );
            }
        }
        if !fits {
            return Err(Error::InvalidInput);
        }
        Ok(ClusterStore { cluster_size, clusters, data })
    }

    /// Takes up a data region whose length is known to be in order.
    pub fn with_data(cluster_size: usize, clusters: u32, data: Vec<u8>) -> (store: Self)
        requires
            cluster_size > 0,
            data@.len() == clusters * cluster_size,
        ensures
            store.wf(),
            store.spec_cluster_size() == cluster_size,
            store.spec_clusters() == clusters,
            store.data() == data@,
    {
        ClusterStore { cluster_size, clusters, data }
    }

    /// The number of bytes of a cluster.
    #[verifier::when_used_as_spec(spec_cluster_size)]
    pub fn cluster_size(&self) -> (size: usize)
        ensures
            size == self.spec_cluster_size(),
    {
        self.cluster_size
    }

    /// The number of data clusters.
    #[verifier::when_used_as_spec(spec_clusters)]
    pub fn clusters(&self) -> (clusters: u32)
        ensures
            clusters == self.spec_clusters(),
    {
        self.clusters
    }

    fn index_of(&self, cluster: u32, at: usize) -> (index: usize)
        requires
            self.wf(),
            self.holds(cluster),
            at < self.spec_cluster_size(),
        ensures
            index == offset_of(self.spec_cluster_size() as int, cluster as int) + at,
            index < self.data().len(),
    {
        let before = (cluster - 2) as usize;
        let total = self.data.len();
        proof {
            lemma_address(self.cluster_size as int, self.clusters as int, cluster as int, at as int);
            assert(total == self.clusters * self.cluster_size);
            assert(before * self.cluster_size == (cluster - 2) * self.cluster_size);
            assert(before * self.cluster_size >= 0) by (nonlinear_arith)
                requires
                    before >= 0,
                    self.cluster_size > 0,
            ;
        }
        before * self.cluster_size + at
    }

    /// Reads the byte at `at` in `cluster`.
    pub fn get(&self, cluster: u32, at: usize) -> (byte: u8)
        requires
            self.wf(),
            self.holds(cluster),
            at < self.spec_cluster_size(),
        ensures
            byte == self.data()[offset_of(self.spec_cluster_size() as int, cluster as int) + at],
    {
        let index = self.index_of(cluster, at);
        self.data[index]
    }

    /// Writes the byte at `at` in `cluster`.
    pub fn set(&mut self, cluster: u32, at: usize, byte: u8)
        requires
            old(self).wf(),
            old(self).holds(cluster),
            at < old(self).spec_cluster_size(),
        ensures
            final(self).wf(),
            final(self).spec_cluster_size() == old(self).spec_cluster_size(),
            final(self).spec_clusters() == old(self).spec_clusters(),
            final(self).data() == old(self).data().update(
                offset_of(old(self).spec_cluster_size() as int, cluster as int) + at,
                byte,
            ),
    {
        let index = self.index_of(cluster, at);
        self.data[index] = byte;
    }

    /// Fills a whole cluster with the byte `byte`.
    pub fn fill(&mut self, cluster: u32, byte: u8)
        requires
            old(self).wf(),
            old(self).holds(cluster),
        ensures
            final(self).wf(),
            final(self).spec_cluster_size() == old(self).spec_cluster_size(),
            final(self).spec_clusters() == old(self).spec_clusters(),
            final(self).data().len() == old(self).data().len(),
            forall|x: int|
                0 <= x < old(self).data().len() ==> #[trigger] final(self).data()[x] == if offset_of(
                    old(self).spec_cluster_size() as int,
                    cluster as int,
                ) <= x < offset_of(old(self).spec_cluster_size() as int, cluster as int) + old(self).spec_cluster_size() {
                    byte
                } else {
                    old(self).data()[x]
                },
    {
        let size = self.cluster_size;
        let ghost from = offset_of(size as int, cluster as int);
        let mut at: usize = 0;
        while at < size
            invariant
                self.wf(),
                self.holds(cluster),
                size == self.cluster_size,
                self.cluster_size == old(self).cluster_size,
                self.clusters == old(self).clusters,
                at <= size,
                from == offset_of(size as int, cluster as int),
                self.data().len() == old(self).data().len(),
                forall|x: int|
                    0 <= x < old(self).data().len() ==> #[trigger] self.data()[x] == if from <= x
                        < from + at {
                        byte
                    } else {
                        old(self).data()[x]
                    },
            decreases size - at,
        {
            let ghost before = self.data();
            proof {
                lemma_address(size as int, self.clusters as int, cluster as int, at as int);
            }
            self.set(cluster, at, byte);
            assert(self.data() == before.update(from + at, byte));
            assert forall|x: int| 0 <= x < old(self).data().len() implies #[trigger] self.data()[x]
                == if from <= x < from + at + 1 {
                byte
            } else {
                old(self).data()[x]
            } by {
                if x != from + at {
                    assert(self.data()[x] == before[x]);
                }
            }
            at += 1;
        }
    }

    /// Reads a whole cluster.
    pub fn read_cluster(&self, cluster: u32) -> (bytes: Vec<u8>)
        requires
            self.wf(),
            self.holds(cluster),
        ensures
            bytes@ == cluster_bytes(self.data(), self.spec_cluster_size() as int, cluster as int),
    {
        let from = self.index_of(cluster, 0);
        let total = self.data.len();
        proof {
            lemma_address(self.cluster_size as int, self.clusters as int, cluster as int, 0);
            assert(from + self.cluster_size <= total);
        }
        vstd::slice::slice_to_vec(
            vstd::slice::slice_subrange(self.data.as_slice(), from, from + self.cluster_size),
        )
    }

    /// The data region is no longer than memory can hold.
    pub proof fn lemma_fits(&self)
        ensures
            self.data().len() <= usize::MAX,
    {
        vstd::std_specs::vec::axiom_spec_len(&self.data);
    }

    /// Gives up the store for the bytes of the data region.
    pub fn into_data(self) -> (data: Vec<u8>)
        ensures
            data@ == self.data(),
    {
        self.data
    }
}

} // verus!
