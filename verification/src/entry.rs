//! The three FAT variants and the logical value of a table entry.
use vstd::prelude::*;

verus! {

/// The variant of the filesystem, which fixes the width of a table entry.
#[derive(Debug, PartialEq, Eq, Clone, Copy, Structural)]
pub enum FatType {
    /// 12-bit entries, two of them packed into three bytes.
    Fat12,
    /// 16-bit entries.
    Fat16,
    /// 32-bit entries, of which the low 28 bits count.
    Fat32,
}

/// The logical value of a table entry.
#[derive(Debug, PartialEq, Eq, Clone, Copy, Structural)]
pub enum ClusterEntry {
    /// The cluster is available.
    Free,
    /// The cluster is part of a chain, and the chain goes on with the given cluster.
    Used(u32),
    /// The cluster is the last one of a chain.
    EndOfChain,
    /// The cluster is marked defective.
    Bad,
    /// The entry holds a value of a reserved range.
    Reserved,
}

impl FatType {
    /// The variant of a volume with `total_clusters` data clusters.
    pub open spec fn spec_from_clusters(total_clusters: u32) -> FatType {
        if total_clusters < 4085 {
            FatType::Fat12
        } else if total_clusters < 65525 {
            FatType::Fat16
        } else {
            FatType::Fat32
        }
    }

    /// The variant of a volume with `total_clusters` data clusters.
    #[verifier::when_used_as_spec(spec_from_clusters)]
    pub fn from_clusters(total_clusters: u32) -> (kind: FatType)
        ensures
            kind == Self::spec_from_clusters(total_clusters),
    {
        if total_clusters < 4085 {
            FatType::Fat12
        } else if total_clusters < 65525 {
            FatType::Fat16
        } else {
            FatType::Fat32
        }
    }

    /// The number of bits of a table entry.
    pub open spec fn spec_bits(self) -> u32 {
        match self {
            FatType::Fat12 => 12,
            FatType::Fat16 => 16,
            FatType::Fat32 => 32,
        }
    }

    /// The number of bits of a table entry.
    #[verifier::when_used_as_spec(spec_bits)]
    pub fn bits(self) -> (bits: u32)
        ensures
            bits == self.spec_bits(),
    {
        match self {
            FatType::Fat12 => 12,
            FatType::Fat16 => 16,
            FatType::Fat32 => 32,
        }
    }

    /// The entry value that marks a defective cluster.
    pub open spec fn spec_bad_mark(self) -> u32 {
        match self {
            FatType::Fat12 => 0xFF7,
            FatType::Fat16 => 0xFFF7,
            FatType::Fat32 => 0x0FFF_FFF7,
        }
    }

    /// The entry value that marks a defective cluster.
    #[verifier::when_used_as_spec(spec_bad_mark)]
    pub fn bad_mark(self) -> (mark: u32)
        ensures
            mark == self.spec_bad_mark(),
    {
        match self {
            FatType::Fat12 => 0xFF7,
            FatType::Fat16 => 0xFFF7,
            FatType::Fat32 => 0x0FFF_FFF7,
        }
    }

    /// The greatest entry value. It is the value written for the end of a
    /// chain; every value above the bad mark is read as one.
    pub open spec fn spec_end_mark(self) -> u32 {
        match self {
            FatType::Fat12 => 0xFFF,
            FatType::Fat16 => 0xFFFF,
            FatType::Fat32 => 0x0FFF_FFFF,
        }
    }

    /// The greatest entry value, written for the end of a chain.
    #[verifier::when_used_as_spec(spec_end_mark)]
    pub fn end_mark(self) -> (mark: u32)
        ensures
            mark == self.spec_end_mark(),
    {
        match self {
            FatType::Fat12 => 0xFFF,
            FatType::Fat16 => 0xFFFF,
            FatType::Fat32 => 0x0FFF_FFFF,
        }
    }

    /// The greatest number of data clusters that a volume of this variant
    /// can have, so that every cluster number stays below the bad mark.
    pub open spec fn spec_max_clusters(self) -> u32 {
        match self {
            FatType::Fat12 => 4084,
            FatType::Fat16 => 65524,
            FatType::Fat32 => 0x0FFF_FFF5,
        }
    }

    /// The greatest number of data clusters of a volume of this variant.
    #[verifier::when_used_as_spec(spec_max_clusters)]
    pub fn max_clusters(self) -> (max: u32)
        ensures
            max == self.spec_max_clusters(),
    {
        match self {
            FatType::Fat12 => 4084,
            FatType::Fat16 => 65524,
            FatType::Fat32 => 0x0FFF_FFF5,
        }
    }
}

impl ClusterEntry {
    /// Whether the entry can stand in a table with `cluster_count` data
    /// clusters: a link leads to a data cluster.
    pub open spec fn valid_for(self, cluster_count: u32) -> bool {
        self matches ClusterEntry::Used(next) ==> 2 <= next && next - 2 < cluster_count
    }

    /// The logical value of the entry value `raw` in a table of the variant
    /// `kind` with `cluster_count` data clusters.
    pub open spec fn spec_decode(kind: FatType, cluster_count: u32, raw: u32) -> ClusterEntry {
        if raw == 0 {
            ClusterEntry::Free
        } else if raw == kind.spec_bad_mark() {
            ClusterEntry::Bad
        } else if raw > kind.spec_bad_mark() {
            ClusterEntry::EndOfChain
        } else if 2 <= raw && raw - 2 < cluster_count {
            ClusterEntry::Used(raw)
        } else {
            ClusterEntry::Reserved
        }
    }

    /// Reads an entry value: 0 is free, the bad mark is bad, everything above
    /// it ends a chain, the number of a data cluster is a link, and the rest
    /// (1 and what lies between the last cluster and the bad mark) is reserved.
    #[verifier::when_used_as_spec(spec_decode)]
    pub fn decode(kind: FatType, cluster_count: u32, raw: u32) -> (entry: ClusterEntry)
        ensures
            entry == Self::spec_decode(kind, cluster_count, raw),
    {
        if raw == 0 {
            ClusterEntry::Free
        } else if raw == kind.bad_mark() {
            ClusterEntry::Bad
        } else if raw > kind.bad_mark() {
            ClusterEntry::EndOfChain
        } else if 2 <= raw && raw - 2 < cluster_count {
            ClusterEntry::Used(raw)
        } else {
            ClusterEntry::Reserved
        }
    }

    /// The entry value written for the entry in a table of the variant `kind`.
    pub open spec fn spec_encode(self, kind: FatType) -> u32 {
        match self {
            ClusterEntry::Free => 0,
            ClusterEntry::Used(next) => next,
            ClusterEntry::EndOfChain => kind.spec_end_mark(),
            ClusterEntry::Bad => kind.spec_bad_mark(),
            ClusterEntry::Reserved => 1,
        }
    }

    /// The entry value written for the entry: 0 for free, the cluster number
    /// for a link, the greatest value for the end of a chain, the bad mark for
    /// bad, and 1 for reserved.
    #[verifier::when_used_as_spec(spec_encode)]
    pub fn encode(self, kind: FatType) -> (raw: u32)
        ensures
            raw == self.spec_encode(kind),
    {
        match self {
            ClusterEntry::Free => 0,
            ClusterEntry::Used(next) => next,
            ClusterEntry::EndOfChain => kind.end_mark(),
            ClusterEntry::Bad => kind.bad_mark(),
            ClusterEntry::Reserved => 1,
        }
    }
}

/// An entry that is written and read back is the same entry, in every
/// variant: encoding loses nothing of an entry that is valid for the table.
pub proof fn lemma_decode_encode(kind: FatType, cluster_count: u32, entry: ClusterEntry)
    requires
        cluster_count <= kind.spec_max_clusters(),
        entry.valid_for(cluster_count),
    ensures
        entry.spec_encode(kind) <= kind.spec_end_mark(),
        ClusterEntry::spec_decode(kind, cluster_count, entry.spec_encode(kind)) == entry,
{
}

} // verus!
