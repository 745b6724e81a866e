//! Cluster chains in an allocation table, as mathematics: what a chain is,
//! which clusters are free, and what allocation and truncation make of a
//! table. A table is a sequence of entries, indexed by cluster number; the
//! data clusters are those from 2 on.
use crate::entry::ClusterEntry;
use vstd::prelude::*;

verus! {

/// Whether `cluster` is a data cluster of the table.
pub open spec fn is_cluster(entries: Seq<ClusterEntry>, cluster: int) -> bool {
    2 <= cluster < entries.len()
}

/// Whether every element of `path` is a data cluster and each one's entry
/// links to the next element.
pub open spec fn is_path(entries: Seq<ClusterEntry>, path: Seq<u32>) -> bool {
    &&& forall|i: int| 0 <= i < path.len() ==> is_cluster(entries, #[trigger] path[i] as int)
    &&& forall|i: int|
        0 <= i < path.len() - 1 ==> entries[#[trigger] path[i] as int] == ClusterEntry::Used(
            path[i + 1],
        )
}

/// Whether `chain` is the chain that starts at `start`: it begins there,
/// follows the links, and its last cluster is marked as the end of a chain.
pub open spec fn is_chain(entries: Seq<ClusterEntry>, start: u32, chain: Seq<u32>) -> bool {
    &&& chain.len() > 0
    &&& chain[0] == start
    &&& is_path(entries, chain)
    &&& entries[chain.last() as int] == ClusterEntry::EndOfChain
}

/// The chain that starts at `start`, where there is one.
pub open spec fn chain_of(entries: Seq<ClusterEntry>, start: u32) -> Option<Seq<u32>> {
    if exists|chain: Seq<u32>| is_chain(entries, start, chain) {
        Some(choose|chain: Seq<u32>| is_chain(entries, start, chain))
    } else {
        None
    }
}

/// A path that starts where a chain starts runs along the chain: it is no
/// longer than the chain and agrees with it element by element.
pub proof fn lemma_path_along_chain(entries: Seq<ClusterEntry>, path: Seq<u32>, chain: Seq<u32>)
    requires
        path.len() > 0,
        is_path(entries, path),
        is_chain(entries, path[0], chain),
    ensures
        path.len() <= chain.len(),
        path == chain.take(path.len() as int),
    decreases path.len(),
{
    if path.len() == 1 {
        assert(path =~= chain.take(1));
    } else {
        let shorter = path.drop_last();
        assert(is_path(entries, shorter)) by {
            assert forall|i: int| 0 <= i < shorter.len() implies is_cluster(
                entries,
                #[trigger] shorter[i] as int,
            ) by {
                assert(shorter[i] == path[i]);
            }
            assert forall|i: int| 0 <= i < shorter.len() - 1 implies entries[#[trigger] shorter[i] as int]
                == ClusterEntry::Used(shorter[i + 1]) by {
                assert(shorter[i] == path[i]);
            }
        }
        lemma_path_along_chain(entries, shorter, chain);
        let k = shorter.len() - 1;
        assert(shorter[k] == path[k]);
        assert(shorter[k] == chain.take(shorter.len() as int)[k]);
        assert(entries[path[k] as int] == ClusterEntry::Used(path[k + 1]));
        assert(path =~= chain.take(path.len() as int));
    }
}

/// A cluster has at most one chain.
pub proof fn lemma_chain_unique(
    entries: Seq<ClusterEntry>,
    start: u32,
    one: Seq<u32>,
    other: Seq<u32>,
)
    requires
        is_chain(entries, start, one),
        is_chain(entries, start, other),
    ensures
        one == other,
{
    lemma_path_along_chain(entries, one, other);
    lemma_path_along_chain(entries, other, one);
    assert(one =~= other);
}

/// The chain of a cluster is the one sequence that is a chain from it.
pub proof fn lemma_chain_of(entries: Seq<ClusterEntry>, start: u32, chain: Seq<u32>)
    requires
        is_chain(entries, start, chain),
    ensures
        chain_of(entries, start) == Some(chain),
{
    let chosen = choose|c: Seq<u32>| is_chain(entries, start, c);
    lemma_chain_unique(entries, start, chain, chosen);
}

/// A chain visits no cluster twice.
pub proof fn lemma_chain_no_duplicates(entries: Seq<ClusterEntry>, start: u32, chain: Seq<u32>)
    requires
        is_chain(entries, start, chain),
    ensures
        chain.no_duplicates(),
{
    assert forall|i: int, j: int| 0 <= i < j < chain.len() implies chain[i] != chain[j] by {
        if chain[i] == chain[j] {
            lemma_repeat_runs_on(entries, chain, i, j, chain.len() - 1 - j);
            let k = chain.len() - 1 - j;
            assert(chain[i + k] == chain.last());
            assert(entries[chain[i + k] as int] == ClusterEntry::Used(chain[i + k + 1]));
        }
    }
}

proof fn lemma_repeat_runs_on(entries: Seq<ClusterEntry>, path: Seq<u32>, i: int, j: int, k: int)
    requires
        is_path(entries, path),
        0 <= i < j,
        0 <= k,
        j + k < path.len(),
        path[i] == path[j],
    ensures
        path[i + k] == path[j + k],
    decreases k,
{
    if k > 0 {
        lemma_repeat_runs_on(entries, path, i, j, k - 1);
        assert(entries[path[i + k - 1] as int] == ClusterEntry::Used(path[i + k]));
        assert(entries[path[j + k - 1] as int] == ClusterEntry::Used(path[j + k]));
    }
}

/// A sequence of data clusters without repetition is no longer than the
/// table has data clusters.
pub proof fn lemma_distinct_clusters_bounded(entries: Seq<ClusterEntry>, clusters: Seq<u32>)
    requires
        clusters.no_duplicates(),
        forall|i: int| 0 <= i < clusters.len() ==> is_cluster(entries, #[trigger] clusters[i] as int),
    ensures
        clusters.len() + 2 <= entries.len() || clusters.len() == 0,
{
    if clusters.len() > 0 {
        assert(is_cluster(entries, clusters[0] as int));
        let numbers = clusters.map_values(|c: u32| c as int);
        assert(numbers.no_duplicates()) by {
            assert forall|i: int, j: int|
                0 <= i < numbers.len() && 0 <= j < numbers.len() && i != j implies numbers[i]
                != numbers[j] by {
                assert(clusters[i] != clusters[j]);
            }
        }
        numbers.unique_seq_to_set();
        let range = vstd::set_lib::set_int_range(2, entries.len() as int);
        vstd::set_lib::lemma_int_range(2, entries.len() as int);
        assert(numbers.to_set().subset_of(range)) by {
            assert forall|x: int| numbers.to_set().contains(x) implies range.contains(x) by {
                let i = choose|i: int| 0 <= i < numbers.len() && numbers[i] == x;
                assert(is_cluster(entries, clusters[i] as int));
            }
        }
        vstd::set_lib::lemma_len_subset(numbers.to_set(), range);
    }
}

/// A chain is no longer than the table has data clusters.
pub proof fn lemma_chain_bounded(entries: Seq<ClusterEntry>, start: u32, chain: Seq<u32>)
    requires
        is_chain(entries, start, chain),
    ensures
        chain.len() + 2 <= entries.len(),
{
    lemma_chain_no_duplicates(entries, start, chain);
    lemma_distinct_clusters_bounded(entries, chain);
}

/// What a path from the start of a chain tells about the chain: the chain
/// goes on behind the path exactly where the path's last cluster links on,
/// and ends with the path exactly where that cluster ends a chain.
pub proof fn lemma_path_meets_chain(entries: Seq<ClusterEntry>, path: Seq<u32>, chain: Seq<u32>)
    requires
        path.len() > 0,
        is_path(entries, path),
        is_chain(entries, path[0], chain),
    ensures
        path.len() <= chain.len(),
        path.len() == chain.len() ==> entries[path.last() as int] == ClusterEntry::EndOfChain,
        path.len() < chain.len() ==> entries[path.last() as int] == ClusterEntry::Used(
            chain[path.len() as int],
        ) && is_cluster(entries, chain[path.len() as int] as int),
{
    lemma_path_along_chain(entries, path, chain);
    let k = path.len() - 1;
    assert(path[k] == chain.take(path.len() as int)[k]);
    if path.len() < chain.len() {
        assert(entries[chain[k] as int] == ClusterEntry::Used(chain[k + 1]));
        assert(is_cluster(entries, chain[k + 1] as int));
    } else {
        assert(path.last() == chain.last());
    }
}

/// The number of free entries among the clusters from `lo` up to, not
/// including, `hi`.
pub open spec fn free_in(entries: Seq<ClusterEntry>, lo: int, hi: int) -> nat
    decreases hi - lo,
{
    if hi <= lo {
        0
    } else {
        free_in(entries, lo, hi - 1) + if entries[hi - 1] == ClusterEntry::Free {
            1nat
        } else {
            0nat
        }
    }
}

/// The number of free data clusters of the table.
pub open spec fn free_count(entries: Seq<ClusterEntry>) -> nat {
    free_in(entries, 2, entries.len() as int)
}

/// There are no more free clusters in a range than clusters.
pub proof fn lemma_free_in_bounded(entries: Seq<ClusterEntry>, lo: int, hi: int)
    requires
        lo <= hi,
    ensures
        free_in(entries, lo, hi) <= hi - lo,
    decreases hi - lo,
{
    if lo < hi {
        lemma_free_in_bounded(entries, lo, hi - 1);
    }
}

/// The free clusters of a range are those of its two parts.
pub proof fn lemma_free_in_split(entries: Seq<ClusterEntry>, lo: int, mid: int, hi: int)
    requires
        lo <= mid <= hi,
    ensures
        free_in(entries, lo, hi) == free_in(entries, lo, mid) + free_in(entries, mid, hi),
    decreases hi - mid,
{
    if mid < hi {
        lemma_free_in_split(entries, lo, mid, hi - 1);
    }
}

/// Writing one entry changes the number of free clusters of a range by what
/// the entry itself changes, and only where the entry lies in the range.
pub proof fn lemma_free_in_update(
    entries: Seq<ClusterEntry>,
    lo: int,
    hi: int,
    cluster: int,
    entry: ClusterEntry,
)
    requires
        0 <= lo <= hi <= entries.len(),
        0 <= cluster < entries.len(),
    ensures
        free_in(entries.update(cluster, entry), lo, hi) + (if lo <= cluster < hi && entries[cluster]
            == ClusterEntry::Free {
            1nat
        } else {
            0nat
        }) == free_in(entries, lo, hi) + (if lo <= cluster < hi && entry == ClusterEntry::Free {
            1nat
        } else {
            0nat
        }),
    decreases hi - lo,
{
    if lo < hi {
        lemma_free_in_update(entries, lo, hi - 1, cluster, entry);
    }
}

/// The cluster that an allocation scan looks at in its step `k`, counted
/// from 0, when it starts at the cluster `start`: the scan goes forward and
/// wraps from the last data cluster to cluster 2.
pub open spec fn scan_cluster(entries: Seq<ClusterEntry>, start: int, k: int) -> int {
    if start + k < entries.len() {
        start + k
    } else {
        start + k - (entries.len() - 2)
    }
}

/// The step in which a scan from `start` looks at `cluster`.
pub open spec fn scan_step(entries: Seq<ClusterEntry>, start: int, cluster: int) -> int {
    if cluster >= start {
        cluster - start
    } else {
        cluster - start + (entries.len() - 2)
    }
}

/// The free clusters that a scan from `start` finds in its first `k` steps,
/// in the order in which it finds them.
pub open spec fn free_scan(entries: Seq<ClusterEntry>, start: int, k: int) -> Seq<u32>
    decreases k,
{
    if k <= 0 {
        Seq::empty()
    } else {
        let before = free_scan(entries, start, k - 1);
        let cluster = scan_cluster(entries, start, k - 1);
        if entries[cluster] == ClusterEntry::Free {
            before.push(cluster as u32)
        } else {
            before
        }
    }
}

/// Where a scan with the hint `hint` starts: at the hint where that is a
/// data cluster, else at cluster 2.
pub open spec fn scan_start(entries: Seq<ClusterEntry>, hint: u32) -> int {
    if is_cluster(entries, hint as int) {
        hint as int
    } else {
        2
    }
}

/// All free clusters of the table in the order in which a scan with the
/// hint `hint` comes by them.
pub open spec fn free_order(entries: Seq<ClusterEntry>, hint: u32) -> Seq<u32> {
    free_scan(entries, scan_start(entries, hint), entries.len() - 2)
}

/// Whether `cluster` is an element of `chain`.
pub open spec fn occurs(chain: Seq<u32>, cluster: int) -> bool {
    exists|i: int| 0 <= i < chain.len() && #[trigger] chain[i] == cluster
}

/// The index of `cluster` in `chain`.
pub open spec fn position(chain: Seq<u32>, cluster: int) -> int {
    choose|i: int| 0 <= i < chain.len() && #[trigger] chain[i] == cluster
}

/// The table in which the clusters of `chain` have been linked into a chain,
/// in their order, and every other entry is as in `entries`.
pub open spec fn linked(entries: Seq<ClusterEntry>, chain: Seq<u32>) -> Seq<ClusterEntry> {
    Seq::new(
        entries.len(),
        |c: int|
            if occurs(chain, c) {
                let i = position(chain, c);
                if i + 1 < chain.len() {
                    ClusterEntry::Used(chain[i + 1])
                } else {
                    ClusterEntry::EndOfChain
                }
            } else {
                entries[c]
            },
    )
}

/// The table after the allocation of a chain of `len` clusters with the hint
/// `hint`: the first `len` free clusters that the scan comes by are linked
/// into a chain.
pub open spec fn allocated(entries: Seq<ClusterEntry>, hint: u32, len: int) -> Seq<ClusterEntry> {
    linked(entries, free_order(entries, hint).take(len))
}

/// In a sequence without repetition, an element occurs at its index only.
pub proof fn lemma_position(chain: Seq<u32>, i: int)
    requires
        chain.no_duplicates(),
        0 <= i < chain.len(),
    ensures
        occurs(chain, chain[i] as int),
        position(chain, chain[i] as int) == i,
{
    let p = position(chain, chain[i] as int);
    assert(chain[p] == chain[i]);
}

/// What a scan has found: free data clusters, each looked at in one of the
/// steps made, none of them twice; and the scan goes on from what it found.
pub proof fn lemma_free_scan(entries: Seq<ClusterEntry>, start: int, k: int)
    requires
        is_cluster(entries, start),
        0 <= k <= entries.len() - 2,
        entries.len() <= u32::MAX,
    ensures
        free_scan(entries, start, k).len() <= k,
        free_scan(entries, start, k).no_duplicates(),
        forall|i: int|
            0 <= i < free_scan(entries, start, k).len() ==> {
                let c = #[trigger] free_scan(entries, start, k)[i] as int;
                is_cluster(entries, c) && entries[c] == ClusterEntry::Free && 0 <= scan_step(
                    entries,
                    start,
                    c,
                ) < k
            },
    decreases k,
{
    if k > 0 {
        lemma_free_scan(entries, start, k - 1);
        let before = free_scan(entries, start, k - 1);
        let c = scan_cluster(entries, start, k - 1);
        assert(is_cluster(entries, c));
        assert(scan_step(entries, start, c) == k - 1);
        if entries[c] == ClusterEntry::Free {
            let after = before.push(c as u32);
            assert forall|i: int, j: int| 0 <= i < j < after.len() implies after[i] != after[j] by {
                if j == before.len() {
                    assert(after[i] == before[i]);
                } else {
                    assert(after[i] == before[i]);
                    assert(after[j] == before[j]);
                }
            }
            assert forall|i: int| 0 <= i < after.len() implies {
                let x = #[trigger] after[i] as int;
                is_cluster(entries, x) && entries[x] == ClusterEntry::Free && 0 <= scan_step(
                    entries,
                    start,
                    x,
                ) < k
            } by {
                if i < before.len() {
                    assert(after[i] == before[i]);
                }
            }
        }
    }
}

/// A scan only adds to what it has found: what it found in `k` steps is the
/// beginning of what it finds in more steps.
pub proof fn lemma_free_scan_grows(entries: Seq<ClusterEntry>, start: int, k: int, more: int)
    requires
        0 <= k <= more,
    ensures
        free_scan(entries, start, k).len() <= free_scan(entries, start, more).len(),
        free_scan(entries, start, k) == free_scan(entries, start, more).take(
            free_scan(entries, start, k).len() as int,
        ),
    decreases more - k,
{
    let found = free_scan(entries, start, k);
    if k == more {
        assert(found =~= found.take(found.len() as int));
    } else {
        lemma_free_scan_grows(entries, start, k, more - 1);
        let before = free_scan(entries, start, more - 1);
        assert(found =~= free_scan(entries, start, more).take(found.len() as int)) by {
            assert(found == before.take(found.len() as int));
        }
    }
}

/// A scan that has gone around the whole table has found every free
/// cluster: it finds as many as there are.
pub proof fn lemma_free_scan_counts(entries: Seq<ClusterEntry>, start: int, k: int)
    requires
        is_cluster(entries, start),
        0 <= k <= entries.len() - 2,
    ensures
        start + k <= entries.len() ==> free_scan(entries, start, k).len() == free_in(
            entries,
            start,
            start + k,
        ),
        start + k > entries.len() ==> free_scan(entries, start, k).len() == free_in(
            entries,
            start,
            entries.len() as int,
        ) + free_in(entries, 2, start + k - (entries.len() - 2)),
    decreases k,
{
    if k > 0 {
        lemma_free_scan_counts(entries, start, k - 1);
        if start + k == entries.len() + 1 {
            assert(free_in(entries, 2, 2) == 0);
        }
    }
}

/// The scan order holds every free cluster once: it is as long as the table
/// has free clusters.
pub proof fn lemma_free_order_len(entries: Seq<ClusterEntry>, hint: u32)
    requires
        2 <= entries.len(),
    ensures
        free_order(entries, hint).len() == free_count(entries),
{
    let start = scan_start(entries, hint);
    if entries.len() == 2 {
        assert(free_order(entries, hint).len() == 0);
    } else {
        lemma_free_scan_counts(entries, start, entries.len() - 2);
        lemma_free_in_split(entries, 2, start, entries.len() as int);
        if start == 2 {
            assert(free_in(entries, 2, 2) == 0);
        }
    }
}

/// Linking one more cluster to a chain writes two entries: the new cluster
/// becomes the end of the chain, and the cluster that was the end links to it.
pub proof fn lemma_linked_push(entries: Seq<ClusterEntry>, chain: Seq<u32>, cluster: u32)
    requires
        chain.no_duplicates(),
        !occurs(chain, cluster as int),
        0 <= cluster < entries.len(),
        forall|i: int| 0 <= i < chain.len() ==> 0 <= #[trigger] chain[i] < entries.len(),
    ensures
        chain.push(cluster).no_duplicates(),
        chain.len() == 0 ==> linked(entries, chain.push(cluster)) == entries.update(
            cluster as int,
            ClusterEntry::EndOfChain,
        ),
        chain.len() > 0 ==> linked(entries, chain.push(cluster)) == linked(entries, chain).update(
            cluster as int,
            ClusterEntry::EndOfChain,
        ).update(chain.last() as int, ClusterEntry::Used(cluster)),
{
    let longer = chain.push(cluster);
    assert forall|i: int, j: int| 0 <= i < j < longer.len() implies longer[i] != longer[j] by {
        if j == chain.len() {
            assert(longer[i] == chain[i]);
        } else {
            assert(longer[i] == chain[i]);
            assert(longer[j] == chain[j]);
        }
    }
    let expected = if chain.len() == 0 {
        entries.update(cluster as int, ClusterEntry::EndOfChain)
    } else {
        linked(entries, chain).update(cluster as int, ClusterEntry::EndOfChain).update(
            chain.last() as int,
            ClusterEntry::Used(cluster),
        )
    };
    assert forall|c: int| 0 <= c < entries.len() implies linked(entries, longer)[c]
        == expected[c] by {
        if c == cluster {
            lemma_position(longer, chain.len() as int);
        } else if occurs(chain, c) {
            let i = position(chain, c);
            assert(longer[i] == chain[i]);
            lemma_position(longer, i);
            lemma_position(chain, i);
            if i + 1 < chain.len() {
                assert(longer[i + 1] == chain[i + 1]);
            }
        } else {
            if occurs(longer, c) {
                let i = position(longer, c);
                if i < chain.len() {
                    assert(chain[i] == longer[i]);
                }
            }
        }
    }
    assert(linked(entries, longer) =~= expected);
}

/// Clusters that have been linked form the chain of the first of them.
pub proof fn lemma_linked_is_chain(entries: Seq<ClusterEntry>, chain: Seq<u32>)
    requires
        chain.len() > 0,
        chain.no_duplicates(),
        forall|i: int| 0 <= i < chain.len() ==> is_cluster(entries, #[trigger] chain[i] as int),
    ensures
        is_chain(linked(entries, chain), chain[0], chain),
{
    let after = linked(entries, chain);
    assert forall|i: int| 0 <= i < chain.len() implies is_cluster(after, #[trigger] chain[i] as int) by {
        assert(is_cluster(entries, chain[i] as int));
    }
    assert forall|i: int| 0 <= i < chain.len() - 1 implies after[#[trigger] chain[i] as int]
        == ClusterEntry::Used(chain[i + 1]) by {
        assert(is_cluster(entries, chain[i] as int));
        lemma_position(chain, i);
    }
    assert(is_cluster(entries, chain.last() as int));
    lemma_position(chain, chain.len() - 1);
}

/// After the allocation of a chain of `len` clusters, the chain of the
/// cluster handed out has exactly `len` clusters, all of them free before,
/// and no entry outside of the chain has changed.
pub proof fn lemma_allocated_chain(entries: Seq<ClusterEntry>, hint: u32, len: int)
    requires
        2 <= entries.len() <= u32::MAX,
        1 <= len <= free_count(entries),
    ensures
        ({
            let chain = free_order(entries, hint).take(len);
            &&& chain.len() == len
            &&& chain[0] == free_order(entries, hint)[0]
            &&& chain.last() == free_order(entries, hint)[len - 1]
            &&& chain_of(allocated(entries, hint, len), chain[0]) == Some(chain)
            &&& chain.no_duplicates()
            &&& forall|i: int|
                0 <= i < len ==> is_cluster(entries, #[trigger] chain[i] as int)
                    && entries[chain[i] as int] == ClusterEntry::Free
            &&& forall|c: int|
                0 <= c < entries.len() && !occurs(chain, c) ==> allocated(entries, hint, len)[c]
                    == entries[c]
        }),
{
    let order = free_order(entries, hint);
    let chain = order.take(len);
    lemma_free_order_len(entries, hint);
    lemma_free_in_bounded(entries, 2, entries.len() as int);
    lemma_free_scan(entries, scan_start(entries, hint), entries.len() - 2);
    assert forall|i: int| 0 <= i < len implies is_cluster(entries, #[trigger] chain[i] as int)
        && entries[chain[i] as int] == ClusterEntry::Free by {
        assert(chain[i] == order[i]);
    }
    assert(chain.no_duplicates()) by {
        assert forall|i: int, j: int| 0 <= i < chain.len() && 0 <= j < chain.len() && i != j implies chain[i]
            != chain[j] by {
            assert(chain[i] == order[i]);
            assert(chain[j] == order[j]);
        }
    }
    lemma_linked_is_chain(entries, chain);
    lemma_chain_of(allocated(entries, hint, len), chain[0], chain);
}

/// The table after a chain of `len` new clusters has been allocated and
/// spliced behind the cluster `last`: the scan starts behind `last`, and
/// `last` links to the first new cluster.
pub open spec fn extended(entries: Seq<ClusterEntry>, last: u32, len: int) -> Seq<ClusterEntry> {
    allocated(entries, (last + 1) as u32, len).update(
        last as int,
        ClusterEntry::Used(free_order(entries, (last + 1) as u32)[0]),
    )
}

/// The entries of a table after a chain has been extended: those of the old
/// chain are as before but for the last, which links to the first new
/// cluster, and the new clusters are linked in their order.
proof fn lemma_extended_entries(
    entries: Seq<ClusterEntry>,
    start: u32,
    chain: Seq<u32>,
    len: int,
)
    requires
        entries.len() <= u32::MAX,
        is_chain(entries, start, chain),
        1 <= len <= free_count(entries),
    ensures
        ({
            let added = free_order(entries, (chain.last() + 1) as u32).take(len);
            let after = extended(entries, chain.last(), len);
            &&& added.len() == len
            &&& added.last() == free_order(entries, (chain.last() + 1) as u32)[len - 1]
            &&& after.len() == entries.len()
            &&& forall|i: int|
                0 <= i < len ==> is_cluster(entries, #[trigger] added[i] as int)
                    && entries[added[i] as int] == ClusterEntry::Free
            &&& forall|i: int|
                0 <= i < chain.len() - 1 ==> after[#[trigger] chain[i] as int] == entries[chain[i] as int]
            &&& after[chain.last() as int] == ClusterEntry::Used(added[0])
            &&& forall|j: int|
                0 <= j < len - 1 ==> after[#[trigger] added[j] as int] == ClusterEntry::Used(
                    added[j + 1],
                )
            &&& after[added.last() as int] == ClusterEntry::EndOfChain
        }),
{
    let last = chain.last();
    assert(is_cluster(entries, last as int));
    let hint = (last + 1) as u32;
    let order = free_order(entries, hint);
    let added = order.take(len);
    lemma_allocated_chain(entries, hint, len);
    lemma_free_order_len(entries, hint);
    let after = extended(entries, last, len);
    assert(added[0] == order[0]);
    lemma_chain_no_duplicates(entries, start, chain);
    assert forall|i: int| 0 <= i < chain.len() implies !occurs(added, #[trigger] chain[i] as int) by {
        if occurs(added, chain[i] as int) {
            let j = position(added, chain[i] as int);
            assert(entries[added[j] as int] == ClusterEntry::Free);
            if i < chain.len() - 1 {
                assert(entries[chain[i] as int] == ClusterEntry::Used(chain[i + 1]));
            }
        }
    }
    assert forall|i: int| 0 <= i < chain.len() - 1 implies after[#[trigger] chain[i] as int]
        == entries[chain[i] as int] by {
        assert(chain[i] != last);
        assert(!occurs(added, chain[i] as int));
        assert(is_cluster(entries, chain[i] as int));
    }
    assert(!occurs(added, last as int));
    assert forall|j: int| 0 <= j < len - 1 implies after[#[trigger] added[j] as int]
        == ClusterEntry::Used(added[j + 1]) by {
        lemma_position(added, j);
        assert(is_cluster(entries, added[j] as int));
    }
    lemma_position(added, len - 1);
    assert(is_cluster(entries, added[len - 1] as int));
}

/// After a chain has been extended by `len` clusters, it is the old chain
/// followed by the new clusters, which were free before.
pub proof fn lemma_extended_chain(
    entries: Seq<ClusterEntry>,
    start: u32,
    chain: Seq<u32>,
    len: int,
)
    requires
        entries.len() <= u32::MAX,
        is_chain(entries, start, chain),
        1 <= len <= free_count(entries),
    ensures
        ({
            let added = free_order(entries, (chain.last() + 1) as u32).take(len);
            &&& added.len() == len
            &&& added.last() == free_order(entries, (chain.last() + 1) as u32)[len - 1]
            &&& chain_of(extended(entries, chain.last(), len), start) == Some(chain + added)
            &&& forall|i: int|
                0 <= i < len ==> is_cluster(entries, #[trigger] added[i] as int)
                    && entries[added[i] as int] == ClusterEntry::Free
        }),
{
    let added = free_order(entries, (chain.last() + 1) as u32).take(len);
    let after = extended(entries, chain.last(), len);
    let whole = chain + added;
    lemma_extended_entries(entries, start, chain, len);
    assert forall|i: int| 0 <= i < whole.len() implies is_cluster(after, #[trigger] whole[i] as int) by {
        if i < chain.len() {
            assert(whole[i] == chain[i]);
            assert(is_cluster(entries, chain[i] as int));
        } else {
            assert(whole[i] == added[i - chain.len()]);
            assert(is_cluster(entries, added[i - chain.len()] as int));
        }
    }
    assert forall|i: int| 0 <= i < whole.len() - 1 implies after[#[trigger] whole[i] as int]
        == ClusterEntry::Used(whole[i + 1]) by {
        if i < chain.len() - 1 {
            assert(whole[i] == chain[i]);
            assert(whole[i + 1] == chain[i + 1]);
            assert(after[chain[i] as int] == entries[chain[i] as int]);
            assert(entries[chain[i] as int] == ClusterEntry::Used(chain[i + 1]));
        } else if i == chain.len() - 1 {
            assert(whole[i] == chain.last());
            assert(whole[i + 1] == added[0]);
        } else {
            let j = i - chain.len();
            assert(whole[i] == added[j]);
            assert(whole[i + 1] == added[j + 1]);
            assert(after[added[j] as int] == ClusterEntry::Used(added[j + 1]));
        }
    }
    assert(whole.last() == added.last());
    assert(whole[0] == chain[0]);
    lemma_chain_of(after, start, whole);
}

/// The table in which the clusters of `chain` from the index `keep` up to,
/// not including, `upto` have been marked free, and the cluster before
/// them, where there is one, marked as the end of the chain.
pub open spec fn released(entries: Seq<ClusterEntry>, chain: Seq<u32>, keep: int, upto: int) -> Seq<
    ClusterEntry,
> {
    Seq::new(
        entries.len(),
        |c: int|
            if occurs(chain, c) && keep <= position(chain, c) < upto {
                ClusterEntry::Free
            } else if occurs(chain, c) && position(chain, c) == keep - 1 {
                ClusterEntry::EndOfChain
            } else {
                entries[c]
            },
    )
}

/// The table after `chain` has been cut down to its first `keep` clusters.
/// A chain that is no longer than that stays as it is.
pub open spec fn truncated(entries: Seq<ClusterEntry>, chain: Seq<u32>, keep: int) -> Seq<
    ClusterEntry,
> {
    released(entries, chain, keep, chain.len() as int)
}

/// Marking the new end of a chain is the first step of releasing its tail.
pub proof fn lemma_released_start(entries: Seq<ClusterEntry>, chain: Seq<u32>, keep: int)
    requires
        chain.no_duplicates(),
        forall|i: int| 0 <= i < chain.len() ==> 0 <= #[trigger] chain[i] < entries.len(),
        0 <= keep <= chain.len(),
    ensures
        keep == 0 ==> released(entries, chain, keep, keep) == entries,
        keep > 0 ==> released(entries, chain, keep, keep) == entries.update(
            chain[keep - 1] as int,
            ClusterEntry::EndOfChain,
        ),
{
    let expected = if keep == 0 {
        entries
    } else {
        entries.update(chain[keep - 1] as int, ClusterEntry::EndOfChain)
    };
    assert forall|c: int| 0 <= c < entries.len() implies released(entries, chain, keep, keep)[c]
        == expected[c] by {
        if keep > 0 {
            lemma_position(chain, keep - 1);
        }
        if occurs(chain, c) {
            lemma_position(chain, position(chain, c));
        }
    }
    assert(released(entries, chain, keep, keep) =~= expected);
}

/// Releasing one more cluster of the tail writes one entry.
pub proof fn lemma_released_step(entries: Seq<ClusterEntry>, chain: Seq<u32>, keep: int, upto: int)
    requires
        chain.no_duplicates(),
        forall|i: int| 0 <= i < chain.len() ==> 0 <= #[trigger] chain[i] < entries.len(),
        0 <= keep <= upto < chain.len(),
    ensures
        released(entries, chain, keep, upto + 1) == released(entries, chain, keep, upto).update(
            chain[upto] as int,
            ClusterEntry::Free,
        ),
{
    let expected = released(entries, chain, keep, upto).update(
        chain[upto] as int,
        ClusterEntry::Free,
    );
    lemma_position(chain, upto);
    assert forall|c: int| 0 <= c < entries.len() implies released(entries, chain, keep, upto + 1)[c]
        == expected[c] by {
        if occurs(chain, c) {
            lemma_position(chain, position(chain, c));
        }
    }
    assert(released(entries, chain, keep, upto + 1) =~= expected);
}

/// Releasing clusters of a chain frees exactly as many clusters as are
/// released.
pub proof fn lemma_released_free_count(
    entries: Seq<ClusterEntry>,
    start: u32,
    chain: Seq<u32>,
    keep: int,
    upto: int,
)
    requires
        is_chain(entries, start, chain),
        0 <= keep <= upto <= chain.len(),
    ensures
        free_count(released(entries, chain, keep, upto)) == free_count(entries) + (upto - keep),
    decreases upto - keep,
{
    lemma_chain_no_duplicates(entries, start, chain);
    assert forall|i: int| 0 <= i < chain.len() implies 0 <= #[trigger] chain[i] < entries.len() by {
        assert(is_cluster(entries, chain[i] as int));
    }
    if upto == keep {
        lemma_released_start(entries, chain, keep);
        if keep > 0 {
            let c = chain[keep - 1] as int;
            assert(is_cluster(entries, c));
            if keep < chain.len() {
                assert(entries[c] == ClusterEntry::Used(chain[keep]));
            }
            lemma_free_in_update(entries, 2, entries.len() as int, c, ClusterEntry::EndOfChain);
        }
    } else {
        lemma_released_free_count(entries, start, chain, keep, upto - 1);
        lemma_released_step(entries, chain, keep, upto - 1);
        let before = released(entries, chain, keep, upto - 1);
        let c = chain[upto - 1] as int;
        assert(is_cluster(entries, c));
        lemma_position(chain, upto - 1);
        assert(before[c] == entries[c]);
        if upto - 1 < chain.len() - 1 {
            assert(entries[c] == ClusterEntry::Used(chain[upto]));
        }
        lemma_free_in_update(before, 2, entries.len() as int, c, ClusterEntry::Free);
    }
}

/// After a chain of `L` clusters has been cut down to `keep` clusters, with
/// `1 <= keep <= L`, the chain of its first cluster has exactly `keep`
/// clusters, and exactly `L - keep` clusters have become free: those of the
/// tail, and no others.
pub proof fn lemma_truncated_chain(
    entries: Seq<ClusterEntry>,
    start: u32,
    chain: Seq<u32>,
    keep: int,
)
    requires
        is_chain(entries, start, chain),
        1 <= keep <= chain.len(),
    ensures
        chain_of(truncated(entries, chain, keep), start) == Some(chain.take(keep)),
        chain.take(keep).len() == keep,
        free_count(truncated(entries, chain, keep)) == free_count(entries) + (chain.len() - keep),
        forall|c: int|
            0 <= c < entries.len() ==> (#[trigger] truncated(entries, chain, keep)[c]
                == ClusterEntry::Free && entries[c] != ClusterEntry::Free <==> occurs(chain, c)
                && position(chain, c) >= keep),
{
    let after = truncated(entries, chain, keep);
    let kept = chain.take(keep);
    lemma_chain_no_duplicates(entries, start, chain);
    lemma_released_free_count(entries, start, chain, keep, chain.len() as int);
    assert forall|i: int| 0 <= i < kept.len() implies is_cluster(after, #[trigger] kept[i] as int) by {
        assert(kept[i] == chain[i]);
        assert(is_cluster(entries, chain[i] as int));
    }
    assert forall|i: int| 0 <= i < kept.len() - 1 implies after[#[trigger] kept[i] as int]
        == ClusterEntry::Used(kept[i + 1]) by {
        assert(kept[i] == chain[i]);
        assert(kept[i + 1] == chain[i + 1]);
        assert(is_cluster(entries, chain[i] as int));
        lemma_position(chain, i);
        assert(entries[chain[i] as int] == ClusterEntry::Used(chain[i + 1]));
    }
    assert(kept.last() == chain[keep - 1]);
    assert(is_cluster(entries, chain[keep - 1] as int));
    lemma_position(chain, keep - 1);
    assert(kept[0] == chain[0]);
    lemma_chain_of(after, start, kept);
    assert forall|c: int| 0 <= c < entries.len() implies (#[trigger] truncated(
        entries,
        chain,
        keep,
    )[c] == ClusterEntry::Free && entries[c] != ClusterEntry::Free <==> occurs(chain, c)
        && position(chain, c) >= keep) by {
        if occurs(chain, c) {
            let i = position(chain, c);
            assert(chain[i] == c);
            if i < chain.len() - 1 {
                assert(entries[chain[i] as int] == ClusterEntry::Used(chain[i + 1]));
            }
        }
    }
}

/// Cutting a chain down to no less than its length changes nothing.
pub proof fn lemma_same_when_all_kept(
    entries: Seq<ClusterEntry>,
    start: u32,
    chain: Seq<u32>,
    keep: int,
)
    requires
        is_chain(entries, start, chain),
        chain.len() <= keep,
    ensures
        truncated(entries, chain, keep) == entries,
{
    lemma_chain_no_duplicates(entries, start, chain);
    assert forall|c: int| 0 <= c < entries.len() implies truncated(entries, chain, keep)[c]
        == entries[c] by {
        if occurs(chain, c) {
            let i = position(chain, c);
            assert(chain[i] == c);
        }
    }
    assert(truncated(entries, chain, keep) =~= entries);
}

/// A chain stays the chain that it is where the entries of its clusters
/// stay as they are.
pub proof fn lemma_chain_frame(
    before: Seq<ClusterEntry>,
    after: Seq<ClusterEntry>,
    start: u32,
    chain: Seq<u32>,
)
    requires
        is_chain(before, start, chain),
        after.len() == before.len(),
        forall|i: int| 0 <= i < chain.len() ==> after[#[trigger] chain[i] as int] == before[chain[i] as int],
    ensures
        is_chain(after, start, chain),
        chain_of(after, start) == Some(chain),
{
    assert forall|i: int| 0 <= i < chain.len() implies is_cluster(after, #[trigger] chain[i] as int) by {
        assert(is_cluster(before, chain[i] as int));
    }
    assert forall|i: int| 0 <= i < chain.len() - 1 implies after[#[trigger] chain[i] as int]
        == ClusterEntry::Used(chain[i + 1]) by {
        assert(before[chain[i] as int] == ClusterEntry::Used(chain[i + 1]));
    }
    lemma_chain_of(after, start, chain);
}

/// No cluster of a chain is free.
pub proof fn lemma_chain_in_use(entries: Seq<ClusterEntry>, start: u32, chain: Seq<u32>, i: int)
    requires
        is_chain(entries, start, chain),
        0 <= i < chain.len(),
    ensures
        is_cluster(entries, chain[i] as int),
        entries[chain[i] as int] != ClusterEntry::Free,
{
    assert(is_cluster(entries, chain[i] as int));
    if i < chain.len() - 1 {
        assert(entries[chain[i] as int] == ClusterEntry::Used(chain[i + 1]));
    }
}

/// Extending a chain writes the entry of its last cluster and the entries
/// of clusters that were free, and no other.
pub proof fn lemma_extended_frame(
    entries: Seq<ClusterEntry>,
    start: u32,
    chain: Seq<u32>,
    len: int,
)
    requires
        entries.len() <= u32::MAX,
        is_chain(entries, start, chain),
        1 <= len <= free_count(entries),
    ensures
        extended(entries, chain.last(), len).len() == entries.len(),
        forall|c: int|
            0 <= c < entries.len() && entries[c] != ClusterEntry::Free && c != chain.last()
                ==> #[trigger] extended(entries, chain.last(), len)[c] == entries[c],
{
    let last = chain.last();
    assert(is_cluster(entries, last as int));
    let hint = (last + 1) as u32;
    lemma_allocated_chain(entries, hint, len);
    let added = free_order(entries, hint).take(len);
    assert forall|c: int|
        0 <= c < entries.len() && entries[c] != ClusterEntry::Free && c != last implies #[trigger] extended(
        entries,
        last,
        len,
    )[c] == entries[c] by {
        if occurs(added, c) {
            let j = position(added, c);
            assert(entries[added[j] as int] == ClusterEntry::Free);
        }
    }
}

/// The allocation of a single cluster marks the first free cluster that
/// the scan comes by as the end of a chain, and writes no other entry.
pub proof fn lemma_allocated_one(entries: Seq<ClusterEntry>, hint: u32)
    requires
        2 <= entries.len() <= u32::MAX,
        1 <= free_count(entries),
    ensures
        ({
            let head = free_order(entries, hint)[0];
            &&& is_cluster(entries, head as int)
            &&& entries[head as int] == ClusterEntry::Free
            &&& allocated(entries, hint, 1) == entries.update(head as int, ClusterEntry::EndOfChain)
            &&& chain_of(allocated(entries, hint, 1), head) == Some(seq![head])
        }),
{
    lemma_allocated_chain(entries, hint, 1);
    let picked = free_order(entries, hint).take(1);
    let head = free_order(entries, hint)[0];
    assert(picked =~= seq![head]);
    assert(picked[0] == head);
    let after = allocated(entries, hint, 1);
    assert forall|c: int| 0 <= c < entries.len() implies after[c] == entries.update(
        head as int,
        ClusterEntry::EndOfChain,
    )[c] by {
        if c == head {
            lemma_position(picked, 0);
        } else if occurs(picked, c) {
            let k = position(picked, c);
            assert(picked[k] == head);
        }
    }
    assert(after =~= entries.update(head as int, ClusterEntry::EndOfChain));
}

} // verus!
