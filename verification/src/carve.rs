//! The carving engine: rebuilds files from free clusters with the help of
//! content classifiers.
//!
//! The free clusters are scanned once, in the order given. Each cluster is
//! first shown to the factory; where the factory sees the start of a file, a
//! new file is opened on that cluster. Any other cluster is offered to the
//! open files, oldest first, until one of them accepts it. A file closes
//! when its classifier reports the end of the file. At the end, files with
//! too few or too many clusters are dropped.
use crate::recovery::{ClusterBelongs, FileModel, Recovery, RecoveryFactory, RecoveryFile};
use vstd::prelude::*;
use vstd::slice::slice_to_vec;

verus! {

/// A file under reconstruction together with its place in the scan, as
/// mathematical values.
pub struct CandidateModel<T> {
    /// The file collected so far.
    pub file: FileModel<T>,
    /// Whether the file still takes clusters.
    pub open: bool,
}

/// The state of a scan, as mathematical values.
pub struct CarverModel<F: RecoveryFactory> {
    /// The factory, as it is after the clusters seen so far.
    pub factory: F,
    /// Every file opened so far, in the order of opening.
    pub candidates: Seq<CandidateModel<F::State>>,
}

/// Offers a cluster to the open files among `candidates[from..]`, in order,
/// until one accepts it. A file that accepts with `IsEndOfFile` closes.
/// Closed files are passed over; so is every file behind the one that
/// accepted.
pub open spec fn offered_from<T: Recovery>(
    candidates: Seq<CandidateModel<T>>,
    from: int,
    cluster: u32,
    bytes: Seq<u8>,
) -> Seq<CandidateModel<T>>
    decreases candidates.len() - from,
{
    if from < 0 || from >= candidates.len() {
        candidates
    } else if !candidates[from].open {
        offered_from(candidates, from + 1, cluster, bytes)
    } else {
        let verdict = candidates[from].file.state.verdict(bytes);
        let next = candidates.update(
            from,
            CandidateModel {
                file: candidates[from].file.offered(cluster, bytes),
                open: verdict != ClusterBelongs::IsEndOfFile,
            },
        );
        if verdict.accepts() {
            next
        } else {
            offered_from(next, from + 1, cluster, bytes)
        }
    }
}

/// The files of `candidates` whose cluster count lies in
/// `[min_clusters, max_clusters]`, in the same order.
pub open spec fn within_bounds<T>(
    candidates: Seq<CandidateModel<T>>,
    min_clusters: usize,
    max_clusters: usize,
) -> Seq<FileModel<T>> {
    candidates.filter(
        |c: CandidateModel<T>| min_clusters <= c.file.clusters.len() <= max_clusters,
    ).map_values(|c: CandidateModel<T>| c.file)
}

impl<F: RecoveryFactory> CarverModel<F> {
    /// The scan before any cluster has been seen.
    pub open spec fn fresh(factory: F) -> Self {
        CarverModel { factory, candidates: Seq::empty() }
    }

    /// The scan after one more cluster: a cluster in which the factory sees
    /// the start of a file opens a new file, any other is offered to the open
    /// files.
    pub open spec fn offered(self, cluster: u32, bytes: Seq<u8>) -> Self {
        let factory = self.factory.advanced(bytes);
        match self.factory.start(bytes) {
            Some(state) => CarverModel {
                factory,
                candidates: self.candidates.push(
                    CandidateModel { file: FileModel::seeded(state, cluster, bytes), open: true },
                ),
            },
            None => CarverModel {
                factory,
                candidates: offered_from(self.candidates, 0, cluster, bytes),
            },
        }
    }

    /// The scan after the clusters of `clusters`, each a cluster number with
    /// its bytes, have been offered in order.
    pub open spec fn scanned(self, clusters: Seq<(u32, Seq<u8>)>) -> Self
        decreases clusters.len(),
    {
        if clusters.len() == 0 {
            self
        } else {
            self.scanned(clusters.drop_last()).offered(clusters.last().0, clusters.last().1)
        }
    }

    /// The files that the scan gives back.
    pub open spec fn kept(self, min_clusters: usize, max_clusters: usize) -> Seq<
        FileModel<F::State>,
    > {
        within_bounds(self.candidates, min_clusters, max_clusters)
    }
}

/// What carving gives back for a factory and a list of free clusters.
pub open spec fn recovered<F: RecoveryFactory>(
    factory: F,
    clusters: Seq<(u32, Seq<u8>)>,
    min_clusters: usize,
    max_clusters: usize,
) -> Seq<FileModel<F::State>> {
    CarverModel::fresh(factory).scanned(clusters).kept(min_clusters, max_clusters)
}

/// The models of a list of files.
pub open spec fn file_models<T: Recovery>(files: Seq<RecoveryFile<T>>) -> Seq<FileModel<T>> {
    files.map_values(|f: RecoveryFile<T>| f@)
}

struct Candidate<T: Recovery> {
    file: RecoveryFile<T>,
    open: bool,
}

impl<T: Recovery> View for Candidate<T> {
    type V = CandidateModel<T>;

    closed spec fn view(&self) -> CandidateModel<T> {
        CandidateModel { file: self.file@, open: self.open }
    }
}

/// A scan in progress.
pub struct Carver<F: RecoveryFactory> {
    factory: F,
    candidates: Vec<Candidate<F::State>>,
}

impl<F: RecoveryFactory> View for Carver<F> {
    type V = CarverModel<F>;

    closed spec fn view(&self) -> CarverModel<F> {
        CarverModel {
            factory: self.factory,
            candidates: self.candidates@.map_values(|c: Candidate<F::State>| c@),
        }
    }
}

impl<F: RecoveryFactory> Carver<F> {
    /// Starts a scan.
    pub fn new(factory: F) -> (carver: Self)
        ensures
            carver@ == CarverModel::fresh(factory),
    {
        let carver = Carver { factory, candidates: Vec::new() };
        assert(carver@.candidates =~= Seq::empty());
        carver
    }

    /// The number of files opened so far.
    pub fn file_count(&self) -> (n: usize)
        ensures
            n == self@.candidates.len(),
    {
        self.candidates.len()
    }

    /// Takes the next free cluster of the scan.
    pub fn offer(&mut self, cluster: u32, bytes: &[u8])
        ensures
            final(self)@ == old(self)@.offered(cluster, bytes@),
    {
        match self.factory.is_start_of_file(bytes) {
            Some(state) => {
                let file = RecoveryFile::new(state, cluster, slice_to_vec(bytes));
                self.candidates.push(Candidate { file, open: true });
                assert(self@.candidates =~= old(self)@.offered(cluster, bytes@).candidates);
            },
            None => {
                self.offer_to_open(cluster, bytes);
            },
        }
    }

    fn offer_to_open(&mut self, cluster: u32, bytes: &[u8])
        ensures
            final(self)@.factory == old(self)@.factory,
            final(self)@.candidates == offered_from(old(self)@.candidates, 0, cluster, bytes@),
    {
        let mut i: usize = 0;
        let mut taken = false;
        while i < self.candidates.len() && !taken
            invariant
                self@.factory == old(self)@.factory,
                i <= self.candidates.len(),
                taken ==> self@.candidates == offered_from(
                    old(self)@.candidates,
                    0,
                    cluster,
                    bytes@,
                ),
                !taken ==> offered_from(self@.candidates, i as int, cluster, bytes@)
                    == offered_from(old(self)@.candidates, 0, cluster, bytes@),
            decreases self.candidates.len() - i + (if taken { 0int } else { 1int }),
        {
            if self.candidates[i].open {
                let ghost before = self@.candidates;
                let verdict = self.candidates[i].file.cluster_belongs_to_file(cluster, bytes);
                if verdict == ClusterBelongs::IsEndOfFile {
                    self.candidates[i].open = false;
                }
                assert(self@.candidates =~= before.update(
                    i as int,
                    CandidateModel {
                        file: before[i as int].file.offered(cluster, bytes@),
                        open: verdict != ClusterBelongs::IsEndOfFile,
                    },
                ));
                if verdict != ClusterBelongs::NotToFile {
                    taken = true;
                }
            }
            if !taken {
                i += 1;
            }
        }
    }

    /// Ends the scan: closes every file and gives back those whose cluster
    /// count lies in `[min_clusters, max_clusters]`, in the order of opening.
    pub fn finish(self, min_clusters: usize, max_clusters: usize) -> (files: Vec<
        RecoveryFile<F::State>,
    >)
        ensures
            file_models(files@) == self@.kept(min_clusters, max_clusters),
    {
        let ghost all = self@.candidates;
        let ghost pred = |c: CandidateModel<F::State>|
            min_clusters <= c.file.clusters.len() <= max_clusters;
        let mut files: Vec<RecoveryFile<F::State>> = Vec::new();
        let mut candidates = self.candidates;
        let mut rest: Vec<Candidate<F::State>> = Vec::new();
        // Reverse once so that the files can be moved out from the back, oldest first.
        while candidates.len() > 0
            invariant
                candidates@.map_values(|c: Candidate<F::State>| c@) + rest@.map_values(
                    |c: Candidate<F::State>| c@,
                ).reverse() == all,
            decreases candidates.len(),
        {
            let ghost c0 = candidates@.map_values(|c: Candidate<F::State>| c@);
            let ghost r0 = rest@.map_values(|c: Candidate<F::State>| c@);
            let last = candidates.pop().unwrap();
            rest.push(last);
            assert(candidates@.map_values(|c: Candidate<F::State>| c@) + rest@.map_values(
                |c: Candidate<F::State>| c@,
            ).reverse() =~= c0 + r0.reverse());
        }
        assert(rest@.map_values(|c: Candidate<F::State>| c@).reverse() =~= all);
        let ghost mut done: Seq<CandidateModel<F::State>> = Seq::empty();
        assert(file_models(files@) =~= done.filter(pred).map_values(
            |c: CandidateModel<F::State>| c.file,
        ));
        while rest.len() > 0
            invariant
                done + rest@.map_values(|c: Candidate<F::State>| c@).reverse() == all,
                file_models(files@) == done.filter(pred).map_values(
                    |c: CandidateModel<F::State>| c.file,
                ),
                pred == |c: CandidateModel<F::State>|
                    min_clusters <= c.file.clusters.len() <= max_clusters,
            decreases rest.len(),
        {
            let ghost r0 = rest@.map_values(|c: Candidate<F::State>| c@);
            let ghost f0 = file_models(files@);
            let candidate = rest.pop().unwrap();
            proof {
                assert(done.push(candidate@) + rest@.map_values(
                    |c: Candidate<F::State>| c@,
                ).reverse() =~= done + r0.reverse());
                done.lemma_filter_push(candidate@, pred);
            }
            let n = candidate.file.cluster_count();
            if min_clusters <= n && n <= max_clusters {
                files.push(candidate.file);
                assert(file_models(files@) =~= f0.push(candidate@.file));
                assert(done.push(candidate@).filter(pred).map_values(
                    |c: CandidateModel<F::State>| c.file,
                ) =~= f0.push(candidate@.file));
            }
            proof {
                done = done.push(candidate@);
            }
        }
        assert(done =~= all);
        files
    }
}

/// Carves files out of the free clusters `clusters`, each a cluster number
/// with its bytes, scanned in the order given. Gives back the files whose
/// cluster count lies in `[min_clusters, max_clusters]`, in the order in
/// which they were opened.
pub fn recover<F: RecoveryFactory>(
    factory: F,
    clusters: &Vec<(u32, Vec<u8>)>,
    min_clusters: usize,
    max_clusters: usize,
) -> (files: Vec<RecoveryFile<F::State>>)
    ensures
        file_models(files@) == recovered(
            factory,
            clusters.deep_view(),
            min_clusters,
            max_clusters,
        ),
{
    let mut carver = Carver::new(factory);
    let mut i: usize = 0;
    while i < clusters.len()
        invariant
            i <= clusters.len(),
            carver@ == CarverModel::fresh(factory).scanned(clusters.deep_view().take(i as int)),
        decreases clusters.len() - i,
    {
        carver.offer(clusters[i].0, clusters[i].1.as_slice());
        proof {
            let all = clusters.deep_view();
            assert(all.take(i + 1).drop_last() =~= all.take(i as int));
            assert(all.take(i + 1).last() == all[i as int]);
            assert(all[i as int] == (clusters[i as int].0, clusters[i as int].1@));
        }
        i += 1;
    }
    assert(clusters.deep_view().take(i as int) =~= clusters.deep_view());
    carver.finish(min_clusters, max_clusters)
}

/// Every file that carving gives back has at least `min_clusters` and at
/// most `max_clusters` clusters.
pub proof fn lemma_recovered_within_bounds<F: RecoveryFactory>(
    factory: F,
    clusters: Seq<(u32, Seq<u8>)>,
    min_clusters: usize,
    max_clusters: usize,
    i: int,
)
    requires
        0 <= i < recovered(factory, clusters, min_clusters, max_clusters).len(),
    ensures
        min_clusters <= recovered(factory, clusters, min_clusters, max_clusters)[i].clusters.len()
            <= max_clusters,
{
    let pred = |c: CandidateModel<F::State>| min_clusters <= c.file.clusters.len() <= max_clusters;
    let all = CarverModel::fresh(factory).scanned(clusters).candidates;
    all.lemma_filter_pred(pred, i);
}

/// The number of clusters that the files of `candidates` hold together.
pub open spec fn clusters_held<T>(candidates: Seq<CandidateModel<T>>) -> nat
    decreases candidates.len(),
{
    if candidates.len() == 0 {
        0
    } else {
        clusters_held(candidates.drop_last()) + candidates.last().file.clusters.len()
    }
}

/// Putting another file in the place of one changes the number of clusters
/// held by the difference between the two.
pub proof fn lemma_held_update<T>(
    candidates: Seq<CandidateModel<T>>,
    at: int,
    candidate: CandidateModel<T>,
)
    requires
        0 <= at < candidates.len(),
    ensures
        clusters_held(candidates.update(at, candidate)) + candidates[at].file.clusters.len()
            == clusters_held(candidates) + candidate.file.clusters.len(),
    decreases candidates.len(),
{
    let updated = candidates.update(at, candidate);
    if at == candidates.len() - 1 {
        assert(updated.drop_last() =~= candidates.drop_last());
    } else {
        assert(updated.drop_last() =~= candidates.drop_last().update(at, candidate));
        lemma_held_update(candidates.drop_last(), at, candidate);
    }
}

/// A cluster that is offered to the open files goes to one of them at
/// most: together the files hold no more than one cluster more than before.
pub proof fn lemma_offer_takes_once<T: Recovery>(
    candidates: Seq<CandidateModel<T>>,
    from: int,
    cluster: u32,
    bytes: Seq<u8>,
)
    requires
        0 <= from,
    ensures
        offered_from(candidates, from, cluster, bytes).len() == candidates.len(),
        clusters_held(offered_from(candidates, from, cluster, bytes)) <= clusters_held(candidates)
            + 1,
    decreases candidates.len() - from,
{
    if from < candidates.len() {
        if !candidates[from].open {
            lemma_offer_takes_once(candidates, from + 1, cluster, bytes);
        } else {
            let verdict = candidates[from].file.state.verdict(bytes);
            let next = candidates.update(
                from,
                CandidateModel {
                    file: candidates[from].file.offered(cluster, bytes),
                    open: verdict != ClusterBelongs::IsEndOfFile,
                },
            );
            lemma_held_update(candidates, from, next[from]);
            if !verdict.accepts() {
                lemma_offer_takes_once(next, from + 1, cluster, bytes);
            }
        }
    }
}

/// No cluster goes to two files: after a scan the files hold, together, no
/// more clusters than were scanned.
pub proof fn lemma_scan_takes_once<F: RecoveryFactory>(factory: F, clusters: Seq<(u32, Seq<u8>)>)
    ensures
        clusters_held(CarverModel::fresh(factory).scanned(clusters).candidates) <= clusters.len(),
    decreases clusters.len(),
{
    if clusters.len() > 0 {
        lemma_scan_takes_once(factory, clusters.drop_last());
        let before = CarverModel::fresh(factory).scanned(clusters.drop_last());
        let cluster = clusters.last().0;
        let bytes = clusters.last().1;
        match before.factory.start(bytes) {
            Some(state) => {
                let seed = CandidateModel {
                    file: FileModel::seeded(state, cluster, bytes),
                    open: true,
                };
                assert(before.candidates.push(seed).drop_last() =~= before.candidates);
            },
            None => {
                lemma_offer_takes_once(before.candidates, 0, cluster, bytes);
            },
        }
    }
}

/// The numbers of the clusters at the places `picks` of a scan.
pub open spec fn picked_numbers(clusters: Seq<(u32, Seq<u8>)>, picks: Seq<int>) -> Seq<u32> {
    Seq::new(picks.len(), |k: int| clusters[picks[k]].0)
}

/// The bytes of the clusters at the places `picks` of a scan, one cluster
/// after the other.
pub open spec fn picked_bytes(clusters: Seq<(u32, Seq<u8>)>, picks: Seq<int>) -> Seq<u8>
    decreases picks.len(),
{
    if picks.len() == 0 {
        Seq::empty()
    } else {
        picked_bytes(clusters, picks.drop_last()) + clusters[picks.last()].1
    }
}

/// Whether the file holds the clusters at the places `picks` of a scan:
/// the places go forward through the scan, the clusters of the file are the
/// clusters at these places, and its bytes are their bytes.
pub open spec fn gathers<T>(
    clusters: Seq<(u32, Seq<u8>)>,
    picks: Seq<int>,
    file: FileModel<T>,
) -> bool {
    &&& forall|k: int| 0 <= k < picks.len() ==> 0 <= #[trigger] picks[k] < clusters.len()
    &&& forall|k: int, l: int| 0 <= k < l < picks.len() ==> picks[k] < picks[l]
    &&& file.clusters == picked_numbers(clusters, picks)
    &&& file.data == picked_bytes(clusters, picks)
}

/// The bytes at places are the same in scans that hold the same clusters at
/// these places.
pub proof fn lemma_picked_same(a: Seq<(u32, Seq<u8>)>, b: Seq<(u32, Seq<u8>)>, picks: Seq<int>)
    requires
        forall|k: int| 0 <= k < picks.len() ==> a[#[trigger] picks[k]] == b[picks[k]],
    ensures
        picked_bytes(a, picks) == picked_bytes(b, picks),
        picked_numbers(a, picks) == picked_numbers(b, picks),
    decreases picks.len(),
{
    if picks.len() > 0 {
        assert forall|k: int| 0 <= k < picks.drop_last().len() implies a[#[trigger] picks.drop_last()[k]]
            == b[picks.drop_last()[k]] by {
            assert(picks.drop_last()[k] == picks[k]);
        }
        lemma_picked_same(a, b, picks.drop_last());
        assert(a[picks[picks.len() - 1]] == b[picks[picks.len() - 1]]);
    }
    assert(picked_numbers(a, picks) =~= picked_numbers(b, picks));
}

/// A cluster that is offered to the open files leaves each file as it was
/// or adds itself and its bytes to it.
pub proof fn lemma_offer_adds<T: Recovery>(
    candidates: Seq<CandidateModel<T>>,
    from: int,
    cluster: u32,
    bytes: Seq<u8>,
    j: int,
)
    requires
        0 <= from,
        0 <= j < candidates.len(),
    ensures
        offered_from(candidates, from, cluster, bytes).len() == candidates.len(),
        ({
            let now = offered_from(candidates, from, cluster, bytes)[j].file;
            let was = candidates[j].file;
            ||| now.clusters == was.clusters && now.data == was.data
            ||| now.clusters == was.clusters.push(cluster) && now.data == was.data + bytes
        }),
    decreases candidates.len() - from,
{
    if from < candidates.len() {
        if !candidates[from].open {
            lemma_offer_adds(candidates, from + 1, cluster, bytes, j);
        } else {
            let verdict = candidates[from].file.state.verdict(bytes);
            let next = candidates.update(
                from,
                CandidateModel {
                    file: candidates[from].file.offered(cluster, bytes),
                    open: verdict != ClusterBelongs::IsEndOfFile,
                },
            );
            if !verdict.accepts() {
                lemma_offer_adds(next, from + 1, cluster, bytes, j);
            }
        }
    }
}

/// Every file of a scan holds clusters of the scan, in the order of the
/// scan, and its bytes are the bytes of these clusters: the lemma gives the
/// places of the clusters of the file `j`.
pub proof fn lemma_scan_gathers<F: RecoveryFactory>(
    factory: F,
    clusters: Seq<(u32, Seq<u8>)>,
    j: int,
) -> (picks: Seq<int>)
    requires
        0 <= j < CarverModel::fresh(factory).scanned(clusters).candidates.len(),
    ensures
        gathers(clusters, picks, CarverModel::fresh(factory).scanned(clusters).candidates[j].file),
    decreases clusters.len(),
{
    if clusters.len() == 0 {
        Seq::empty()
    } else {
        let shorter = clusters.drop_last();
        let before = CarverModel::fresh(factory).scanned(shorter);
        let after = CarverModel::fresh(factory).scanned(clusters);
        let cluster = clusters.last().0;
        let bytes = clusters.last().1;
        let last = clusters.len() - 1;
        let started = before.factory.start(bytes) is Some;
        if started && j == before.candidates.len() {
            let picks = seq![last];
            reveal_with_fuel(picked_bytes, 2);
            assert(picks.drop_last() =~= Seq::<int>::empty());
            assert(picked_bytes(clusters, picks.drop_last()) =~= Seq::<u8>::empty());
            assert(picked_bytes(clusters, picks) =~= bytes);
            assert(picked_numbers(clusters, picks) =~= seq![cluster]);
            picks
        } else {
            if !started {
                lemma_offer_takes_once(before.candidates, 0, cluster, bytes);
                lemma_offer_adds(before.candidates, 0, cluster, bytes, j);
            }
            let old_picks = lemma_scan_gathers(factory, shorter, j);
            assert forall|k: int| 0 <= k < old_picks.len() implies shorter[#[trigger] old_picks[k]]
                == clusters[old_picks[k]] by {}
            lemma_picked_same(shorter, clusters, old_picks);
            let was = before.candidates[j].file;
            let now = after.candidates[j].file;
            if now.clusters == was.clusters && now.data == was.data {
                old_picks
            } else {
                let picks = old_picks.push(last);
                assert(picks.drop_last() =~= old_picks);
                assert(picked_numbers(clusters, picks) =~= picked_numbers(clusters, old_picks).push(
                    cluster,
                ));
                picks
            }
        }
    }
}

} // verus!
