//! Content classifiers for cluster carving, and the file that a classifier
//! collects.
//!
//! A [`RecoveryFactory`] looks at a free cluster and decides whether a file
//! starts there. If so it hands out a [`Recovery`] state, which then judges
//! every later cluster. A [`RecoveryFile`] pairs such a state with the
//! clusters it has accepted and their bytes.
use vstd::prelude::*;
use vstd::slice::slice_to_vec;

verus! {

/// Verdict of a per-file classifier on one candidate cluster.
#[derive(Debug, PartialEq, Eq, Clone, Copy, Structural)]
pub enum ClusterBelongs {
    /// The cluster is not part of the file; a later one still may be.
    NotToFile,
    /// The cluster is part of the file and is its last one.
    IsEndOfFile,
    /// The cluster is part of the file and more may follow.
    ToFile,
}

impl ClusterBelongs {
    /// Whether the verdict makes the cluster part of the file.
    pub open spec fn accepts(self) -> bool {
        self != ClusterBelongs::NotToFile
    }
}

/// Per-file classifier: judges, cluster by cluster, what belongs to one file.
///
/// The two spec functions name what an implementation does: the verdict on
/// a cluster in a given state, and the state that follows. The method's
/// contract says that both are functions of the state and of the bytes of
/// the cluster alone, and everything that this crate proves of a scan rests
/// on that. An implementation written in Verus defines the two functions and
/// proves its method against them. One written in plain Rust leaves them as
/// they are; what is proved then holds of it as far as its verdict and its
/// next state depend on nothing but its state and the bytes. An
/// implementation that reads a clock, a random number or state that it
/// shares with others is outside of what is proved.
pub trait Recovery: Sized {
    /// The verdict that this state gives on a cluster with the bytes `cluster`.
    open spec fn verdict(&self, cluster: Seq<u8>) -> ClusterBelongs {
        arbitrary()
    }

    /// The state after this one has judged a cluster with the bytes `cluster`.
    open spec fn advanced(&self, cluster: Seq<u8>) -> Self {
        arbitrary()
    }

    fn cluster_belongs_to_file(&mut self, cluster: &[u8]) -> (verdict: ClusterBelongs)
        ensures
            verdict == old(self).verdict(cluster@),
            *final(self) == old(self).advanced(cluster@),
    ;
}

/// Classifier of first clusters: decides whether a file starts in a cluster.
///
/// As with [`Recovery`], the contract of the method says that its result and
/// the factory that it leaves are functions of the factory and of the bytes
/// of the cluster alone; an implementation of which that is not true is
/// outside of what is proved.
pub trait RecoveryFactory: Sized {
    type State: Recovery;

    /// The classifier state for the file that starts in a cluster with the
    /// bytes `cluster`, or `None` where no file starts there.
    open spec fn start(&self, cluster: Seq<u8>) -> Option<Self::State> {
        arbitrary()
    }

    /// The factory after it has looked at a cluster with the bytes `cluster`.
    open spec fn advanced(&self, cluster: Seq<u8>) -> Self {
        arbitrary()
    }

    fn is_start_of_file(&mut self, cluster: &[u8]) -> (state: Option<Self::State>)
        ensures
            state == old(self).start(cluster@),
            *final(self) == old(self).advanced(cluster@),
    ;
}

/// What a [`RecoveryFile`] holds, as mathematical values.
pub struct FileModel<T> {
    /// The classifier state of the file.
    pub state: T,
    /// The clusters accepted so far, first cluster first.
    pub clusters: Seq<u32>,
    /// The bytes of those clusters, in the same order.
    pub data: Seq<u8>,
}

impl<T: Recovery> FileModel<T> {
    /// The file that was just opened on its first cluster.
    pub open spec fn seeded(state: T, first_cluster: u32, data: Seq<u8>) -> Self {
        FileModel { state, clusters: seq![first_cluster], data }
    }

    /// The file after `verdict` on a cluster has been applied: an accepted
    /// cluster and its bytes are appended, a rejected one changes nothing.
    pub open spec fn applied(self, verdict: ClusterBelongs, cluster: u32, bytes: Seq<u8>) -> Self {
        if verdict.accepts() {
            FileModel { state: self.state, clusters: self.clusters.push(cluster), data: self.data + bytes }
        } else {
            self
        }
    }

    /// The file after the cluster has been offered to its classifier.
    pub open spec fn offered(self, cluster: u32, bytes: Seq<u8>) -> Self {
        FileModel { state: self.state.advanced(bytes), ..self }.applied(
            self.state.verdict(bytes),
            cluster,
            bytes,
        )
    }
}

/// A file under reconstruction: a classifier state, the clusters it has
/// accepted and their bytes.
pub struct RecoveryFile<T: Recovery> {
    state: T,
    clusters: Vec<u32>,
    data: Vec<u8>,
}

impl<T: Recovery> View for RecoveryFile<T> {
    type V = FileModel<T>;

    closed spec fn view(&self) -> FileModel<T> {
        FileModel { state: self.state, clusters: self.clusters@, data: self.data@ }
    }
}

impl<T: Recovery> RecoveryFile<T> {
    /// Opens a file on its first cluster.
    pub fn new(state: T, first_cluster: u32, data: Vec<u8>) -> (file: Self)
        ensures
            file@ == FileModel::seeded(state, first_cluster, data@),
    {
        let clusters = vec![first_cluster];
        assert(clusters@ =~= seq![first_cluster]);
        Self { state, clusters, data }
    }

    /// Applies a verdict that was already obtained: appends the cluster and
    /// its bytes where the verdict accepts it.
    pub fn apply_verdict(&mut self, verdict: ClusterBelongs, cluster: u32, data: &[u8])
        ensures
            final(self)@ == old(self)@.applied(verdict, cluster, data@),
    {
        if verdict == ClusterBelongs::ToFile || verdict == ClusterBelongs::IsEndOfFile {
            self.clusters.push(cluster);
            let mut data = slice_to_vec(data);
            self.data.append(&mut data);
        }
    }

    /// Offers a cluster to the file's classifier and appends it where the
    /// classifier accepts it. Returns the classifier's verdict.
    pub fn cluster_belongs_to_file(&mut self, cluster: u32, data: &[u8]) -> (verdict: ClusterBelongs)
        ensures
            verdict == old(self)@.state.verdict(data@),
            final(self)@ == old(self)@.offered(cluster, data@),
    {
        let result = self.state.cluster_belongs_to_file(data);
        self.apply_verdict(result, cluster, data);
        result
    }

    /// The number of clusters accepted so far, the first one included.
    pub fn cluster_count(&self) -> (n: usize)
        ensures
            n == self@.clusters.len(),
    {
        self.clusters.len()
    }

    /// The clusters accepted so far, the first cluster first.
    pub fn clusters(&self) -> (clusters: &Vec<u32>)
        ensures
            clusters@ == self@.clusters,
    {
        &self.clusters
    }

    /// The classifier state of the file.
    pub fn state(&self) -> (state: &T)
        ensures
            *state == self@.state,
    {
        &self.state
    }

    /// Gives up the file for its bytes and its classifier state.
    pub fn get_data(self) -> (parts: (Vec<u8>, T))
        ensures
            parts.0@ == self@.data,
            parts.1 == self@.state,
    {
        (self.data, self.state)
    }
}

} // verus!
