//! What the node and the metadata service tell each other about a value.
use crate::bytes::copy_bytes;
#[allow(unused_imports)]
use crate::bytes::{lemma_views_push, lemma_views_take, views};
use crate::version_layout::{copy_extents, ExtentRecord};
#[allow(unused_imports)]
use crate::version_layout::ExtentView;
use vstd::prelude::*;

verus! {

/// How safely a replica is kept.
#[derive(Clone, Copy, Debug, PartialEq, Eq, Structural)]
pub enum DurabilityPolicy {
    LocalMemory,
    ReplicatedMemory,
}

/// What a version is.
#[derive(Clone, Copy, Debug, PartialEq, Eq, Structural)]
pub enum VersionKind {
    Value,
    Tombstone,
}

/// The layout of a version of a value.
#[derive(Debug, PartialEq, Eq)]
pub struct VersionLayout {
    pub version: u64,
    pub logical_length: u64,
    pub extents: Vec<ExtentRecord>,
    pub digest: Vec<u8>,
    pub kind: VersionKind,
}

/// The layout of a version of a value, as a value.
#[verifier::ext_equal]
pub struct LayoutView {
    pub version: u64,
    pub logical_length: u64,
    pub extents: Seq<ExtentView>,
    pub digest: Seq<u8>,
    pub kind: VersionKind,
}

impl View for VersionLayout {
    type V = LayoutView;

    open spec fn view(&self) -> LayoutView {
        LayoutView {
            version: self.version,
            logical_length: self.logical_length,
            extents: views(self.extents@),
            digest: self.digest@,
            kind: self.kind,
        }
    }
}

/// A node that holds a block.
#[derive(Debug, PartialEq, Eq)]
pub struct ReplicaLocation {
    pub block_id: Vec<u8>,
    pub node_id: u64,
    pub node_epoch: u64,
    pub data_endpoint: String,
    pub checksum: Vec<u8>,
    pub durability: DurabilityPolicy,
}

/// A node that holds a block, as a value.
#[verifier::ext_equal]
pub struct LocationView {
    pub block_id: Seq<u8>,
    pub node_id: u64,
    pub node_epoch: u64,
    pub data_endpoint: Seq<char>,
    pub checksum: Seq<u8>,
    pub durability: DurabilityPolicy,
}

impl View for ReplicaLocation {
    type V = LocationView;

    open spec fn view(&self) -> LocationView {
        LocationView {
            block_id: self.block_id@,
            node_id: self.node_id,
            node_epoch: self.node_epoch,
            data_endpoint: self.data_endpoint@,
            checksum: self.checksum@,
            durability: self.durability,
        }
    }
}

/// The metadata service's word that a node held a block.
#[derive(Debug, PartialEq, Eq)]
pub struct ReplicaProof {
    pub block_id: Vec<u8>,
    pub node_id: u64,
    pub node_epoch: u64,
    pub catalog_revision: u64,
    pub checksum: Vec<u8>,
    pub durability: DurabilityPolicy,
}

/// The metadata service's word that a node held a block, as a value.
#[verifier::ext_equal]
pub struct ProofView {
    pub block_id: Seq<u8>,
    pub node_id: u64,
    pub node_epoch: u64,
    pub catalog_revision: u64,
    pub checksum: Seq<u8>,
    pub durability: DurabilityPolicy,
}

impl View for ReplicaProof {
    type V = ProofView;

    open spec fn view(&self) -> ProofView {
        ProofView {
            block_id: self.block_id@,
            node_id: self.node_id,
            node_epoch: self.node_epoch,
            catalog_revision: self.catalog_revision,
            checksum: self.checksum@,
            durability: self.durability,
        }
    }
}

/// Where a block can be had.
#[derive(Debug, PartialEq, Eq)]
pub struct BlockReplicaSet {
    pub block_id: Vec<u8>,
    pub replicas: Vec<ReplicaLocation>,
    pub length: u64,
    pub proofs: Vec<ReplicaProof>,
}

/// Where a block can be had, as a value.
#[verifier::ext_equal]
pub struct ReplicaSetView {
    pub block_id: Seq<u8>,
    pub replicas: Seq<LocationView>,
    pub length: u64,
    pub proofs: Seq<ProofView>,
}

impl View for BlockReplicaSet {
    type V = ReplicaSetView;

    open spec fn view(&self) -> ReplicaSetView {
        ReplicaSetView {
            block_id: self.block_id@,
            replicas: views(self.replicas@),
            length: self.length,
            proofs: views(self.proofs@),
        }
    }
}

/// The right to answer for the current version of a key for some time.
#[derive(Clone, Copy, Debug, PartialEq, Eq, Structural)]
pub struct CurrentLeaseGrant {
    pub version: u64,
    pub revision: u64,
    pub lease_epoch: u64,
    pub ttl_millis: u64,
    pub leader_epoch: u64,
}

/// What the metadata service says of a key.
#[derive(Debug, PartialEq, Eq)]
pub struct ResolveObjectResponse {
    pub layout: Option<VersionLayout>,
    pub block_replicas: Vec<BlockReplicaSet>,
    pub current_lease: Option<CurrentLeaseGrant>,
}

/// What the metadata service says of a key, as a value.
#[verifier::ext_equal]
pub struct ResolvedView {
    pub layout: Option<LayoutView>,
    pub block_replicas: Seq<ReplicaSetView>,
    pub current_lease: Option<CurrentLeaseGrant>,
}

impl View for ResolveObjectResponse {
    type V = ResolvedView;

    open spec fn view(&self) -> ResolvedView {
        ResolvedView {
            layout: match self.layout {
                Some(layout) => Some(layout@),
                None => None,
            },
            block_replicas: views(self.block_replicas@),
            current_lease: self.current_lease,
        }
    }
}

/// A version that is proposed to the metadata service.
#[derive(Debug, PartialEq, Eq)]
pub struct VersionCandidate {
    pub kind: VersionKind,
    pub logical_length: u64,
    pub extents: Vec<ExtentRecord>,
    pub digest: Vec<u8>,
}

/// A version that is proposed to the metadata service, as a value.
#[verifier::ext_equal]
pub struct CandidateView {
    pub kind: VersionKind,
    pub logical_length: u64,
    pub extents: Seq<ExtentView>,
    pub digest: Seq<u8>,
}

impl View for VersionCandidate {
    type V = CandidateView;

    open spec fn view(&self) -> CandidateView {
        CandidateView {
            kind: self.kind,
            logical_length: self.logical_length,
            extents: views(self.extents@),
            digest: self.digest@,
        }
    }
}

/// A block that the node holds and tells the metadata service of.
#[derive(Debug, PartialEq, Eq)]
pub struct ReplicaReport {
    pub block_id: Vec<u8>,
    pub length: u64,
    pub checksum: Vec<u8>,
    pub durability: DurabilityPolicy,
}

/// A block that the node tells the metadata service of, as a value.
#[verifier::ext_equal]
pub struct ReportView {
    pub block_id: Seq<u8>,
    pub length: u64,
    pub checksum: Seq<u8>,
    pub durability: DurabilityPolicy,
}

impl View for ReplicaReport {
    type V = ReportView;

    open spec fn view(&self) -> ReportView {
        ReportView {
            block_id: self.block_id@,
            length: self.length,
            checksum: self.checksum@,
            durability: self.durability,
        }
    }
}

/// A version of an object that is ready to be committed together with a file's record.
#[derive(Debug, PartialEq, Eq)]
pub struct PreparedObjectVersion {
    pub object_key: Vec<u8>,
    pub expected_object_version: Option<u64>,
    pub candidate: VersionCandidate,
    pub replica_proofs: Vec<ReplicaProof>,
    pub new_replicas: Vec<ReplicaReport>,
}

/// A version of an object that is ready to be committed, as a value.
#[verifier::ext_equal]
pub struct PreparedView {
    pub object_key: Seq<u8>,
    pub expected_object_version: Option<u64>,
    pub candidate: CandidateView,
    pub replica_proofs: Seq<ProofView>,
    pub new_replicas: Seq<ReportView>,
}

impl View for PreparedObjectVersion {
    type V = PreparedView;

    open spec fn view(&self) -> PreparedView {
        PreparedView {
            object_key: self.object_key@,
            expected_object_version: self.expected_object_version,
            candidate: self.candidate@,
            replica_proofs: views(self.replica_proofs@),
            new_replicas: views(self.new_replicas@),
        }
    }
}

impl VersionLayout {
    /// An equal layout.
    pub fn duplicate(&self) -> (copy: Self)
        ensures
            copy@ == self@,
    {
        VersionLayout {
            version: self.version,
            logical_length: self.logical_length,
            extents: copy_extents(&self.extents),
            digest: copy_bytes(&self.digest),
            kind: self.kind,
        }
    }
}

impl ReplicaLocation {
    /// An equal location.
    pub fn duplicate(&self) -> (copy: Self)
        ensures
            copy@ == self@,
    {
        ReplicaLocation {
            block_id: copy_bytes(&self.block_id),
            node_id: self.node_id,
            node_epoch: self.node_epoch,
            data_endpoint: self.data_endpoint.clone(),
            checksum: copy_bytes(&self.checksum),
            durability: self.durability,
        }
    }
}

impl ReplicaProof {
    /// An equal proof.
    pub fn duplicate(&self) -> (copy: Self)
        ensures
            copy@ == self@,
    {
        ReplicaProof {
            block_id: copy_bytes(&self.block_id),
            node_id: self.node_id,
            node_epoch: self.node_epoch,
            catalog_revision: self.catalog_revision,
            checksum: copy_bytes(&self.checksum),
            durability: self.durability,
        }
    }
}

impl BlockReplicaSet {
    /// An equal replica set.
    pub fn duplicate(&self) -> (copy: Self)
        ensures
            copy@ == self@,
    {
        let mut replicas: Vec<ReplicaLocation> = Vec::with_capacity(self.replicas.len());
        let mut i: usize = 0;
        while i < self.replicas.len()
            invariant
                i <= self.replicas@.len(),
                views(replicas@) =~= views(self.replicas@).take(i as int),
            decreases self.replicas.len() - i,
        {
            let ghost so_far = replicas@;
            replicas.push(self.replicas[i].duplicate());
            proof {
                lemma_views_push(so_far, replicas@.last());
                lemma_views_take(self.replicas@, i as int);
            }
            i = i + 1;
        }
        let mut proofs: Vec<ReplicaProof> = Vec::with_capacity(self.proofs.len());
        let mut i: usize = 0;
        while i < self.proofs.len()
            invariant
                i <= self.proofs@.len(),
                views(proofs@) =~= views(self.proofs@).take(i as int),
            decreases self.proofs.len() - i,
        {
            let ghost so_far = proofs@;
            proofs.push(self.proofs[i].duplicate());
            proof {
                lemma_views_push(so_far, proofs@.last());
                lemma_views_take(self.proofs@, i as int);
            }
            i = i + 1;
        }
        assert(views(replicas@) =~= views(self.replicas@));
        assert(views(proofs@) =~= views(self.proofs@));
        BlockReplicaSet {
            block_id: copy_bytes(&self.block_id),
            replicas,
            length: self.length,
            proofs,
        }
    }
}

/// Equal replica sets.
pub fn copy_replica_sets(sets: &Vec<BlockReplicaSet>) -> (copy: Vec<BlockReplicaSet>)
    ensures
        views(copy@) == views(sets@),
{
    let mut copy: Vec<BlockReplicaSet> = Vec::with_capacity(sets.len());
    let mut i: usize = 0;
    while i < sets.len()
        invariant
            i <= sets@.len(),
            views(copy@) =~= views(sets@).take(i as int),
        decreases sets.len() - i,
    {
        let ghost so_far = copy@;
        copy.push(sets[i].duplicate());
        proof {
            lemma_views_push(so_far, copy@.last());
            lemma_views_take(sets@, i as int);
        }
        i = i + 1;
    }
    copy
}

impl ResolveObjectResponse {
    /// An equal response.
    pub fn duplicate(&self) -> (copy: Self)
        ensures
            copy@ == self@,
    {
        ResolveObjectResponse {
            layout: match &self.layout {
                Some(layout) => Some(layout.duplicate()),
                None => None,
            },
            block_replicas: copy_replica_sets(&self.block_replicas),
            current_lease: self.current_lease,
        }
    }
}

} // verus!
