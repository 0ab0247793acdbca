//! Nodes that share a metadata service, each driven step by step.

use dms_node::batch_write::{BatchItemResult, DeleteOutcome, KeySetOutcome};
use dms_node::cached_read::CachedReadOutcome;
use dms_node::command::NodeCommand;
use dms_node::data_core_read::CacheRefill;
use dms_node::digest::digest;
use dms_node::dispatch::{Applied, Asker, NodeAnswer};
use dms_node::error::{is_not_found_result, DmsError, ErrorCode, ErrorKind, WorkerError};
use dms_node::identity::operation_id;
use dms_node::layout_write::SetRangeInput;
use dms_node::limits::{BatchEntry, GRPC_PAYLOAD_SAFE_BYTES};
use dms_node::node::NodeState;
use dms_node::node_read::{GetOutcome, MaterializeOutcome, ReadTicket};
use dms_node::node_session::{Broadcast, NodeTaskConfig};
use dms_node::peer_import::{
    ImportStart, PeerImportFailure, PeerImportWork, PeerPullSpec,
};
use dms_node::peer_pull::{
    accept_segment, first_source, map_peer_pull_status, next_source, PeerCode, PeerSegmentRequest,
    PeerStatus,
};
use dms_node::protocol::{
    BlockReplicaSet, CurrentLeaseGrant, DurabilityPolicy, ReplicaLocation, ResolveObjectResponse,
    VersionKind, VersionLayout,
};
use dms_node::pull_plan::PeerImportCompletion;
use dms_node::read_flow::{Attempt, DataCoreFlow, DataCoreReadAttempt, FlowPhase, ReadFlow};
use dms_node::session::Delivery;
use dms_node::table::{KeySet, Table};
use dms_node::value_write::{CommitResult, LocalReplicaIdentity, SetOutcome};
use dms_node::version_layout::{data_extent, ExtentRecord};
use std::collections::HashMap;

const MILLI: u64 = 1_000_000;
const SECOND: u64 = 1_000 * MILLI;
const START: u64 = 1_000 * SECOND;
const INLINE: u64 = 64 * 1024;
const EPOCH: u64 = 1;

struct StoredBlock {
    nodes: Vec<usize>,
    length: u64,
    checksum: Vec<u8>,
}

#[derive(Default)]
struct Meta {
    objects: HashMap<Vec<u8>, Vec<Option<VersionLayout>>>,
    blocks: HashMap<Vec<u8>, StoredBlock>,
    resolves: Vec<Option<u64>>,
    stale_location_once: bool,
}

fn endpoint(node: usize) -> String {
    format!("http://127.0.0.1:{}", 19_200 + node)
}

fn not_found() -> DmsError {
    DmsError::new(ErrorCode::MetaCatalogNotFound, ErrorKind::NotFound, "no such version")
}

impl Meta {
    fn resolve(&mut self, key: &[u8], exact: Option<u64>) -> Result<ResolveObjectResponse, DmsError> {
        self.resolves.push(exact);
        let versions = self.objects.get(key).ok_or_else(not_found)?;
        let index = match exact {
            Some(version) => version as usize - 1,
            None => versions.len() - 1,
        };
        let layout = versions
            .get(index)
            .and_then(|version| version.as_ref())
            .ok_or_else(not_found)?
            .duplicate();
        let stale = std::mem::replace(&mut self.stale_location_once, false);
        let mut block_replicas = Vec::new();
        for extent in &layout.extents {
            let Some(block) = self.blocks.get(&extent.block_id) else {
                continue;
            };
            block_replicas.push(BlockReplicaSet {
                block_id: extent.block_id.clone(),
                replicas: block
                    .nodes
                    .iter()
                    .map(|node| ReplicaLocation {
                        block_id: extent.block_id.clone(),
                        node_id: *node as u64,
                        node_epoch: EPOCH,
                        data_endpoint: if stale && block.length == layout.logical_length {
                            "http://127.0.0.1:1".to_string()
                        } else {
                            endpoint(*node)
                        },
                        checksum: block.checksum.clone(),
                        durability: DurabilityPolicy::LocalMemory,
                    })
                    .collect(),
                length: block.length,
                proofs: Vec::new(),
            });
        }
        let version = layout.version;
        Ok(ResolveObjectResponse {
            layout: Some(layout),
            block_replicas,
            current_lease: match exact {
                Some(_) => None,
                None => Some(CurrentLeaseGrant {
                    version,
                    revision: version,
                    lease_epoch: EPOCH,
                    ttl_millis: 30_000,
                    leader_epoch: 1,
                }),
            },
        })
    }

    fn publish(&mut self, key: &[u8], logical_length: u64, extents: Vec<ExtentRecord>) -> u64 {
        let versions = self.objects.entry(key.to_vec()).or_default();
        let version = versions.len() as u64 + 1;
        versions.push(Some(VersionLayout {
            version,
            logical_length,
            extents,
            digest: Vec::new(),
            kind: VersionKind::Value,
        }));
        version
    }

    fn store(&mut self, node: usize, block_id: &[u8], length: u64, checksum: &[u8]) {
        let block = self
            .blocks
            .entry(block_id.to_vec())
            .or_insert_with(|| StoredBlock {
                nodes: Vec::new(),
                length,
                checksum: checksum.to_vec(),
            });
        if !block.nodes.contains(&node) {
            block.nodes.push(node);
        }
    }
}

struct Member {
    state: NodeState,
    pulls: usize,
}

struct Cluster {
    meta: Meta,
    nodes: Vec<Member>,
    now: u64,
    next_waiter: u64,
    /// The counter of generations that the nodes share.
    generations: u64,
}

struct Reading<T> {
    node: usize,
    session: u64,
    scope: u64,
    key: Vec<u8>,
    range: Option<(u64, u64)>,
    requested_at: u64,
    flow: ReadFlow<T>,
}

impl Cluster {
    fn start(count: usize) -> Self {
        let mut cluster = Cluster {
            meta: Meta::default(),
            nodes: Vec::new(),
            now: START,
            next_waiter: 0,
            generations: 1,
        };
        for index in 0..count {
            cluster.nodes.push(Member {
                state: NodeState::new(
                    format!("test-node-{}", index + 1),
                    true,
                    &NodeTaskConfig {
                        arena_capacity_bytes: 256 * 1024 * 1024,
                        staging_ttl: 30 * SECOND,
                        client_cache_lease_ttl: 10 * SECOND,
                        node_current_cache_bytes: 1 << 20,
                        node_current_cache_ttl: 30 * SECOND,
                        shared_memory: false,
                    },
                    7,
                    START,
                ),
                pulls: 0,
            });
            cluster.lease(index, Some(START + 60 * SECOND), Some(true));
        }
        cluster
    }

    fn lease(&mut self, node: usize, valid_until: Option<u64>, watch_connected: Option<bool>) {
        self.ask(
            node,
            NodeCommand::MetadataLease {
                valid_until,
                watch_connected,
            },
        );
    }

    fn ask(&mut self, node: usize, command: NodeCommand) -> Applied {
        let state = &mut self.nodes[node].state;
        assert!(state.numbers_left(&command));
        self.next_waiter += 1;
        state.apply(
            command,
            Asker {
                gone: false,
                waiter: self.next_waiter,
            },
            &KeySet::new(),
            0,
            &mut self.generations,
            self.now,
        )
    }

    fn open_write_session(&mut self, node: usize) -> u64 {
        match self
            .ask(
                node,
                NodeCommand::OpenSession {
                    shared_memory: false,
                    supports_write_lease_release: false,
                },
            )
            .answer
        {
            NodeAnswer::Number(Ok(session)) => session,
            _ => panic!("a session is opened"),
        }
    }

    fn renew(&mut self, node: usize, session: u64) -> u64 {
        match self
            .ask(
                node,
                NodeCommand::Heartbeat {
                    session_id: session,
                    released_view_through: None,
                    released_write_allocations: Vec::new(),
                    finished_read_request_through: None,
                    renew_cache: true,
                    stream_closed: false,
                },
            )
            .answer
        {
            NodeAnswer::Number(Ok(granted)) => granted,
            _ => panic!("the lease is renewed"),
        }
    }

    fn open_attached_session(&mut self, node: usize) -> u64 {
        let session = self.open_write_session(node);
        let attached = self.ask(node, NodeCommand::AttachSession { session_id: session });
        assert!(matches!(attached.answer, NodeAnswer::Done(Ok(()))));
        session
    }

    fn open_cached_session(&mut self, node: usize) -> u64 {
        let session = self.open_attached_session(node);
        assert!(self.renew(node, session) > 0, "cache lease was not granted");
        session
    }

    /// Tells the other nodes of a new version, as the metadata service does. Returns the events
    /// that clients get.
    fn tell_others(&mut self, writer: usize, key: &[u8], version: u64) -> Vec<(usize, Delivery)> {
        let mut events = Vec::new();
        for node in 0..self.nodes.len() {
            if node == writer {
                continue;
            }
            let told = self.ask(
                node,
                NodeCommand::InvalidateCurrent {
                    key: key.to_vec(),
                    minimum_version: version,
                },
            );
            let sent = told.broadcast.expect("clients are told");
            events.extend(sent.deliveries.into_iter().map(|delivery| (node, delivery)));
        }
        events
    }

    fn events_of(node: usize, sent: Broadcast) -> Vec<(usize, Delivery)> {
        sent.deliveries
            .into_iter()
            .map(|delivery| (node, delivery))
            .collect()
    }

    /// Publishes a value that was proposed.
    fn publish_value(
        &mut self,
        node: usize,
        proposed: NodeAnswer,
    ) -> (SetOutcome, Vec<(usize, Delivery)>) {
        let NodeAnswer::Value(Ok(commit)) = proposed else {
            panic!("the value is proposed")
        };
        let extents = if commit.length == 0 {
            Vec::new()
        } else {
            vec![data_extent(
                0,
                commit.length,
                commit.block_id.clone(),
                0,
                commit.checksum.clone(),
            )]
        };
        let key = commit.key.clone();
        let version = self.meta.publish(&key, commit.length, extents);
        self.meta
            .store(node, &commit.block_id, commit.length, &commit.checksum);
        let mut events = self.tell_others(node, &key, version);
        let now = self.now;
        let state = &mut self.nodes[node].state;
        let sent = state
            .publish_block(&commit.key, &commit.block_id, Ok(version), now)
            .expect("the value is published");
        let barrier_id = sent.barrier_id;
        events.extend(Self::events_of(node, sent));
        let outcome = state
            .settle_value(
                commit,
                CommitResult {
                    version,
                    revision: version,
                },
                &LocalReplicaIdentity {
                    node_id: node as u64,
                    node_epoch: EPOCH,
                    data_endpoint: endpoint(node),
                },
                barrier_id,
                &Vec::new(),
                now,
            )
            .expect("the write ends well");
        (outcome, events)
    }

    fn write(
        &mut self,
        node: usize,
        session: u64,
        key: &[u8],
        value: &[u8],
        operation: Vec<u8>,
    ) -> (SetOutcome, Vec<(usize, Delivery)>) {
        let applied = self.ask(
            node,
            NodeCommand::SetInline {
                session_id: session,
                key: key.to_vec(),
                bytes: value.to_vec(),
                operation_id: operation,
                condition: "any".to_string(),
            },
        );
        self.publish_value(node, applied.answer)
    }

    fn set_inline(&mut self, node: usize, session: u64, key: &[u8], value: &[u8], sequence: u64) -> u64 {
        self.write(node, session, key, value, operation_id(0x51, sequence))
            .0
            .version
    }

    fn stage(&mut self, node: usize, session: u64, value: &[u8]) -> (u64, dms_node::arena::HostReceipt) {
        let staged = self.ask(
            node,
            NodeCommand::AllocateStaging {
                session_id: session,
                length: value.len() as u64,
                release_token: b"token".to_vec(),
            },
        );
        let NodeAnswer::Staged(Ok(allocation)) = staged.answer else {
            panic!("room is made")
        };
        let uploaded = self.ask(
            node,
            NodeCommand::Upload {
                transfer_id: allocation.transfer_id,
                bytes: value.to_vec(),
            },
        );
        let NodeAnswer::Receipt(Ok(receipt)) = uploaded.answer else {
            panic!("the bytes are taken")
        };
        (allocation.staging_id, receipt)
    }

    fn set_range(
        &mut self,
        node: usize,
        session: u64,
        key: &[u8],
        offset: u64,
        value: &[u8],
        expected_version: u64,
        sequence: u64,
    ) -> (SetOutcome, Vec<(usize, Delivery)>) {
        let (staging_id, receipt) = self.stage(node, session, value);
        let resolved = self.meta.resolve(key, Some(expected_version)).expect("the base is there");
        let applied = self.ask(
            node,
            NodeCommand::SetRange {
                input: SetRangeInput {
                    session_id: session,
                    key: key.to_vec(),
                    offset,
                    staging_id,
                    receipt,
                    operation_id: operation_id(0x52, sequence),
                    expected_version: Some(expected_version),
                },
                resolved,
            },
        );
        let NodeAnswer::Layout(Ok(commit)) = applied.answer else {
            panic!("the range is proposed")
        };
        assert_eq!(commit.condition, format!("if-version:{expected_version}"));
        let extents = commit
            .candidate
            .extents
            .iter()
            .map(|extent| {
                let logical = extent.logical.as_ref().expect("a range");
                data_extent(
                    logical.offset,
                    logical.length,
                    extent.block_id.clone(),
                    extent.block_offset,
                    extent.digest.clone(),
                )
            })
            .collect();
        let version = self
            .meta
            .publish(key, commit.candidate.logical_length, extents);
        for replica in &commit.new_replicas {
            self.meta
                .store(node, &replica.block_id, replica.length, &replica.checksum);
        }
        let mut events = self.tell_others(node, key, version);
        let now = self.now;
        let state = &mut self.nodes[node].state;
        let sent = state
            .publish_block(&commit.key, &commit.block_id, Ok(version), now)
            .expect("the range is published");
        let barrier_id = sent.barrier_id;
        events.extend(Self::events_of(node, sent));
        let outcome = state
            .settle_layout(&commit, version, barrier_id, &Vec::new())
            .expect("the write ends well");
        (outcome, events)
    }

    fn mset(
        &mut self,
        node: usize,
        session: u64,
        entries: Vec<(Vec<u8>, Vec<u8>)>,
        sequence: u64,
    ) -> (Vec<KeySetOutcome>, Vec<u64>, Vec<(usize, Delivery)>) {
        let mut staged = Vec::new();
        for (key, value) in entries {
            let (staging_id, receipt) = self.stage(node, session, &value);
            staged.push(BatchEntry {
                key,
                staging_id,
                receipt,
            });
        }
        let applied = self.ask(
            node,
            NodeCommand::MSet {
                session_id: session,
                entries: staged,
                operation_id: operation_id(0x56, sequence),
            },
        );
        let NodeAnswer::Batch(Ok(commit)) = applied.answer else {
            panic!("the batch is proposed")
        };
        let mut results = Vec::new();
        for value in &commit.values {
            let extent = data_extent(
                0,
                value.length,
                value.block_id.clone(),
                0,
                value.checksum.clone(),
            );
            let version = self.meta.publish(&value.key, value.length, vec![extent]);
            self.meta
                .store(node, &value.block_id, value.length, &value.checksum);
            results.push(BatchItemResult {
                key: Some(value.key.clone()),
                version: Some(version),
            });
        }
        let now = self.now;
        let state = &mut self.nodes[node].state;
        let mut completion = state
            .begin_batch_completion(&commit, Ok(results))
            .expect("the batch is published");
        let mut events = Vec::new();
        while let Some(sent) = state
            .announce_batch_value(&completion, now)
            .expect("the values are known")
        {
            let barrier_id = sent.barrier_id;
            events.extend(Self::events_of(node, sent));
            state
                .settle_batch_value(&mut completion, barrier_id, &Vec::new())
                .expect("the value ends well");
        }
        let outcome = completion.outcome();
        (outcome.versions, outcome.barrier_ids, events)
    }

    fn delete(
        &mut self,
        node: usize,
        session: u64,
        key: &[u8],
        operation: Vec<u8>,
    ) -> (DeleteOutcome, Vec<(usize, Delivery)>) {
        let applied = self.ask(
            node,
            NodeCommand::Delete {
                session_id: session,
                key: key.to_vec(),
                operation_id: operation,
            },
        );
        assert!(matches!(applied.answer, NodeAnswer::Done(Ok(()))));
        let versions = self.meta.objects.get_mut(key).expect("the key is there");
        versions.push(None);
        let version = versions.len() as u64;
        let mut events = self.tell_others(node, key, version);
        let now = self.now;
        let (outcome, sent) = self.nodes[node]
            .state
            .complete_delete(&key.to_vec(), Ok((true, version)), now)
            .expect("the key is deleted");
        events.extend(Self::events_of(node, sent.expect("clients are told")));
        (outcome, events)
    }

    /// The clients acknowledge some events. Returns those whose wait is over.
    fn acknowledge(&mut self, events: &[(usize, Delivery)]) -> Vec<u64> {
        let mut finished = Vec::new();
        for (node, delivery) in events {
            let applied = self.ask(
                *node,
                NodeCommand::Acknowledge {
                    session_id: delivery.session_id,
                    sequence: delivery.event.event_sequence,
                },
            );
            finished.extend(applied.finished);
        }
        finished
    }

    fn begin_scope(&mut self, node: usize, session: Option<u64>) -> u64 {
        let command = match session {
            Some(session_id) => NodeCommand::BeginReadScope { session_id },
            None => NodeCommand::BeginDataCoreReadScope,
        };
        match self.ask(node, command).answer {
            NodeAnswer::Number(Ok(scope)) => scope,
            _ => panic!("a read begins"),
        }
    }

    fn finish_scope(&mut self, node: usize, scope_id: u64) {
        self.ask(node, NodeCommand::FinishReadScope { scope_id });
    }

    fn begin_read<T>(
        &mut self,
        node: usize,
        session: u64,
        key: &[u8],
        exact_version: Option<u64>,
        range: Option<(u64, u64)>,
        use_cache: bool,
    ) -> Reading<T> {
        let scope = self.begin_scope(node, Some(session));
        Reading {
            node,
            session,
            scope,
            key: key.to_vec(),
            range,
            requested_at: self.now,
            flow: ReadFlow::new(true, exact_version, use_cache),
        }
    }

    fn look_up(&mut self, reading: &mut Reading<ReadTicket>) {
        let answer = self.ask(
            reading.node,
            NodeCommand::GetCached {
                session_id: reading.session,
                read_scope_id: reading.scope,
                read_request_id: 0,
                key: reading.key.clone(),
                node_epoch: EPOCH,
                range: reading.range,
                clamp_range: false,
                max_inline_bytes: INLINE,
            },
        );
        let NodeAnswer::Cached(answer) = answer.answer else {
            panic!("the cache answers")
        };
        reading.flow.looked_up(answer);
    }

    fn resolve<T>(&mut self, reading: &mut Reading<T>) {
        let FlowPhase::Resolve { exact_version, .. } = reading.flow.phase else {
            panic!("the value is resolved next")
        };
        reading.requested_at = self.now;
        let answer = self.meta.resolve(&reading.key, exact_version);
        reading.flow.resolved(answer);
    }

    /// Goes on with a read until it is over or has to pull something.
    fn go_on(&mut self, reading: &mut Reading<ReadTicket>) {
        loop {
            match reading.flow.phase {
                FlowPhase::LookUp => self.look_up(reading),
                FlowPhase::Resolve { .. } => self.resolve(reading),
                FlowPhase::Read { refill, .. } => {
                    let resolved = reading.flow.resolved.as_ref().expect("resolved").duplicate();
                    let answer = self.ask(
                        reading.node,
                        NodeCommand::GetResolved {
                            session_id: reading.session,
                            read_scope_id: reading.scope,
                            read_request_id: 0,
                            resolved,
                            range: reading.range,
                            clamp_range: false,
                            max_inline_bytes: INLINE,
                            cache_refill: refill.map(|token| CacheRefill {
                                token,
                                key: reading.key.clone(),
                                requested_at: reading.requested_at,
                                node_epoch: EPOCH,
                            }),
                        },
                    );
                    let NodeAnswer::Read(answer) = answer.answer else {
                        panic!("the node answers")
                    };
                    reading.flow.read(answer.map(|outcome| match outcome {
                        GetOutcome::Ready(ticket) => Attempt::Ready(ticket),
                        GetOutcome::NeedsRemoteBlocks(specs) => Attempt::NeedsRemoteBlocks(specs),
                    }));
                }
                _ => return,
            }
        }
    }

    fn go_on_whole(&mut self, reading: &mut Reading<(u64, Vec<u8>)>) {
        loop {
            match reading.flow.phase {
                FlowPhase::Resolve { .. } => self.resolve(reading),
                FlowPhase::Read { .. } => {
                    let resolved = reading.flow.resolved.as_ref().expect("resolved").duplicate();
                    let answer = self.ask(
                        reading.node,
                        NodeCommand::MaterializeResolved {
                            session_id: reading.session,
                            read_scope_id: reading.scope,
                            resolved,
                        },
                    );
                    let NodeAnswer::Whole(answer) = answer.answer else {
                        panic!("the node answers")
                    };
                    reading.flow.read(answer.map(|outcome| match outcome {
                        MaterializeOutcome::Ready { version, bytes } => {
                            Attempt::Ready((version, bytes))
                        }
                        MaterializeOutcome::NeedsRemoteBlocks(specs) => {
                            Attempt::NeedsRemoteBlocks(specs)
                        }
                    }));
                }
                _ => return,
            }
        }
    }

    /// Asks for what a read lacks.
    fn ask_for(
        &mut self,
        node: usize,
        scope: u64,
        specs: Vec<PeerPullSpec>,
    ) -> (Vec<ImportStart>, Vec<PeerImportWork>) {
        let requests = specs
            .into_iter()
            .map(|spec| {
                self.next_waiter += 1;
                (spec, self.next_waiter)
            })
            .collect();
        match self
            .ask(
                node,
                NodeCommand::EnsurePeerBlocks {
                    read_scope_id: scope,
                    requests,
                },
            )
            .answer
        {
            NodeAnswer::Imports { starts, work } => (starts, work),
            _ => panic!("the imports begin"),
        }
    }

    fn pull(&mut self, node: usize, spec: &PeerPullSpec) -> Result<dms_node::node_import::PeerBlockResult, WorkerError> {
        let mut index = first_source(spec)?;
        loop {
            let source = &spec.sources[index];
            let error = if source.endpoint == endpoint(source.node_id as usize) {
                let name = format!("test-node-{}", node + 1);
                let member = &mut self.nodes[source.node_id as usize];
                member.pulls += 1;
                match member.state.pull_block(&name, spec.block_id.clone(), None) {
                    Ok(block) => {
                        return accept_segment(spec, PeerSegmentRequest::whole_block(), block)
                    }
                    Err(error) => error,
                }
            } else {
                map_peer_pull_status(&PeerStatus {
                    code: PeerCode::Unavailable,
                    text: "refused".to_string(),
                })
            };
            index = next_source(spec, index, error)?;
        }
    }

    /// Carries out imports. Says what came of the last one that failed.
    fn carry_out(
        &mut self,
        node: usize,
        scope: u64,
        work: Vec<PeerImportWork>,
    ) -> Result<(), PeerImportFailure> {
        let mut result = Ok(());
        for item in work {
            let failure = match self.pull(node, &item.spec) {
                Err(error) => Some(PeerImportFailure::of_location(error)),
                Ok(block) => {
                    let installed = self.ask(
                        node,
                        NodeCommand::ImportPeerBlock {
                            block_id: block.block_id.clone(),
                            bytes: block.payload,
                            checksum: block.checksum.clone(),
                            length: block.length,
                            read_scope_id: scope,
                            import_attempt: Some(item.attempt),
                        },
                    );
                    match installed.answer {
                        NodeAnswer::Installed(Ok(needs_report)) => {
                            if needs_report {
                                self.meta.store(
                                    node,
                                    &block.block_id,
                                    block.length,
                                    &block.checksum,
                                );
                            }
                            None
                        }
                        NodeAnswer::Installed(Err(error)) => {
                            Some(PeerImportFailure::terminal(error))
                        }
                        _ => panic!("the block is taken or not"),
                    }
                }
            };
            if let Some(failure) = &failure {
                result = Err(failure.duplicate());
            }
            self.nodes[node]
                .state
                .complete_peer_imports(&vec![PeerImportCompletion {
                    block_id: item.spec.block_id,
                    attempt: item.attempt,
                    failure,
                }]);
        }
        result
    }

    fn import(
        &mut self,
        node: usize,
        scope: u64,
        specs: Vec<PeerPullSpec>,
    ) -> Result<(), PeerImportFailure> {
        let (starts, work) = self.ask_for(node, scope, specs);
        for start in starts {
            if let ImportStart::Refused(failure) = start {
                return Err(failure);
            }
        }
        self.carry_out(node, scope, work)
    }

    fn end(&mut self, mut reading: Reading<ReadTicket>) -> Result<ReadTicket, WorkerError> {
        loop {
            self.go_on(&mut reading);
            if reading.flow.phase == FlowPhase::Over {
                self.finish_scope(reading.node, reading.scope);
                return reading.flow.outcome.expect("the read is over");
            }
            let specs = std::mem::take(&mut reading.flow.specs);
            let answer = self.import(reading.node, reading.scope, specs);
            reading.flow.imported(answer);
        }
    }

    fn get(
        &mut self,
        node: usize,
        session: u64,
        key: &[u8],
        exact_version: Option<u64>,
        range: Option<(u64, u64)>,
    ) -> Result<ReadTicket, WorkerError> {
        let reading = self.begin_read(node, session, key, exact_version, range, true);
        self.end(reading)
    }

    fn read_inline(&mut self, node: usize, session: u64, key: &[u8]) -> ReadTicket {
        self.get(node, session, key, None, None).expect("get inline")
    }

    fn read_inline_range(&mut self, node: usize, session: u64, key: &[u8], range: (u64, u64)) -> ReadTicket {
        self.get(node, session, key, None, Some(range))
            .expect("get inline range")
    }

    fn read_into(
        &mut self,
        node: usize,
        key: &[u8],
        exact_version: Option<u64>,
        range: Option<(u64, u64)>,
        output: Vec<u8>,
    ) -> DataCoreReadAttempt {
        let scope = self.begin_scope(node, None);
        let requested_at = self.now;
        let mut flow = DataCoreFlow::new(true, exact_version, output);
        loop {
            match flow.phase {
                FlowPhase::LookUp => {
                    let output = flow.take_output();
                    let answer = self.ask(
                        node,
                        NodeCommand::DataCoreGetCached {
                            read_scope_id: scope,
                            key: key.to_vec(),
                            node_epoch: EPOCH,
                            exact_version,
                            range,
                            clamp_range: false,
                            output,
                        },
                    );
                    let NodeAnswer::CachedInto(answer) = answer.answer else {
                        panic!("the cache answers")
                    };
                    flow.looked_up(answer);
                }
                FlowPhase::Resolve { exact_version, .. } => {
                    let answer = self.meta.resolve(key, exact_version);
                    flow.resolved(answer);
                }
                FlowPhase::Read { refill, .. } => {
                    let output = flow.take_output();
                    let resolved = flow.resolved.as_ref().expect("resolved").duplicate();
                    let answer = self.ask(
                        node,
                        NodeCommand::DataCoreMaterializeInto {
                            read_scope_id: scope,
                            resolved,
                            range,
                            clamp_range: false,
                            output,
                            cache_refill: refill.map(|token| CacheRefill {
                                token,
                                key: key.to_vec(),
                                requested_at,
                                node_epoch: EPOCH,
                            }),
                            prefetch_full_layout: flow.prefetch,
                        },
                    );
                    let NodeAnswer::Into(answer) = answer.answer else {
                        panic!("the node answers")
                    };
                    flow.read(answer);
                }
                FlowPhase::ImportCached { .. } => {
                    let specs = std::mem::take(&mut flow.specs);
                    let answer = self.import(node, scope, specs);
                    flow.cached_imported(answer);
                }
                FlowPhase::Import { .. } => {
                    let partial = flow.partial.as_mut().expect("something is missing");
                    let specs = std::mem::take(&mut partial.specs);
                    let answer = self.import(node, scope, specs).map(|_| Table::new());
                    flow.imported(answer);
                }
                FlowPhase::Over => {
                    self.finish_scope(node, scope);
                    return flow.outcome.expect("the read is over").expect("the read goes well");
                }
            }
        }
    }

    /// The bytes that a read into a buffer brings, in a buffer that is large enough.
    fn read_bytes(
        &mut self,
        node: usize,
        key: &[u8],
        exact_version: Option<u64>,
        range: Option<(u64, u64)>,
    ) -> (u64, Vec<u8>) {
        let mut length: usize = 0;
        loop {
            match self.read_into(node, key, exact_version, range, vec![0; length]) {
                DataCoreReadAttempt::Ready(result) => {
                    return (result.version, result.bytes[..result.bytes_read].to_vec())
                }
                DataCoreReadAttempt::BufferTooSmall { required, .. } => length = required,
                DataCoreReadAttempt::NotFound => panic!("the value is there"),
            }
        }
    }

    fn put(&mut self, node: usize, key: &[u8], bytes: &[u8], sequence: u64) -> u64 {
        let applied = self.ask(
            node,
            NodeCommand::DataCoreSetInline {
                key: key.to_vec(),
                bytes: bytes.to_vec(),
                operation_id: operation_id(0x44, sequence),
                condition: "any".to_string(),
            },
        );
        self.publish_value(node, applied.answer).0.version
    }

    fn imports(&self, node: usize) -> (usize, usize, u64) {
        let imports = &self.nodes[node].state.imports;
        (imports.flights.len(), imports.failures.len(), imports.bytes)
    }
}

fn expect_event(events: &[(usize, Delivery)], session: u64, key: &[u8], minimum_version: u64) {
    assert_eq!(events.len(), 1);
    let event = &events[0].1;
    assert_eq!(event.session_id, session);
    assert_eq!(event.event.key, key);
    assert!(event.event.minimum_version >= minimum_version);
}

fn expect_value(ticket: &ReadTicket, version: u64, value: &[u8]) {
    assert_eq!(ticket.version, version);
    assert_eq!(ticket.inline_value.as_deref(), Some(value));
}

#[test]
fn local_commit_primes_node_layout_cache_for_current_get() {
    let mut cluster = Cluster::start(1);
    let writer = cluster.open_write_session(0);
    let key = b"node-cache/read-through";
    let version = cluster.set_inline(0, writer, key, b"v1", 1);
    let session = cluster.open_cached_session(0);
    cluster.meta.resolves.clear();
    expect_value(&cluster.read_inline(0, session, key), version, b"v1");
    expect_value(&cluster.read_inline(0, session, key), version, b"v1");
    assert_eq!(cluster.meta.resolves.len(), 0);
}

#[test]
fn set_range_invalidates_node_layout_cache_before_next_current_read() {
    let mut cluster = Cluster::start(1);
    let reader = cluster.open_cached_session(0);
    let writer = cluster.open_write_session(0);
    let key = b"node-cache/set-range";
    let v1 = cluster.set_inline(0, writer, key, b"abcd", 10);
    expect_value(&cluster.read_inline(0, reader, key), v1, b"abcd");

    let (outcome, events) = cluster.set_range(0, writer, key, 1, b"Z", v1, 11);
    expect_event(&events, reader, key, v1 + 1);
    let barrier_id = outcome.barrier_id.expect("the reader has to know");
    let wait = cluster.ask(0, NodeCommand::WaitInvalidation { barrier_id });
    assert!(matches!(wait.answer, NodeAnswer::Later));
    let waiter = cluster.next_waiter;
    assert_eq!(cluster.acknowledge(&events), vec![waiter]);
    let v2 = outcome.version;
    assert!(v2 > v1);

    cluster.meta.resolves.clear();
    expect_value(&cluster.read_inline(0, reader, key), v2, b"aZcd");
    expect_value(&cluster.read_inline(0, reader, key), v2, b"aZcd");
    assert_eq!(cluster.meta.resolves.len(), 1);
}

#[test]
fn exact_reads_skip_current_cache_but_range_current_reads_reuse_it() {
    let mut cluster = Cluster::start(1);
    let writer = cluster.open_write_session(0);
    let key = b"node-cache/exact-range";
    let version = cluster.set_inline(0, writer, key, b"abcdef", 12);
    let reader = cluster.open_cached_session(0);
    cluster.meta.resolves.clear();
    for _ in 0..2 {
        let exact = cluster.get(0, reader, key, Some(version), None).expect("exact read");
        expect_value(&exact, version, b"abcdef");
    }
    assert_eq!(cluster.meta.resolves.len(), 2);

    cluster.meta.resolves.clear();
    for _ in 0..2 {
        let range = cluster.read_inline_range(0, reader, key, (1, 3));
        expect_value(&range, version, b"bcd");
    }
    assert_eq!(cluster.meta.resolves.len(), 0);
}

#[test]
fn cached_range_hit_only_requires_blocks_that_intersect_requested_range() {
    let mut cluster = Cluster::start(2);
    let writer = cluster.open_write_session(1);
    let key = b"node-cache/range-required-blocks";
    let v1 = cluster.set_inline(1, writer, key, b"abcdefgh", 50);
    let v2 = cluster.set_range(1, writer, key, 4, b"Z", v1, 51).0.version;
    assert_eq!(v2, v1 + 1);
    let reader = cluster.open_cached_session(0);

    cluster.nodes[1].pulls = 0;
    cluster.meta.resolves.clear();
    expect_value(&cluster.read_inline_range(0, reader, key, (4, 1)), v2, b"Z");
    assert_eq!(cluster.nodes[1].pulls, 1);
    assert_eq!(cluster.meta.resolves.len(), 1);

    cluster.nodes[1].pulls = 0;
    cluster.meta.resolves.clear();
    expect_value(&cluster.read_inline_range(0, reader, key, (4, 1)), v2, b"Z");
    assert_eq!(cluster.nodes[1].pulls, 0);
    assert_eq!(cluster.meta.resolves.len(), 0);
}

#[test]
fn cached_current_locations_pull_missing_peer_blocks_without_current_resolve() {
    let mut cluster = Cluster::start(2);
    let writer = cluster.open_write_session(1);
    let key = b"node-cache/cached-peer-location";
    let v1 = cluster.set_inline(1, writer, key, b"abcdefgh", 60);
    let v2 = cluster.set_range(1, writer, key, 4, b"Z", v1, 61).0.version;
    assert_eq!(v2, v1 + 1);
    let reader = cluster.open_cached_session(0);
    expect_value(&cluster.read_inline_range(0, reader, key, (4, 1)), v2, b"Z");

    cluster.nodes[1].pulls = 0;
    cluster.meta.resolves.clear();
    expect_value(&cluster.read_inline(0, reader, key), v2, b"abcdZfgh");
    assert_eq!(cluster.nodes[1].pulls, 1);
    assert_eq!(cluster.meta.resolves.len(), 0);

    cluster.nodes[1].pulls = 0;
    cluster.meta.resolves.clear();
    expect_value(&cluster.read_inline(0, reader, key), v2, b"abcdZfgh");
    assert_eq!(cluster.nodes[1].pulls, 0);
    assert_eq!(cluster.meta.resolves.len(), 0);
}

#[test]
fn concurrent_cold_half_reads_share_one_peer_import() {
    let mut cluster = Cluster::start(2);
    let writer = cluster.open_write_session(1);
    let key = b"peer-flight/two-half-reads";
    let value: Vec<u8> = (0..32768).map(|index| (index % 251) as u8).collect();
    let version = cluster.set_inline(1, writer, key, &value, 701);
    let reader = cluster.open_write_session(0);
    cluster.nodes[1].pulls = 0;

    let mut left = cluster.begin_read(0, reader, key, Some(version), Some((0, 16384)), true);
    let mut right = cluster.begin_read(0, reader, key, Some(version), Some((16384, 16384)), true);
    cluster.go_on(&mut left);
    cluster.go_on(&mut right);
    let left_specs = std::mem::take(&mut left.flow.specs);
    let right_specs = std::mem::take(&mut right.flow.specs);
    let (first, work) = cluster.ask_for(0, left.scope, left_specs);
    let (second, nothing) = cluster.ask_for(0, right.scope, right_specs);
    assert!(matches!(first[..], [ImportStart::Started(_)]));
    assert!(matches!(second[..], [ImportStart::Joined]));
    assert!(nothing.is_empty());
    cluster.carry_out(0, left.scope, work).expect("the block comes");
    left.flow.imported(Ok(()));
    right.flow.imported(Ok(()));
    expect_value(&cluster.end(left).unwrap(), version, &value[..16384]);
    expect_value(&cluster.end(right).unwrap(), version, &value[16384..]);
    assert_eq!(cluster.nodes[1].pulls, 1);
    assert_eq!(cluster.imports(0), (0, 0, 0));
}

#[test]
fn concurrent_exact_and_materialized_reads_share_one_peer_import() {
    let mut cluster = Cluster::start(2);
    let writer = cluster.open_write_session(1);
    let key = b"peer-flight/exact-and-materialized";
    let value = vec![37; 32768];
    let version = cluster.set_inline(1, writer, key, &value, 702);
    let reader = cluster.open_write_session(0);
    let mut range = cluster.begin_read(0, reader, key, Some(version), Some((0, 16384)), true);
    let mut whole: Reading<(u64, Vec<u8>)> =
        cluster.begin_read(0, reader, key, Some(version), None, false);
    cluster.go_on(&mut range);
    cluster.go_on_whole(&mut whole);
    let range_specs = std::mem::take(&mut range.flow.specs);
    let whole_specs = std::mem::take(&mut whole.flow.specs);
    let (_, work) = cluster.ask_for(0, range.scope, range_specs);
    let (joined, nothing) = cluster.ask_for(0, whole.scope, whole_specs);
    assert!(matches!(joined[..], [ImportStart::Joined]));
    assert!(nothing.is_empty());
    cluster.carry_out(0, range.scope, work).expect("the block comes");
    range.flow.imported(Ok(()));
    whole.flow.imported(Ok(()));
    expect_value(&cluster.end(range).unwrap(), version, &value[..16384]);
    cluster.go_on_whole(&mut whole);
    assert_eq!(whole.flow.outcome.unwrap().unwrap(), (version, value));
    assert_eq!(cluster.nodes[1].pulls, 1);
    assert_eq!(cluster.imports(0), (0, 0, 0));
}

#[test]
fn concurrent_cached_location_and_exact_reads_share_one_peer_import() {
    let mut cluster = Cluster::start(2);
    let writer = cluster.open_write_session(1);
    let key = b"peer-flight/cached-location-and-exact";
    let v1 = cluster.set_inline(1, writer, key, b"abcdefgh", 706);
    let v2 = cluster.set_range(1, writer, key, 4, b"Z", v1, 707).0.version;
    let reader = cluster.open_cached_session(0);
    expect_value(&cluster.read_inline_range(0, reader, key, (4, 1)), v2, b"Z");
    cluster.nodes[1].pulls = 0;
    cluster.meta.resolves.clear();
    let mut cached = cluster.begin_read(0, reader, key, None, Some((0, 4)), true);
    let mut exact = cluster.begin_read(0, reader, key, Some(v2), Some((5, 3)), true);
    cluster.go_on(&mut cached);
    cluster.go_on(&mut exact);
    assert!(matches!(cached.flow.phase, FlowPhase::ImportCached { .. }));
    assert!(matches!(exact.flow.phase, FlowPhase::Import { .. }));
    let cached_specs = std::mem::take(&mut cached.flow.specs);
    let exact_specs = std::mem::take(&mut exact.flow.specs);
    let (_, work) = cluster.ask_for(0, cached.scope, cached_specs);
    let (joined, _) = cluster.ask_for(0, exact.scope, exact_specs);
    assert!(matches!(joined[..], [ImportStart::Joined]));
    cluster.carry_out(0, cached.scope, work).expect("the block comes");
    cached.flow.imported(Ok(()));
    exact.flow.imported(Ok(()));
    expect_value(&cluster.end(cached).unwrap(), v2, b"abcd");
    expect_value(&cluster.end(exact).unwrap(), v2, b"fgh");
    assert_eq!(cluster.nodes[1].pulls, 1);
    assert_eq!(cluster.meta.resolves.len(), 1);
    assert_eq!(cluster.imports(0), (0, 0, 0));
}

#[test]
fn cancelled_import_leader_does_not_cancel_other_readers() {
    let mut cluster = Cluster::start(2);
    let writer = cluster.open_write_session(1);
    let key = b"peer-flight/cancel-leader";
    let version = cluster.set_inline(1, writer, key, b"abcdefgh", 704);
    let reader = cluster.open_write_session(0);
    let mut leader = cluster.begin_read(0, reader, key, Some(version), None, true);
    cluster.go_on(&mut leader);
    let leader_specs = std::mem::take(&mut leader.flow.specs);
    let (_, work) = cluster.ask_for(0, leader.scope, leader_specs);
    let mut follower = cluster.begin_read(0, reader, key, Some(version), Some((4, 4)), true);
    cluster.go_on(&mut follower);
    let follower_specs = std::mem::take(&mut follower.flow.specs);
    let (joined, _) = cluster.ask_for(0, follower.scope, follower_specs);
    assert!(matches!(joined[..], [ImportStart::Joined]));
    let scope = leader.scope;
    drop(leader);
    cluster.finish_scope(0, scope);
    cluster.carry_out(0, scope, work).expect("the block comes");
    follower.flow.imported(Ok(()));
    expect_value(&cluster.end(follower).unwrap(), version, b"efgh");
    assert_eq!(cluster.nodes[1].pulls, 1);
    assert_eq!(cluster.imports(0), (0, 0, 0));
}

#[test]
fn cancelled_all_import_waiters_leave_no_inflight_state() {
    let mut cluster = Cluster::start(2);
    let writer = cluster.open_write_session(1);
    let key = b"peer-flight/cancel-all";
    let version = cluster.set_inline(1, writer, key, b"abcdefgh", 705);
    let reader = cluster.open_write_session(0);
    let mut request = cluster.begin_read(0, reader, key, Some(version), None, true);
    cluster.go_on(&mut request);
    let specs = std::mem::take(&mut request.flow.specs);
    let (_, work) = cluster.ask_for(0, request.scope, specs);
    assert_eq!(cluster.imports(0), (1, 0, 8));
    let scope = request.scope;
    drop(request);
    cluster.finish_scope(0, scope);
    cluster.carry_out(0, scope, work).expect("the block comes");
    assert_eq!(cluster.imports(0), (0, 0, 0));
    assert_eq!(cluster.nodes[1].pulls, 1);
    let result = cluster.get(0, reader, key, Some(version), None).unwrap();
    expect_value(&result, version, b"abcdefgh");
    assert_eq!(cluster.nodes[1].pulls, 1);
}

#[test]
fn cached_stale_location_refreshes_exact_version_once() {
    let mut cluster = Cluster::start(2);
    let writer = cluster.open_write_session(1);
    let key = b"node-cache/stale-location";
    let v1 = cluster.set_inline(1, writer, key, b"abcdefgh", 80);
    let v2 = cluster.set_range(1, writer, key, 4, b"Z", v1, 81).0.version;
    let reader = cluster.open_cached_session(0);
    cluster.meta.stale_location_once = true;
    expect_value(&cluster.read_inline_range(0, reader, key, (4, 1)), v2, b"Z");

    cluster.meta.resolves.clear();
    cluster.nodes[1].pulls = 0;
    expect_value(&cluster.read_inline(0, reader, key), v2, b"abcdZfgh");
    assert_eq!(cluster.meta.resolves, vec![Some(v2)]);
    assert_eq!(cluster.nodes[1].pulls, 1);
}

#[test]
fn expired_node_authority_rechecks_meta_even_with_all_bytes_local() {
    let mut cluster = Cluster::start(2);
    let writer = cluster.open_write_session(1);
    let key = b"node-cache/expired-authority";
    let version = cluster.set_inline(1, writer, key, b"local-after-first-read", 90);
    let reader = cluster.open_cached_session(0);
    cluster.read_inline(0, reader, key);
    let past = cluster.now - SECOND;
    cluster.lease(0, Some(past), None);
    cluster.meta.resolves.clear();
    cluster.nodes[1].pulls = 0;
    expect_value(&cluster.read_inline(0, reader, key), version, b"local-after-first-read");
    assert_eq!(cluster.meta.resolves.len(), 1);
    assert_eq!(cluster.nodes[1].pulls, 0);
}

#[test]
fn mset_invalidates_cached_local_current_key() {
    let mut cluster = Cluster::start(1);
    let writer = cluster.open_write_session(0);
    let key = b"node-cache/mset-a";
    let other_key = b"node-cache/mset-b";
    let v1 = cluster.set_inline(0, writer, key, b"old-a", 13);
    let reader = cluster.open_cached_session(0);
    expect_value(&cluster.read_inline(0, reader, key), v1, b"old-a");

    let (versions, barriers, events) = cluster.mset(
        0,
        writer,
        vec![
            (key.to_vec(), b"new-a".to_vec()),
            (other_key.to_vec(), b"new-b".to_vec()),
        ],
        14,
    );
    expect_event(&events, reader, key, v1 + 1);
    assert_eq!(barriers.len(), 1);
    cluster.acknowledge(&events);
    let over = cluster.ask(
        0,
        NodeCommand::WaitInvalidation {
            barrier_id: barriers[0],
        },
    );
    assert!(matches!(over.answer, NodeAnswer::Done(Ok(()))));
    assert_eq!(versions.len(), 2);
    let v2 = versions[0].version;
    assert!(v2 > v1);

    cluster.meta.resolves.clear();
    expect_value(&cluster.read_inline(0, reader, key), v2, b"new-a");
    expect_value(&cluster.read_inline(0, reader, key), v2, b"new-a");
    assert_eq!(cluster.meta.resolves.len(), 1);
}

#[test]
fn delete_invalidates_cached_current_and_following_get_observes_not_found() {
    let mut cluster = Cluster::start(1);
    let reader = cluster.open_cached_session(0);
    let writer = cluster.open_write_session(0);
    let key = b"node-cache/delete";
    let v1 = cluster.set_inline(0, writer, key, b"live", 20);
    expect_value(&cluster.read_inline(0, reader, key), v1, b"live");

    let (deleted, events) = cluster.delete(0, writer, key, operation_id(0x53, 21));
    expect_event(&events, reader, key, v1 + 1);
    cluster.acknowledge(&events);
    assert!(deleted.deleted);
    assert!(deleted.version > v1);
    let after_delete = cluster.get(0, reader, key, None, None);
    assert!(after_delete.is_err_and(|error| is_not_found_result(&error)));
}

#[test]
fn delayed_remote_resolve_cannot_refill_stale_current_cache() {
    let mut cluster = Cluster::start(2);
    let reader = cluster.open_cached_session(0);
    let writer = cluster.open_write_session(1);
    let key = b"node-cache/two-node-stale-resolve";
    let v1 = cluster.set_inline(1, writer, key, b"remote-v1", 30);
    let mut stale = cluster.begin_read(0, reader, key, None, None, true);
    cluster.look_up(&mut stale);
    stale.requested_at = cluster.now;
    let late = cluster.meta.resolve(key, None);

    let (outcome, events) =
        cluster.write(1, writer, key, b"remote-v2", operation_id(0x54, 31));
    expect_event(&events, reader, key, v1 + 1);
    cluster.acknowledge(&events);
    let v2 = outcome.version;
    assert!(v2 > v1);

    stale.flow.resolved(late);
    let ticket = cluster.end(stale).expect("an older value may still be returned");
    expect_value(&ticket, v1, b"remote-v1");

    cluster.meta.resolves.clear();
    expect_value(&cluster.read_inline(0, reader, key), v2, b"remote-v2");
    expect_value(&cluster.read_inline(0, reader, key), v2, b"remote-v2");
    assert_eq!(cluster.meta.resolves.len(), 1);
}

#[test]
fn meta_watch_reconnect_restores_current_cache_after_stream_drop() {
    let mut cluster = Cluster::start(2);
    let writer = cluster.open_write_session(1);
    let key = b"node-cache/watch-reconnect";
    let v1 = cluster.set_inline(1, writer, key, b"before-drop", 40);
    let reader = cluster.open_cached_session(0);
    expect_value(&cluster.read_inline(0, reader, key), v1, b"before-drop");

    cluster.lease(0, None, Some(false));
    let uncached = cluster.open_attached_session(0);
    assert_eq!(cluster.renew(0, uncached), 0);
    cluster.meta.resolves.clear();
    expect_value(&cluster.read_inline(0, uncached, key), v1, b"before-drop");
    expect_value(&cluster.read_inline(0, uncached, key), v1, b"before-drop");
    assert_eq!(cluster.meta.resolves.len(), 2);
    cluster.ask(
        0,
        NodeCommand::CloseSession {
            session_id: uncached,
        },
    );

    cluster.lease(0, None, Some(true));
    let (outcome, events) =
        cluster.write(1, writer, key, b"after-reconnect", operation_id(0x55, 41));
    expect_event(&events, reader, key, v1 + 1);
    cluster.acknowledge(&events);
    let v2 = outcome.version;
    assert!(v2 > v1);

    cluster.meta.resolves.clear();
    expect_value(&cluster.read_inline(0, reader, key), v2, b"after-reconnect");
    expect_value(&cluster.read_inline(0, reader, key), v2, b"after-reconnect");
    assert_eq!(cluster.meta.resolves.len(), 1);
}

#[test]
fn owner_waits_for_same_key_lease_but_wakes_before_maintenance_tick() {
    let mut cluster = Cluster::start(1);
    let session = cluster.open_attached_session(0);
    let until = cluster.now + 200 * MILLI;
    cluster.lease(0, Some(until), Some(true));
    let granted = cluster.renew(0, session);
    assert!(granted > 100 && granted <= 200);
    let looked_up = cluster.ask(
        0,
        NodeCommand::GetCached {
            session_id: session,
            read_scope_id: u64::MAX,
            read_request_id: 0,
            key: b"same-key".to_vec(),
            node_epoch: 0,
            range: None,
            clamp_range: false,
            max_inline_bytes: 0,
        },
    );
    assert!(matches!(
        looked_up.answer,
        NodeAnswer::Cached(Ok((_, CachedReadOutcome::Miss)))
    ));
    cluster.ask(
        0,
        NodeCommand::CloseSession {
            session_id: session,
        },
    );
    let told = cluster.ask(
        0,
        NodeCommand::InvalidateCurrent {
            key: b"same-key".to_vec(),
            minimum_version: 2,
        },
    );
    assert!(matches!(told.answer, NodeAnswer::Later));
    let waiter = cluster.next_waiter;
    let state = &mut cluster.nodes[0].state;
    let expiry = state
        .sessions
        .next_cache_lease_expiry()
        .expect("a lease runs out");
    assert!(expiry <= until);
    assert!(state.expire_cache_leases(expiry - 1).is_empty());
    assert_eq!(state.expire_cache_leases(expiry), vec![waiter]);
}

#[test]
fn data_core_write_is_not_limited_by_grpc_single_message_size() {
    let mut cluster = Cluster::start(1);
    let key = b"core/larger-than-grpc-message";
    let bytes = vec![0x5a; (GRPC_PAYLOAD_SAFE_BYTES + 1) as usize];
    let version = cluster.put(0, key, &bytes, 1);
    assert_eq!(cluster.read_bytes(0, key, None, None), (version, bytes));
}

#[test]
fn data_core_exact_full_read_retries_with_resolved_version_length() {
    let mut cluster = Cluster::start(1);
    let key = b"core/exact-longer-than-current";
    let long = cluster.put(0, key, b"long-version", 1);
    let short = cluster.put(0, key, b"x", 2);
    assert!(short > long);
    assert_eq!(
        cluster.read_bytes(0, key, Some(long), None),
        (long, b"long-version".to_vec())
    );
}

#[test]
fn image_second_lazy_range_read_reuses_node_peer_cache() {
    let mut cluster = Cluster::start(2);
    let writer = cluster.open_write_session(1);
    let key = b"image/lazy-layer";
    let version = cluster.set_inline(1, writer, key, b"0123456789abcdef", 710);
    cluster.nodes[1].pulls = 0;
    for pulls in [1, 0] {
        cluster.meta.resolves.clear();
        cluster.nodes[1].pulls = 0;
        let read = cluster.read_bytes(0, key, Some(version), Some((4, 4)));
        assert_eq!(read, (version, b"4567".to_vec()));
        assert!(!cluster.meta.resolves.is_empty());
        assert_eq!(cluster.nodes[1].pulls, pulls);
    }
}

#[test]
fn data_core_current_cache_is_shared_with_filesystem_without_meta_or_peer_on_second_read() {
    let mut cluster = Cluster::start(2);
    let writer = cluster.open_write_session(1);
    let key = b"fs:/cache/shared-current";
    let version = cluster.set_inline(1, writer, key, b"0123456789abcdef", 711);
    cluster.meta.resolves.clear();
    cluster.nodes[1].pulls = 0;
    for (resolves, pulls) in [(1, 1), (0, 0)] {
        cluster.meta.resolves.clear();
        cluster.nodes[1].pulls = 0;
        let attempt = cluster.read_into(0, key, None, Some((4, 4)), vec![0; 4]);
        let DataCoreReadAttempt::Ready(result) = attempt else {
            panic!("object exists")
        };
        assert_eq!(result.version, version);
        assert_eq!(result.bytes, b"4567");
        assert_eq!(cluster.meta.resolves.len(), resolves);
        assert_eq!(cluster.nodes[1].pulls, pulls);
    }
}

#[test]
fn a_block_that_was_pulled_is_found_here_from_then_on() {
    let mut cluster = Cluster::start(3);
    let writer = cluster.open_write_session(2);
    let version = cluster.set_inline(2, writer, b"key", b"value", 1);
    let first = cluster.open_write_session(0);
    expect_value(&cluster.get(0, first, b"key", Some(version), None).unwrap(), version, b"value");
    let block_id = dms_node::identity::block_identity("test-node-3", &operation_id(0x51, 1));
    assert_eq!(cluster.meta.blocks[&block_id].nodes, vec![2, 0]);
    assert_eq!(cluster.meta.blocks[&block_id].checksum, digest(b"value"));
    cluster.nodes[2].state.arena.retire_block(&block_id);
    let second = cluster.open_write_session(1);
    expect_value(&cluster.get(1, second, b"key", Some(version), None).unwrap(), version, b"value");
    assert_eq!(cluster.nodes[2].pulls, 2);
    assert_eq!(cluster.nodes[0].pulls, 1);
}

#[test]
fn a_staged_value_reads_back_and_is_used_once() {
    let mut cluster = Cluster::start(1);
    let session = cluster.open_write_session(0);
    let (staging_id, receipt) = cluster.stage(0, session, b"staged");
    let command = |sequence: u64| NodeCommand::SetValue {
        session_id: session,
        key: b"key".to_vec(),
        staging_id,
        receipt: receipt.duplicate(),
        operation_id: operation_id(0x51, sequence),
        condition: "any".to_string(),
    };
    let proposed = cluster.ask(0, command(1)).answer;
    let (outcome, _) = cluster.publish_value(0, proposed);
    assert_eq!(outcome.length, 6);
    let ticket = cluster
        .get(0, session, b"key", Some(outcome.version), None)
        .expect("the value is there");
    expect_value(&ticket, outcome.version, b"staged");
    assert!(matches!(
        cluster.ask(0, command(2)).answer,
        NodeAnswer::Value(Err(WorkerError::UnknownStaging))
    ));
}

#[test]
fn a_finished_request_gets_no_more_bytes() {
    let mut cluster = Cluster::start(1);
    let session = cluster.open_write_session(0);
    let version = cluster.set_inline(0, session, b"key", b"value", 1);
    let resolved = cluster.meta.resolve(b"key", Some(version)).expect("the value is there");
    let read = |read_request_id: u64, resolved: &ResolveObjectResponse| NodeCommand::GetResolved {
        session_id: session,
        read_scope_id: u64::MAX,
        read_request_id,
        resolved: resolved.duplicate(),
        range: None,
        clamp_range: false,
        max_inline_bytes: 0,
        cache_refill: None,
    };
    let first = cluster.ask(0, read(4, &resolved)).answer;
    assert!(matches!(first, NodeAnswer::Read(Ok(GetOutcome::Ready(_)))));
    assert_eq!(cluster.nodes[0].state.downloads.len(), 1);
    for finished in [5, 3] {
        let beat = cluster.ask(
            0,
            NodeCommand::Heartbeat {
                session_id: session,
                released_view_through: None,
                released_write_allocations: Vec::new(),
                finished_read_request_through: Some(finished),
                renew_cache: false,
                stream_closed: false,
            },
        );
        assert!(matches!(beat.answer, NodeAnswer::Number(Ok(0))));
    }
    assert_eq!(cluster.nodes[0].state.downloads.len(), 0);
    assert!(matches!(
        cluster.ask(0, read(5, &resolved)).answer,
        NodeAnswer::Read(Err(WorkerError::InvalidArgument(
            "read request has already finished"
        )))
    ));
    assert!(matches!(
        cluster.ask(0, read(6, &resolved)).answer,
        NodeAnswer::Read(Ok(GetOutcome::Ready(_)))
    ));
}
