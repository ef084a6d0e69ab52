//! The event stream of a follow subscription and the responses of the
//! on-demand methods. Block hashes are fixed-width values, carried here as
//! plain `u64`; byte payloads (headers, extrinsics, storage keys and values,
//! call outputs) travel as `0x`-prefixed hex strings.

use vstd::prelude::*;

verus! {

/// The result carried by one storage item.
#[derive(Debug, Clone, PartialEq, Eq)]
pub enum StorageResultType {
    /// The hex-encoded value under the key.
    Value(String),
    /// The hex-encoded digest of the value under the key.
    Hash(String),
    /// The hex-encoded merkle value of the closest descendant node.
    ClosestDescendantMerkleValue(String),
}

/// One storage item: the queried key and its result.
#[derive(Debug, Clone, PartialEq, Eq)]
pub struct StorageResultItem {
    pub key: String,
    pub result: StorageResultType,
}

/// Spec view of `StorageResultType`.
pub enum StorageResultTypeV {
    Value(Seq<char>),
    Hash(Seq<char>),
    ClosestDescendantMerkleValue(Seq<char>),
}

/// Spec view of `StorageResultItem`.
pub struct StorageResultItemV {
    pub key: Seq<char>,
    pub result: StorageResultTypeV,
}

impl View for StorageResultType {
    type V = StorageResultTypeV;

    open spec fn view(&self) -> StorageResultTypeV {
        match self {
            StorageResultType::Value(s) => StorageResultTypeV::Value(s@),
            StorageResultType::Hash(s) => StorageResultTypeV::Hash(s@),
            StorageResultType::ClosestDescendantMerkleValue(s) => (
                StorageResultTypeV::ClosestDescendantMerkleValue(s@)
            ),
        }
    }
}

impl View for StorageResultItem {
    type V = StorageResultItemV;

    open spec fn view(&self) -> StorageResultItemV {
        StorageResultItemV { key: self.key@, result: self.result@ }
    }
}

/// One event of a follow subscription's stream.
#[derive(Debug, Clone, PartialEq, Eq)]
pub enum FollowEvent {
    Initialized { finalized_hash: u64, finalized_runtime: Option<u64>, with_runtime: bool },
    NewBlock { hash: u64, parent_hash: u64, new_runtime: Option<u64>, with_runtime: bool },
    BestBlockChanged { hash: u64 },
    Finalized { finalized_hashes: Vec<u64>, pruned_hashes: Vec<u64> },
    Stop,
    OperationBodyDone { operation_id: String, value: Vec<String> },
    OperationCallDone { operation_id: String, output: String },
    OperationStorageItems { operation_id: String, items: Vec<StorageResultItem> },
    OperationStorageDone { operation_id: String },
    OperationWaitingForContinue { operation_id: String },
    OperationError { operation_id: String, error: String },
}

/// Spec view of `FollowEvent`.
pub enum EventV {
    Initialized { finalized_hash: u64, finalized_runtime: Option<u64>, with_runtime: bool },
    NewBlock { hash: u64, parent_hash: u64, new_runtime: Option<u64>, with_runtime: bool },
    BestBlockChanged { hash: u64 },
    Finalized { finalized_hashes: Seq<u64>, pruned_hashes: Seq<u64> },
    Stop,
    OperationBodyDone { operation_id: Seq<char>, value: Seq<Seq<char>> },
    OperationCallDone { operation_id: Seq<char>, output: Seq<char> },
    OperationStorageItems { operation_id: Seq<char>, items: Seq<StorageResultItemV> },
    OperationStorageDone { operation_id: Seq<char> },
    OperationWaitingForContinue { operation_id: Seq<char> },
    OperationError { operation_id: Seq<char>, error: Seq<char> },
}

impl View for FollowEvent {
    type V = EventV;

    open spec fn view(&self) -> EventV {
        match self {
            FollowEvent::Initialized { finalized_hash, finalized_runtime, with_runtime } => (
                EventV::Initialized {
                    finalized_hash: *finalized_hash,
                    finalized_runtime: *finalized_runtime,
                    with_runtime: *with_runtime,
                }
            ),
            FollowEvent::NewBlock { hash, parent_hash, new_runtime, with_runtime } => (
                EventV::NewBlock {
                    hash: *hash,
                    parent_hash: *parent_hash,
                    new_runtime: *new_runtime,
                    with_runtime: *with_runtime,
                }
            ),
            FollowEvent::BestBlockChanged { hash } => EventV::BestBlockChanged { hash: *hash },
            FollowEvent::Finalized { finalized_hashes, pruned_hashes } => EventV::Finalized {
                finalized_hashes: finalized_hashes@,
                pruned_hashes: pruned_hashes@,
            },
            FollowEvent::Stop => EventV::Stop,
            FollowEvent::OperationBodyDone { operation_id, value } => EventV::OperationBodyDone {
                operation_id: operation_id@,
                value: value.deep_view(),
            },
            FollowEvent::OperationCallDone { operation_id, output } => EventV::OperationCallDone {
                operation_id: operation_id@,
                output: output@,
            },
            FollowEvent::OperationStorageItems { operation_id, items } => (
                EventV::OperationStorageItems { operation_id: operation_id@, items: items@.map_values(|it: StorageResultItem| it@) }
            ),
            FollowEvent::OperationStorageDone { operation_id } => EventV::OperationStorageDone {
                operation_id: operation_id@,
            },
            FollowEvent::OperationWaitingForContinue { operation_id } => (
                EventV::OperationWaitingForContinue { operation_id: operation_id@ }
            ),
            FollowEvent::OperationError { operation_id, error } => EventV::OperationError {
                operation_id: operation_id@,
                error: error@,
            },
        }
    }
}

/// The spec view of a vector of events.
pub open spec fn events_view(s: Seq<FollowEvent>) -> Seq<EventV> {
    s.map_values(|e: FollowEvent| e@)
}

/// The hashes a non-Stop event refers to without advertising them.
pub open spec fn event_refs(e: EventV) -> Set<u64> {
    match e {
        EventV::Initialized { .. } => Set::empty(),
        EventV::NewBlock { parent_hash, .. } => set![parent_hash],
        EventV::BestBlockChanged { hash } => set![hash],
        EventV::Finalized { finalized_hashes, pruned_hashes } => (
            finalized_hashes.to_set() + pruned_hashes.to_set()
        ),
        _ => Set::empty(),
    }
}

/// The hashes an event advertises to the subscriber.
pub open spec fn event_advertises(e: EventV) -> Set<u64> {
    match e {
        EventV::Initialized { finalized_hash, .. } => set![finalized_hash],
        EventV::NewBlock { hash, .. } => set![hash],
        _ => Set::empty(),
    }
}

/// The operation id an operation event carries, if any.
pub open spec fn event_op_id(e: EventV) -> Option<Seq<char>> {
    match e {
        EventV::OperationBodyDone { operation_id, .. } => Some(operation_id),
        EventV::OperationCallDone { operation_id, .. } => Some(operation_id),
        EventV::OperationStorageItems { operation_id, .. } => Some(operation_id),
        EventV::OperationStorageDone { operation_id } => Some(operation_id),
        EventV::OperationWaitingForContinue { operation_id } => Some(operation_id),
        EventV::OperationError { operation_id, .. } => Some(operation_id),
        _ => None,
    }
}

/// Whether an event ends the operation it names.
pub open spec fn is_terminal_op_event(e: EventV) -> bool {
    match e {
        EventV::OperationBodyDone { .. } => true,
        EventV::OperationCallDone { .. } => true,
        EventV::OperationStorageDone { .. } => true,
        EventV::OperationError { .. } => true,
        _ => false,
    }
}

/// The response of a method that starts an operation.
#[derive(Debug, Clone, PartialEq, Eq)]
pub enum MethodResponse {
    Started { operation_id: String, discarded_items: Option<usize> },
    LimitReached,
}

/// A storage query as supplied over the RPC surface: a hex-encoded key and
/// the kind of lookup to run at it.
#[derive(Debug, Clone, PartialEq, Eq)]
pub struct StorageQuery {
    pub key: String,
    pub query_type: StorageQueryType,
}

#[derive(Debug, Clone, Copy, PartialEq, Eq, Structural)]
pub enum StorageQueryType {
    Value,
    Hash,
    DescendantsValues,
    DescendantsHashes,
    ClosestDescendantMerkleValue,
}

/// The errors the on-demand methods report, with the stable codes and
/// messages of the RPC surface.
#[derive(Debug, Clone, Copy, PartialEq, Eq, Structural)]
pub enum RpcError {
    /// The supplied hash is not pinned in the subscription.
    InvalidBlock,
    /// A supplied parameter does not decode.
    InvalidParam,
    /// A runtime call on a subscription started without runtime support.
    InvalidRuntimeCall,
}

impl RpcError {
    /// The stable numeric code of this error.
    pub fn code(&self) -> (r: i32)
        ensures
            *self is InvalidBlock ==> r == -32801,
            *self is InvalidRuntimeCall ==> r == -32802,
            *self is InvalidParam ==> r == -32602,
    {
        match self {
            RpcError::InvalidBlock => -32801,
            RpcError::InvalidRuntimeCall => -32802,
            RpcError::InvalidParam => -32602,
        }
    }

    /// The message text of this error.
    pub fn message(&self) -> (r: String)
        ensures
            *self is InvalidBlock ==> r@ == "Invalid block hash"@,
            *self is InvalidParam ==> r@ == "Invalid parameter"@,
            *self is InvalidRuntimeCall ==> r@
                == "The subscription was started with `withRuntime` set to `false`"@,
    {
        match self {
            RpcError::InvalidBlock => "Invalid block hash".to_owned(),
            RpcError::InvalidParam => "Invalid parameter".to_owned(),
            RpcError::InvalidRuntimeCall => (
                "The subscription was started with `withRuntime` set to `false`".to_owned()
            ),
        }
    }
}

} // verus!
