//! The limits that the node keeps, whoever asks.
use crate::arena::HostReceipt;
#[allow(unused_imports)]
use crate::bytes::views;
use crate::error::WorkerError;
use vstd::prelude::*;

verus! {

/// The most bytes of a key.
pub const USER_KEY_BYTES_MAX: usize = 1024;

/// The most bytes of a field.
pub const USER_FIELD_BYTES_MAX: usize = 1024;

/// The most entries of one batch.
pub const BATCH_MAX_ITEMS: usize = 1024;

/// The most payload bytes of one batch.
pub const BATCH_MAX_PAYLOAD_BYTES: u64 = 8388608;

/// The most payload bytes of one message.
pub const GRPC_PAYLOAD_SAFE_BYTES: u64 = 8388608;

/// The bytes of an operation's name: sixteen for the client and eight for a sequence number.
pub const OPERATION_ID_BYTES: usize = 24;

/// What is wrong with a key.
pub open spec fn key_fault(key: Seq<u8>) -> Option<WorkerError> {
    if key.len() == 0 {
        Some(WorkerError::InvalidArgument("key must not be empty"))
    } else if key.len() > USER_KEY_BYTES_MAX {
        Some(WorkerError::InvalidArgument("key length exceeds 1024 bytes"))
    } else {
        None
    }
}

/// What is wrong with a field.
pub open spec fn field_fault(field: Seq<u8>) -> Option<WorkerError> {
    if field.len() == 0 {
        Some(WorkerError::InvalidArgument("field must not be empty"))
    } else if field.len() > USER_FIELD_BYTES_MAX {
        Some(WorkerError::InvalidArgument("field length exceeds 1024 bytes"))
    } else {
        None
    }
}

/// What is wrong with an operation's name.
pub open spec fn operation_fault(operation_id: Seq<u8>) -> Option<WorkerError> {
    if operation_id.len() != OPERATION_ID_BYTES {
        Some(WorkerError::InvalidArgument("operation identity is required"))
    } else {
        None
    }
}

/// What is wrong with a payload of some length.
pub open spec fn payload_fault(length: u64) -> Option<WorkerError> {
    if length > GRPC_PAYLOAD_SAFE_BYTES {
        Some(WorkerError::ResourceExhausted)
    } else {
        None
    }
}

/// The fault as the result of a check.
pub open spec fn checked(fault: Option<WorkerError>) -> Result<(), WorkerError> {
    match fault {
        Some(error) => Err(error),
        None => Ok(()),
    }
}

/// A batch entry: a key, where its payload is staged, and what there is to show for it.
pub struct BatchEntry {
    pub key: Vec<u8>,
    pub staging_id: u64,
    pub receipt: HostReceipt,
}

/// A batch entry, as a value.
#[verifier::ext_equal]
pub struct BatchEntryView {
    pub key: Seq<u8>,
    pub staging_id: u64,
    pub receipt: crate::arena::ReceiptView,
}

impl View for BatchEntry {
    type V = BatchEntryView;

    open spec fn view(&self) -> BatchEntryView {
        BatchEntryView { key: self.key@, staging_id: self.staging_id, receipt: self.receipt@ }
    }
}

/// The payload bytes of the entries so far, or what is wrong with the first bad one.
pub open spec fn batch_total(entries: Seq<BatchEntryView>) -> Result<int, WorkerError>
    decreases entries.len(),
{
    if entries.len() == 0 {
        Ok(0)
    } else {
        match batch_total(entries.drop_last()) {
            Err(error) => Err(error),
            Ok(earlier) => {
                let entry = entries.last();
                if key_fault(entry.key) is Some {
                    Err(key_fault(entry.key)->0)
                } else if earlier + entry.receipt.length > BATCH_MAX_PAYLOAD_BYTES {
                    Err(WorkerError::ResourceExhausted)
                } else {
                    Ok(earlier + entry.receipt.length)
                }
            },
        }
    }
}

/// What is wrong with a batch.
pub open spec fn batch_fault(entries: Seq<BatchEntryView>) -> Option<WorkerError> {
    if entries.len() == 0 {
        Some(WorkerError::InvalidArgument("MSet entries are empty"))
    } else if entries.len() > BATCH_MAX_ITEMS {
        Some(WorkerError::ResourceExhausted)
    } else {
        match batch_total(entries) {
            Err(error) => Some(error),
            Ok(_) => None,
        }
    }
}

/// Keys and fields have from one to 1024 bytes, names of operations exactly 24, and payloads of
/// messages at most eight mebibytes. Everything in these bounds is accepted, and nothing else.
pub proof fn what_is_in_bounds_is_accepted(name: Seq<u8>, length: u64)
    ensures
        key_fault(name) is None <==> 1 <= name.len() <= 1024,
        field_fault(name) is None <==> 1 <= name.len() <= 1024,
        operation_fault(name) is None <==> name.len() == 24,
        payload_fault(length) is None <==> length <= 8388608,
        key_fault(name) matches Some(error) ==> error is InvalidArgument,
        field_fault(name) matches Some(error) ==> error is InvalidArgument,
        operation_fault(name) matches Some(error) ==> error is InvalidArgument,
        payload_fault(length) matches Some(error) ==> error is ResourceExhausted,
        checked(key_fault(name)) is Ok <==> key_fault(name) is None,
{
}

/// The payload bytes of some entries together.
pub open spec fn payload_sum(entries: Seq<BatchEntryView>) -> nat
    decreases entries.len(),
{
    if entries.len() == 0 {
        0
    } else {
        payload_sum(entries.drop_last()) + entries.last().receipt.length as nat
    }
}

/// A batch is accepted if and only if it has entries, but no more than fit into one, each with a
/// proper key, and their payloads together fit into eight mebibytes.
pub proof fn a_batch_in_bounds_is_accepted(entries: Seq<BatchEntryView>)
    ensures
        batch_fault(entries) is None <==> 1 <= entries.len() <= 1024 && payload_sum(
            entries,
        ) <= 8388608 && forall|i: int|
            #![trigger entries[i]]
            0 <= i < entries.len() ==> 1 <= entries[i].key.len() <= 1024,
{
    lemma_batch_total(entries);
}

proof fn lemma_batch_total(entries: Seq<BatchEntryView>)
    ensures
        batch_total(entries) is Ok <==> payload_sum(entries) <= 8388608 && forall|i: int|
            #![trigger entries[i]]
            0 <= i < entries.len() ==> 1 <= entries[i].key.len() <= 1024,
        batch_total(entries) matches Ok(sum) ==> sum == payload_sum(entries),
    decreases entries.len(),
{
    if entries.len() > 0 {
        let rest = entries.drop_last();
        lemma_batch_total(rest);
        let last = entries.len() - 1;
        assert(entries[last] == entries.last());
        if batch_total(entries) is Ok {
            assert forall|i: int| #![trigger entries[i]] 0 <= i < entries.len() implies 1
                <= entries[i].key.len() <= 1024 by {
                if i < rest.len() {
                    assert(rest[i] == entries[i]);
                }
            }
        } else if payload_sum(entries) <= 8388608 && (forall|i: int|
            #![trigger entries[i]]
            0 <= i < entries.len() ==> 1 <= entries[i].key.len() <= 1024) {
            assert forall|i: int| #![trigger rest[i]] 0 <= i < rest.len() implies 1
                <= rest[i].key.len() <= 1024 by {
                assert(rest[i] == entries[i]);
            }
            assert(false);
        }
    }
}

/// Fails for a key that is empty or too long.
pub fn validate_user_key(key: &[u8]) -> (valid: Result<(), WorkerError>)
    ensures
        valid == checked(key_fault(key@)),
{
    if key.len() == 0 {
        return Err(WorkerError::InvalidArgument("key must not be empty"));
    }
    if key.len() > USER_KEY_BYTES_MAX {
        return Err(WorkerError::InvalidArgument("key length exceeds 1024 bytes"));
    }
    Ok(())
}

/// Fails for a field that is empty or too long.
pub fn validate_user_field(field: &[u8]) -> (valid: Result<(), WorkerError>)
    ensures
        valid == checked(field_fault(field@)),
{
    if field.len() == 0 {
        return Err(WorkerError::InvalidArgument("field must not be empty"));
    }
    if field.len() > USER_FIELD_BYTES_MAX {
        return Err(WorkerError::InvalidArgument("field length exceeds 1024 bytes"));
    }
    Ok(())
}

/// Fails for an operation's name of the wrong length.
pub fn validate_operation_id(operation_id: &[u8]) -> (valid: Result<(), WorkerError>)
    ensures
        valid == checked(operation_fault(operation_id@)),
{
    if operation_id.len() != OPERATION_ID_BYTES {
        return Err(WorkerError::InvalidArgument("operation identity is required"));
    }
    Ok(())
}

/// Fails for a payload that is too long for one message.
pub fn validate_grpc_payload_bytes(length: u64) -> (valid: Result<(), WorkerError>)
    ensures
        valid == checked(payload_fault(length)),
{
    if length > GRPC_PAYLOAD_SAFE_BYTES {
        return Err(WorkerError::ResourceExhausted);
    }
    Ok(())
}

proof fn lemma_batch_fault_stays(entries: Seq<BatchEntryView>, n: int)
    requires
        0 <= n <= entries.len(),
        batch_total(entries.take(n)) is Err,
    ensures
        batch_total(entries) == batch_total(entries.take(n)),
    decreases entries.len() - n,
{
    if n < entries.len() {
        assert(entries.take(n + 1).drop_last() =~= entries.take(n));
        lemma_batch_fault_stays(entries, n + 1);
    } else {
        assert(entries.take(n) =~= entries);
    }
}

/// Fails for a batch that is empty or too large, or has a bad key.
pub fn validate_batch_write(entries: &Vec<BatchEntry>) -> (valid: Result<(), WorkerError>)
    ensures
        valid == checked(batch_fault(views(entries@))),
{
    let ghost all = views(entries@);
    if entries.len() == 0 {
        return Err(WorkerError::InvalidArgument("MSet entries are empty"));
    }
    if entries.len() > BATCH_MAX_ITEMS {
        return Err(WorkerError::ResourceExhausted);
    }
    let mut total: u64 = 0;
    let mut i: usize = 0;
    assert(all.take(0) =~= Seq::empty());
    while i < entries.len()
        invariant
            i <= entries@.len(),
            0 < entries@.len() <= BATCH_MAX_ITEMS,
            all == views(entries@),
            batch_total(all.take(i as int)) == Ok::<int, WorkerError>(total as int),
            total <= BATCH_MAX_PAYLOAD_BYTES,
        decreases entries.len() - i,
    {
        proof {
            assert(all.take(i + 1).drop_last() =~= all.take(i as int));
            assert(all.take(i + 1).last() == entries@[i as int]@);
        }
        match validate_user_key(&entries[i].key) {
            Ok(_) => {},
            Err(error) => {
                proof {
                    lemma_batch_fault_stays(all, i + 1);
                }
                return Err(error);
            },
        }
        total = match total.checked_add(entries[i].receipt.length) {
            Some(total) => total,
            None => {
                proof {
                    lemma_batch_fault_stays(all, i + 1);
                }
                return Err(WorkerError::ResourceExhausted);
            },
        };
        if total > BATCH_MAX_PAYLOAD_BYTES {
            proof {
                lemma_batch_fault_stays(all, i + 1);
            }
            return Err(WorkerError::ResourceExhausted);
        }
        i = i + 1;
    }
    assert(all.take(i as int) =~= all);
    Ok(())
}

} // verus!
