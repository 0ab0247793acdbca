//! The names of operations and of blocks.
use crate::bytes::{append_bytes, be_bytes, copy_bytes};
#[allow(unused_imports)]
use crate::bytes::be_bytes_of;
use crate::digest::digest;
#[allow(unused_imports)]
use crate::digest::sha256_of;
use crate::error::WorkerError;
use crate::limits::OPERATION_ID_BYTES;
use vstd::prelude::*;

verus! {

/// The bytes of an operation's name that name the client.
pub const CLIENT_ID_BYTES: usize = 16;

/// The name of a client's operation: the client's byte sixteen times, and the sequence number.
pub open spec fn operation_name(prefix: u8, sequence: u64) -> Seq<u8> {
    Seq::new(CLIENT_ID_BYTES as nat, |i: int| prefix) + be_bytes_of(sequence)
}

/// The name of a client's operation: the client's byte sixteen times, and the sequence number.
pub fn operation_id(prefix: u8, sequence: u64) -> (name: Vec<u8>)
    ensures
        name@ == operation_name(prefix, sequence),
        name@.len() == OPERATION_ID_BYTES,
{
    let mut name: Vec<u8> = Vec::with_capacity(OPERATION_ID_BYTES);
    let mut i: usize = 0;
    while i < CLIENT_ID_BYTES
        invariant
            i <= CLIENT_ID_BYTES,
            name@ =~= Seq::new(i as nat, |i: int| prefix),
        decreases CLIENT_ID_BYTES - i,
    {
        name.push(prefix);
        i = i + 1;
    }
    append_bytes(&mut name, &be_bytes(sequence));
    name
}

/// The name of the block that an operation writes.
pub open spec fn block_name(node_id: Seq<char>, operation_id: Seq<u8>) -> Seq<u8> {
    sha256_of(vstd::utf8::encode_utf8(node_id) + operation_id)
}

/// The name of the block that an operation on a node writes. A repeated operation writes the
/// same block.
pub fn block_identity(node_id: &str, operation_id: &[u8]) -> (name: Vec<u8>)
    ensures
        name@ == block_name(node_id@, operation_id@),
        name@.len() == 32,
{
    let mut input: Vec<u8> = copy_bytes(node_id.as_bytes());
    append_bytes(&mut input, operation_id);
    digest(&input)
}

/// The name of a part of a batch operation: the client's bytes of the batch's name, and eight
/// bytes that depend on the batch and on the part.
pub open spec fn derived_operation(operation_id: Seq<u8>, index: u64) -> Seq<u8> {
    operation_id.take(CLIENT_ID_BYTES as int) + sha256_of(
        operation_id + be_bytes_of(index),
    ).take(8)
}

/// The name of a part of a batch operation. It keeps the client, and a repeated batch gives the
/// same names.
pub fn derive_batch_operation_id(operation_id: &[u8], index: usize) -> (derived: Result<
    Vec<u8>,
    WorkerError,
>)
    ensures
        match derived {
            Ok(name) => {
                &&& operation_id@.len() == OPERATION_ID_BYTES
                &&& name@ == derived_operation(operation_id@, index as u64)
                &&& name@.len() == OPERATION_ID_BYTES
                &&& name@.take(CLIENT_ID_BYTES as int) == operation_id@.take(CLIENT_ID_BYTES as int)
            },
            Err(error) => operation_id@.len() != OPERATION_ID_BYTES && error
                == WorkerError::InvalidArgument(
                "operation identity must contain client id and sequence",
            ),
        },
{
    if operation_id.len() != OPERATION_ID_BYTES {
        return Err(
            WorkerError::InvalidArgument("operation identity must contain client id and sequence"),
        );
    }
    let mut input: Vec<u8> = copy_bytes(operation_id);
    append_bytes(&mut input, &be_bytes(index as u64));
    let proof_of_part: Vec<u8> = digest(&input);
    let mut name: Vec<u8> = Vec::with_capacity(OPERATION_ID_BYTES);
    append_bytes(&mut name, vstd::slice::slice_subrange(operation_id, 0, CLIENT_ID_BYTES));
    append_bytes(&mut name, vstd::slice::slice_subrange(proof_of_part.as_slice(), 0, 8));
    assert(operation_id@.subrange(0, 16) =~= operation_id@.take(16));
    assert(proof_of_part@.subrange(0, 8) =~= proof_of_part@.take(8));
    assert(name@.take(16) =~= operation_id@.take(16));
    Ok(name)
}

/// The digit of a number below sixteen.
pub open spec fn hex_digit(value: u8) -> char {
    if value < 10 {
        (0x30 + value) as char
    } else {
        (0x57 + value) as char
    }
}

/// The bytes as two lower-case digits each.
pub open spec fn hex_of(bytes: Seq<u8>) -> Seq<char>
    decreases bytes.len(),
{
    if bytes.len() == 0 {
        Seq::empty()
    } else {
        hex_of(bytes.drop_last()).push(hex_digit(bytes.last() / 16)).push(
            hex_digit((bytes.last() % 16) as u8),
        )
    }
}

/// Calls `String::push`, which appends the character.
#[verifier::external_body]
pub(crate) fn push_char(text: &mut String, character: char)
    ensures
        final(text)@ == old(text)@.push(character),
{
    text.push(character);
}

/// The digit of a number below sixteen.
pub(crate) fn digit(value: u8) -> (character: char)
    requires
        value < 16,
    ensures
        character == hex_digit(value),
{
    if value < 10 {
        (0x30 + value) as char
    } else {
        (0x57 + value) as char
    }
}

/// Names of operations differ if their clients or their numbers do. They are as long as an operation's
/// name has to be, and begin with the client's bytes.
pub proof fn names_of_different_operations_differ(
    prefix: u8,
    sequence: u64,
    other_prefix: u8,
    other_sequence: u64,
)
    ensures
        operation_name(prefix, sequence).len() == 24,
        forall|i: int| 0 <= i < 16 ==> #[trigger] operation_name(prefix, sequence)[i] == prefix,
        operation_name(prefix, sequence) == operation_name(other_prefix, other_sequence) ==> prefix
            == other_prefix && sequence == other_sequence,
{
    let name = operation_name(prefix, sequence);
    let other = operation_name(other_prefix, other_sequence);
    assert(name[0] == prefix && other[0] == other_prefix);
    assert(name.skip(16) =~= be_bytes_of(sequence));
    assert(other.skip(16) =~= be_bytes_of(other_sequence));
    if name == other {
        crate::bytes::be_bytes_are_injective(sequence, other_sequence);
    }
}

/// The name of a part of a batch keeps the client's bytes of the batch's name.
pub proof fn a_part_of_a_batch_keeps_the_client(operation_id: Seq<u8>, index: u64)
    requires
        operation_id.len() == 24,
    ensures
        derived_operation(operation_id, index).take(16) == operation_id.take(16),
        derived_operation(operation_id, index).skip(16) == sha256_of(
            operation_id + be_bytes_of(index),
        ).take(8),
{
    assert(derived_operation(operation_id, index).take(16) =~= operation_id.take(16));
    assert(derived_operation(operation_id, index).skip(16) =~= sha256_of(
        operation_id + be_bytes_of(index),
    ).take(8));
}

/// The number that a lower-case digit stands for.
pub open spec fn digit_value(digit: char) -> int {
    if '0' <= digit <= '9' {
        digit as int - '0' as int
    } else {
        digit as int - 'a' as int + 10
    }
}

/// Bytes are written as two lower-case digits each, the higher one first, in their order, so that
/// different bytes are written differently.
pub proof fn digits_stand_for_their_bytes(bytes: Seq<u8>, other: Seq<u8>)
    ensures
        hex_of(bytes).len() == 2 * bytes.len(),
        forall|i: int|
            #![trigger bytes[i]]
            0 <= i < bytes.len() ==> digit_value(hex_of(bytes)[2 * i]) * 16 + digit_value(
                hex_of(bytes)[2 * i + 1],
            ) == bytes[i],
        forall|i: int|
            #![trigger hex_of(bytes)[i]]
            0 <= i < hex_of(bytes).len() ==> '0' <= hex_of(bytes)[i] <= '9' || 'a' <= hex_of(
                bytes,
            )[i] <= 'f',
        hex_of(bytes) == hex_of(other) ==> bytes == other,
{
    lemma_digits(bytes);
    lemma_digits(other);
    if hex_of(bytes) == hex_of(other) {
        assert forall|i: int| 0 <= i < bytes.len() implies bytes[i] == other[i] by {
            assert(bytes[i] == bytes[i]);
            assert(other[i] == other[i]);
        }
        assert(bytes =~= other);
    }
}

proof fn lemma_digits(bytes: Seq<u8>)
    ensures
        hex_of(bytes).len() == 2 * bytes.len(),
        forall|i: int|
            #![trigger bytes[i]]
            0 <= i < bytes.len() ==> digit_value(hex_of(bytes)[2 * i]) * 16 + digit_value(
                hex_of(bytes)[2 * i + 1],
            ) == bytes[i],
        forall|i: int|
            #![trigger hex_of(bytes)[i]]
            0 <= i < hex_of(bytes).len() ==> '0' <= hex_of(bytes)[i] <= '9' || 'a' <= hex_of(
                bytes,
            )[i] <= 'f',
    decreases bytes.len(),
{
    if bytes.len() > 0 {
        let rest = bytes.drop_last();
        let all = hex_of(bytes);
        lemma_digits(rest);
        assert forall|i: int| #![trigger bytes[i]] 0 <= i < bytes.len() implies digit_value(
            all[2 * i],
        ) * 16 + digit_value(all[2 * i + 1]) == bytes[i] by {
            if i < rest.len() {
                assert(rest[i] == bytes[i]);
                assert(all[2 * i] == hex_of(rest)[2 * i]);
                assert(all[2 * i + 1] == hex_of(rest)[2 * i + 1]);
            } else {
                assert(all[2 * i] == hex_digit(bytes.last() / 16));
                assert(all[2 * i + 1] == hex_digit((bytes.last() % 16) as u8));
            }
        }
        assert forall|i: int| #![trigger all[i]] 0 <= i < all.len() implies '0' <= all[i] <= '9'
            || 'a' <= all[i] <= 'f' by {
            if i < hex_of(rest).len() {
                assert(all[i] == hex_of(rest)[i]);
            }
        }
    }
}

/// The bytes as two lower-case digits each.
pub fn bytes_to_lower_hex(bytes: &[u8]) -> (text: String)
    ensures
        text@ == hex_of(bytes@),
{
    let mut text: String = String::new();
    let mut i: usize = 0;
    assert(bytes@.take(0) =~= Seq::empty());
    while i < bytes.len()
        invariant
            i <= bytes@.len(),
            text@ == hex_of(bytes@.take(i as int)),
        decreases bytes.len() - i,
    {
        assert(bytes@.take(i + 1).drop_last() =~= bytes@.take(i as int));
        push_char(&mut text, digit(bytes[i] / 16));
        push_char(&mut text, digit(bytes[i] % 16));
        i = i + 1;
    }
    assert(bytes@.take(i as int) =~= bytes@);
    text
}

} // verus!
