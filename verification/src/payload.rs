//! Bytes on their way through the node. They are shared between those who wait for them.
use crate::bytes::copy_bytes;
use vstd::prelude::*;

verus! {

/// Shared bytes, as they come from the wire.
#[verifier::external_type_specification]
#[verifier::external_body]
pub struct ExBytes(prost::bytes::Bytes);

/// What shared bytes hold.
pub uninterp spec fn shared_bytes(bytes: prost::bytes::Bytes) -> Seq<u8>;

/// Calls `Bytes::from(Vec<u8>)`. The shared bytes hold what the vector held.
#[verifier::external_body]
fn share(bytes: Vec<u8>) -> (shared: prost::bytes::Bytes)
    ensures
        shared_bytes(shared) == bytes@,
{
    prost::bytes::Bytes::from(bytes)
}

/// Calls `Bytes::clone`. The copy holds what the shared bytes hold.
#[verifier::external_body]
fn share_again(bytes: &prost::bytes::Bytes) -> (copy: prost::bytes::Bytes)
    ensures
        shared_bytes(copy) == shared_bytes(*bytes),
{
    bytes.clone()
}

/// Calls `Bytes::deref`. The slice holds what the shared bytes hold.
#[verifier::external_body]
fn look_at(bytes: &prost::bytes::Bytes) -> (slice: &[u8])
    ensures
        slice@ == shared_bytes(*bytes),
{
    bytes
}

/// The bytes of a block on its way.
#[derive(Debug)]
pub struct Payload {
    bytes: prost::bytes::Bytes,
}

impl View for Payload {
    type V = Seq<u8>;

    closed spec fn view(&self) -> Seq<u8> {
        shared_bytes(self.bytes)
    }
}

impl Payload {
    /// A payload that holds the bytes of a vector.
    pub fn new(bytes: Vec<u8>) -> (payload: Self)
        ensures
            payload@ == bytes@,
    {
        Payload { bytes: share(bytes) }
    }

    /// A payload that holds shared bytes.
    pub fn from_shared(bytes: prost::bytes::Bytes) -> (payload: Self)
        ensures
            payload@ == shared_bytes(bytes),
    {
        Payload { bytes }
    }

    /// The same payload for somebody else.
    pub fn duplicate(&self) -> (copy: Self)
        ensures
            copy@ == self@,
    {
        Payload { bytes: share_again(&self.bytes) }
    }

    /// The bytes of the payload.
    pub fn as_slice(&self) -> (slice: &[u8])
        ensures
            slice@ == self@,
    {
        look_at(&self.bytes)
    }

    /// A vector with the bytes of the payload.
    pub fn to_vec(&self) -> (bytes: Vec<u8>)
        ensures
            bytes@ == self@,
    {
        copy_bytes(self.as_slice())
    }
}

} // verus!
