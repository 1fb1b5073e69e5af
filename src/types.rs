//! Identifiers and signed message data exchanged between participants.

use vstd::prelude::*;

verus! {

/// Participant identifier.
pub type UID = u64;

/// Content hash of a message body.
pub type StructHash = u64;

/// Attestation by the owner of an earlier message; carried through verbatim.
pub type Endorsement = u64;

/// The signed part of a message.
#[derive(Clone)]
pub struct MessageDataBody {
    pub owner_uid: UID,
    /// Hashes of the direct predecessors.
    pub parents: Vec<StructHash>,
    /// Epoch claimed by the owner.
    pub epoch: u64,
    pub payload: Vec<u8>,
    pub endorsements: Vec<Endorsement>,
}

/// A message body together with its hash and the owner's signature.
#[derive(Clone)]
pub struct SignedMessageData {
    pub owner_sig: u64,
    pub hash: StructHash,
    pub body: MessageDataBody,
}

/// The value of a message body.
pub struct BodyView {
    pub owner_uid: UID,
    pub parents: Seq<StructHash>,
    pub epoch: u64,
    pub payload: Seq<u8>,
    pub endorsements: Seq<Endorsement>,
}

impl View for MessageDataBody {
    type V = BodyView;

    open spec fn view(&self) -> BodyView {
        BodyView {
            owner_uid: self.owner_uid,
            parents: self.parents@,
            epoch: self.epoch,
            payload: self.payload@,
            endorsements: self.endorsements@,
        }
    }
}

/// The hash that std's fixed-key `DefaultHasher` gives to the fields of a body.
pub uninterp spec fn body_hash(b: BodyView) -> StructHash;

/// Relies on `BuildHasher::hash_one` with `BuildHasherDefault<DefaultHasher>`: unlike
/// `RandomState`, it is not seeded per process, so with a given standard library the hash
/// depends on the field values alone.
#[verifier::external_body]
fn hash_body(b: &MessageDataBody) -> (r: StructHash)
    ensures
        r == body_hash(b@),
{
    let hasher = std::hash::BuildHasherDefault::<std::collections::hash_map::DefaultHasher>::default();
    std::hash::BuildHasher::hash_one(
        &hasher,
        (b.owner_uid, &b.parents, b.epoch, &b.payload, &b.endorsements),
    )
}

impl MessageDataBody {
    /// The content hash of the body.
    pub fn hash(&self) -> (r: StructHash)
        ensures
            r == body_hash(self@),
    {
        hash_body(self)
    }

    /// A copy of the body with the same field values.
    pub fn copy(&self) -> (r: Self)
        ensures
            r@ == self@,
    {
        MessageDataBody {
            owner_uid: self.owner_uid,
            parents: self.parents.clone(),
            epoch: self.epoch,
            payload: self.payload.clone(),
            endorsements: self.endorsements.clone(),
        }
    }
}

impl SignedMessageData {
    /// A copy of the data with the same field values.
    pub fn copy(&self) -> (r: Self)
        ensures
            r.owner_sig == self.owner_sig,
            r.hash == self.hash,
            r.body@ == self.body@,
    {
        SignedMessageData { owner_sig: self.owner_sig, hash: self.hash, body: self.body.copy() }
    }
}

} // verus!
