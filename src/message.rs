//! A message node of the DAG: signed data, resolved parents and derived attributes.

use std::collections::HashSet;
use vstd::prelude::*;

use crate::types::{body_hash, SignedMessageData, StructHash, UID};
use crate::witness::WitnessSelector;

verus! {

broadcast use vstd::std_specs::hash::group_hash_axioms;

/// A message as the DAG holds it.
pub struct Message {
    pub data: SignedMessageData,
    /// Positions, in the DAG's node list, of the direct predecessors.
    pub parents: Vec<usize>,
    pub computed_hash: StructHash,
    pub computed_epoch: u64,
    pub computed_signature: u64,
}

/// The greatest of `start` and the epochs of the nodes at positions `parents`.
pub open spec fn last_epoch(nodes: Seq<Message>, parents: Seq<usize>, start: u64) -> u64
    decreases parents.len(),
{
    if parents.len() == 0 {
        start
    } else {
        let e = nodes[parents.last() as int].computed_epoch;
        let rest = last_epoch(nodes, parents.drop_last(), start);
        if e > rest {
            e
        } else {
            rest
        }
    }
}

/// Whether `u` stands behind a message of `owner` with these parents at epoch `e`:
/// `u` is the owner itself or the owner of a parent of epoch `e`.
pub open spec fn approves(nodes: Seq<Message>, parents: Seq<usize>, owner: UID, e: u64, u: UID) -> bool {
    u == owner || exists|j: int|
        0 <= j < parents.len() && #[trigger] nodes[parents[j] as int].data.body.owner_uid == u
            && nodes[parents[j] as int].computed_epoch == e
}

/// The witnesses in `w` that stand behind the message.
pub open spec fn approved_witnesses(
    nodes: Seq<Message>,
    parents: Seq<usize>,
    owner: UID,
    e: u64,
    w: Set<UID>,
) -> Set<UID> {
    Set::new(|u: UID| w.contains(u) && approves(nodes, parents, owner, e, u))
}

/// The epoch moves on from `e` when more than two thirds of its witnesses stand behind
/// the message.
pub open spec fn epoch_after(e: u64, approved: nat, witnesses: nat) -> u64 {
    if e < u64::MAX && 3 * approved > 2 * witnesses {
        (e + 1) as u64
    } else {
        e
    }
}

/// The epoch derived for a message of `owner` with the given parents, when `w` are the
/// witnesses of the latest epoch among the parents (and `start`).
pub open spec fn derived_epoch(
    nodes: Seq<Message>,
    parents: Seq<usize>,
    owner: UID,
    start: u64,
    w: Set<UID>,
) -> u64 {
    let e = last_epoch(nodes, parents, start);
    epoch_after(e, approved_witnesses(nodes, parents, owner, e, w).len(), w.len())
}

/// Whether every parent position is below `n`.
pub open spec fn parents_below(parents: Seq<usize>, n: int) -> bool {
    forall|j: int| 0 <= j < parents.len() ==> #[trigger] parents[j] < n
}

fn vec_contains(v: &Vec<UID>, x: UID) -> (r: bool)
    ensures
        r == v@.contains(x),
{
    let mut i: usize = 0;
    while i < v.len()
        invariant
            i <= v@.len(),
            forall|j: int| 0 <= j < i ==> v@[j] != x,
        decreases v@.len() - i,
    {
        if v[i] == x {
            return true;
        }
        i += 1;
    }
    false
}

/// The greatest of `start` and the epochs of the given parents.
pub fn compute_last_epoch(nodes: &Vec<Message>, parents: &Vec<usize>, start: u64) -> (r: u64)
    requires
        parents_below(parents@, nodes@.len() as int),
    ensures
        r == last_epoch(nodes@, parents@, start),
{
    let mut e: u64 = start;
    let mut k: usize = 0;
    while k < parents.len()
        invariant
            k <= parents@.len(),
            parents_below(parents@, nodes@.len() as int),
            e == last_epoch(nodes@, parents@.take(k as int), start),
        decreases parents@.len() - k,
    {
        let pe = nodes[parents[k]].computed_epoch;
        proof {
            assert(parents@.take(k + 1).drop_last() =~= parents@.take(k as int));
        }
        if pe > e {
            e = pe;
        }
        k += 1;
    }
    assert(parents@.take(k as int) =~= parents@);
    e
}

/// How many witnesses in `w` stand behind a message of `owner` with these parents at
/// epoch `e`.
pub fn count_approved(
    nodes: &Vec<Message>,
    parents: &Vec<usize>,
    owner: UID,
    e: u64,
    w: &HashSet<UID>,
) -> (r: usize)
    requires
        parents_below(parents@, nodes@.len() as int),
    ensures
        r == approved_witnesses(nodes@, parents@, owner, e, w@).len(),
{
    let mut seen: Vec<UID> = Vec::new();
    if w.contains(&owner) {
        seen.push(owner);
    }
    proof {
        assert forall|x: UID| seen@.contains(x) <==> (w@.contains(x) && x == owner) by {
            if w@.contains(x) && x == owner {
                assert(seen@[0] == x);
            }
        }
    }
    let mut k: usize = 0;
    while k < parents.len()
        invariant
            k <= parents@.len(),
            parents_below(parents@, nodes@.len() as int),
            seen@.no_duplicates(),
            forall|u: UID|
                seen@.contains(u) <==> (w@.contains(u) && (u == owner || exists|j: int|
                    0 <= j < k && #[trigger] nodes@[parents@[j] as int].data.body.owner_uid == u
                        && nodes@[parents@[j] as int].computed_epoch == e)),
        decreases parents@.len() - k,
    {
        let p = &nodes[parents[k]];
        let u = p.data.body.owner_uid;
        let ghost before = seen@;
        let pushed = p.computed_epoch == e && w.contains(&u) && !vec_contains(&seen, u);
        if pushed {
            seen.push(u);
        }
        proof {
            assert forall|x: UID| seen@.contains(x) <==> (before.contains(x) || (pushed && x == u)) by {
                if pushed && x == u {
                    assert(seen@[before.len() as int] == x);
                }
                if before.contains(x) {
                    let i = choose|i: int| 0 <= i < before.len() && before[i] == x;
                    assert(seen@[i] == x);
                }
            }
            if pushed {
                assert forall|i: int, j: int| 0 <= i < j < seen@.len() implies seen@[i] != seen@[j] by {
                    if j == before.len() {
                        assert(before.contains(before[i]));
                    }
                }
            }
            assert forall|x: UID|
                seen@.contains(x) <==> (w@.contains(x) && (x == owner || exists|j: int|
                    0 <= j < k + 1 && #[trigger] nodes@[parents@[j] as int].data.body.owner_uid
                        == x && nodes@[parents@[j] as int].computed_epoch == e)) by {
                if x == u && p.computed_epoch == e && w@.contains(x) {
                    assert(nodes@[parents@[k as int] as int].data.body.owner_uid == x);
                }
            }
        }
        k += 1;
    }
    proof {
        let a = approved_witnesses(nodes@, parents@, owner, e, w@);
        assert(seen@.to_set() =~= a);
        seen@.unique_seq_to_set();
    }
    seen.len()
}

/// The epoch after `e`, given how many of its `witnesses` approve the message.
pub fn next_epoch(e: u64, approved: usize, witnesses: usize) -> (r: u64)
    ensures
        r == epoch_after(e, approved as nat, witnesses as nat),
{
    if e < u64::MAX && (approved as u128) * 3 > (witnesses as u128) * 2 {
        e + 1
    } else {
        e
    }
}

/// The epoch of a message of `owner` with the given parents, when `w` are the witnesses
/// of the latest epoch among the parents (and `start`).
pub fn epoch_for(nodes: &Vec<Message>, parents: &Vec<usize>, owner: UID, start: u64, w: &HashSet<UID>) -> (r: u64)
    requires
        parents_below(parents@, nodes@.len() as int),
    ensures
        r == derived_epoch(nodes@, parents@, owner, start, w@),
{
    let e = compute_last_epoch(nodes, parents, start);
    let approved = count_approved(nodes, parents, owner, e, w);
    next_epoch(e, approved, w.len())
}

impl Message {
    /// Wraps `data`, with no parents resolved and nothing derived yet.
    pub fn new(data: SignedMessageData) -> (r: Self)
        ensures
            r.data == data,
            r.parents@.len() == 0,
    {
        Message { data, parents: Vec::new(), computed_hash: 0, computed_epoch: 0, computed_signature: 0 }
    }

    /// Derives the hash, the epoch and the signature from the data and the parents.
    pub fn init<W: WitnessSelector>(&mut self, nodes: &Vec<Message>, starting_epoch: u64, sel: &W)
        requires
            parents_below(old(self).parents@, nodes@.len() as int),
        ensures
            final(self).data == old(self).data,
            final(self).parents == old(self).parents,
            final(self).computed_hash == body_hash(old(self).data.body@),
            exists|w: Set<UID>|
                final(self).computed_epoch == derived_epoch(
                    nodes@,
                    old(self).parents@,
                    old(self).data.body.owner_uid,
                    starting_epoch,
                    w,
                ),
            final(self).computed_signature == old(self).data.owner_sig,
    {
        self.computed_hash = self.data.body.hash();
        let e = compute_last_epoch(nodes, &self.parents, starting_epoch);
        let w = sel.epoch_witnesses(e);
        self.computed_epoch = epoch_for(nodes, &self.parents, self.data.body.owner_uid, starting_epoch, w);
        // The signing scheme lies outside this core: the owner's signature is taken as is.
        self.computed_signature = self.data.owner_sig;
    }

    /// Writes the derived epoch into the body of a message that the local owner has just
    /// made, then hashes the completed body and records that hash in the data.
    pub fn assume_computed_hash_epoch(&mut self)
        ensures
            final(self).data.body.epoch == old(self).computed_epoch,
            final(self).data.body.owner_uid == old(self).data.body.owner_uid,
            final(self).data.body.parents == old(self).data.body.parents,
            final(self).data.body.payload == old(self).data.body.payload,
            final(self).data.body.endorsements == old(self).data.body.endorsements,
            final(self).data.owner_sig == old(self).data.owner_sig,
            final(self).computed_hash == body_hash(final(self).data.body@),
            final(self).data.hash == final(self).computed_hash,
            final(self).parents == old(self).parents,
            final(self).computed_epoch == old(self).computed_epoch,
            final(self).computed_signature == old(self).computed_signature,
    {
        self.data.body.epoch = self.computed_epoch;
        self.computed_hash = self.data.body.hash();
        self.data.hash = self.computed_hash;
    }
}

} // verus!
