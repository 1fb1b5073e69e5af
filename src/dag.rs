//! The TxFlow message DAG: ingest, deduplication, roots and fork detection.

use std::collections::HashMap;
use vstd::prelude::*;

use crate::message::{derived_epoch, parents_below, Message};
use crate::reporter::{MisbehaviourReporter, ViolationType};
use crate::types::{body_hash, BodyView, Endorsement, MessageDataBody, SignedMessageData, StructHash, UID};
use crate::witness::WitnessSelector;

verus! {

broadcast use vstd::std_specs::hash::group_hash_axioms;

/// Whether the node at position `r` is a direct predecessor of some node.
pub open spec fn is_parent_of_some(nodes: Seq<Message>, r: int) -> bool {
    exists|i: int, j: int|
        0 <= i < nodes.len() && 0 <= j < nodes[i].parents@.len() && #[trigger] nodes[i].parents@[j]
            == r
}

/// A walk from one of the positions `from` down through parents, where every node but
/// the last is authored by someone other than `u`.
pub open spec fn is_open_path(nodes: Seq<Message>, from: Seq<usize>, u: UID, path: Seq<usize>) -> bool {
    &&& path.len() > 0
    &&& from.contains(path[0])
    &&& forall|k: int|
        0 <= k < path.len() - 1 ==> {
            &&& #[trigger] path[k] < nodes.len()
            &&& nodes[path[k] as int].data.body.owner_uid != u
            &&& nodes[path[k] as int].parents@.contains(path[k + 1])
        }
}

/// Whether a message with parents `from` reaches the node at `target` without passing
/// through another message of `u`.
pub open spec fn acknowledges(nodes: Seq<Message>, from: Seq<usize>, u: UID, target: usize) -> bool {
    exists|path: Seq<usize>| is_open_path(nodes, from, u, path) && path.last() == target
}

/// Whether every hash in `hs` is known to `index`.
pub open spec fn all_known(index: Map<StructHash, usize>, hs: Seq<StructHash>) -> bool {
    forall|j: int| 0 <= j < hs.len() ==> index.contains_key(#[trigger] hs[j])
}

/// The positions that `index` gives to the hashes `hs`.
pub open spec fn resolved(index: Map<StructHash, usize>, hs: Seq<StructHash>) -> Seq<usize> {
    Seq::new(hs.len(), |j: int| index[hs[j]])
}

/// The reports due for a message with hash `h`, claimed epoch `claimed`, derived epoch
/// `derived` and fork finding `fork`, in the order they are filed.
pub open spec fn reports_for(
    h: StructHash,
    claimed: u64,
    derived: u64,
    fork: Option<StructHash>,
) -> Seq<ViolationType> {
    (if claimed != derived {
        seq![ViolationType::BadEpoch { message: h }]
    } else {
        Seq::empty()
    }) + match fork {
        Some(f) => seq![ViolationType::ForkAttempt { message_0: f, message_1: h }],
        None => Seq::empty(),
    }
}

/// Every node's parents stand before it.
pub open spec fn parents_precede(nodes: Seq<Message>) -> bool {
    forall|i: int, j: int|
        0 <= i < nodes.len() && 0 <= j < nodes[i].parents@.len() ==> #[trigger] nodes[i].parents@[j]
            < i
}

/// What a position `x` at or above `hi` is marked with once the sweep over fork
/// candidates has handled every position from `j` up: it is a parent of the new message,
/// or a parent of a marked node at `j` or above that `u` did not author.
pub open spec fn swept(
    nodes: Seq<Message>,
    from: Seq<usize>,
    u: UID,
    hi: int,
    marks: Seq<bool>,
    j: int,
    x: int,
) -> bool {
    from.contains(x as usize) || exists|k: int|
        j <= k < nodes.len() && marks[k - hi] && nodes[k].data.body.owner_uid != u
            && #[trigger] nodes[k].parents@.contains(x as usize)
}

/// Whether the marks record the finished sweep down to `hi`.
pub open spec fn sweep_done(nodes: Seq<Message>, from: Seq<usize>, u: UID, hi: int, marks: Seq<bool>) -> bool {
    &&& 0 <= hi < nodes.len() <= usize::MAX
    &&& marks.len() == nodes.len() - hi
    &&& parents_precede(nodes)
    &&& parents_below(from, nodes.len() as int)
    &&& forall|y: int|
        hi <= y < nodes.len() ==> (#[trigger] marks[y - hi] == swept(nodes, from, u, hi, marks, hi + 1, y))
}

proof fn lemma_marked_has_path(
    nodes: Seq<Message>,
    from: Seq<usize>,
    u: UID,
    hi: int,
    marks: Seq<bool>,
    x: int,
)
    requires
        sweep_done(nodes, from, u, hi, marks),
        hi <= x < nodes.len(),
        marks[x - hi],
    ensures
        acknowledges(nodes, from, u, x as usize),
    decreases nodes.len() - x,
{
    assert(swept(nodes, from, u, hi, marks, hi + 1, x));
    if from.contains(x as usize) {
        let path = seq![x as usize];
        assert(is_open_path(nodes, from, u, path) && path.last() == x as usize);
    } else {
        let k = choose|k: int|
            hi + 1 <= k < nodes.len() && marks[k - hi] && nodes[k].data.body.owner_uid != u
                && #[trigger] nodes[k].parents@.contains(x as usize);
        let jj = choose|jj: int| 0 <= jj < nodes[k].parents@.len() && nodes[k].parents@[jj] == x as usize;
        assert(nodes[k].parents@[jj] < k);
        lemma_marked_has_path(nodes, from, u, hi, marks, k);
        let p = choose|p: Seq<usize>| is_open_path(nodes, from, u, p) && p.last() == k as usize;
        let path = p.push(x as usize);
        assert forall|t: int| 0 <= t < path.len() - 1 implies {
            &&& #[trigger] path[t] < nodes.len()
            &&& nodes[path[t] as int].data.body.owner_uid != u
            &&& nodes[path[t] as int].parents@.contains(path[t + 1])
        } by {
            if t < p.len() - 1 {
                assert(path[t] == p[t]);
                assert(path[t + 1] == p[t + 1]);
            } else {
                assert(path[t] == k);
                assert(path[t + 1] == x);
            }
        }
        assert(path[0] == p[0]);
        assert(is_open_path(nodes, from, u, path) && path.last() == x as usize);
    }
}

proof fn lemma_path_marked(
    nodes: Seq<Message>,
    from: Seq<usize>,
    u: UID,
    hi: int,
    marks: Seq<bool>,
    path: Seq<usize>,
)
    requires
        sweep_done(nodes, from, u, hi, marks),
        is_open_path(nodes, from, u, path),
        hi <= path.last(),
    ensures
        path.last() < nodes.len(),
        marks[path.last() - hi],
    decreases path.len(),
{
    let x = path.last() as int;
    if path.len() == 1 {
        assert(path[0] == path.last());
        assert(from.contains(x as usize));
        let t = choose|t: int| 0 <= t < from.len() && from[t] == x as usize;
        assert(from[t] < nodes.len());
        assert(swept(nodes, from, u, hi, marks, hi + 1, x));
    } else {
        let p = path.drop_last();
        let k = path[path.len() - 2] as int;
        assert forall|t: int| 0 <= t < p.len() - 1 implies {
            &&& #[trigger] p[t] < nodes.len()
            &&& nodes[p[t] as int].data.body.owner_uid != u
            &&& nodes[p[t] as int].parents@.contains(p[t + 1])
        } by {
            assert(p[t] == path[t]);
            assert(p[t + 1] == path[t + 1]);
        }
        assert(p[0] == path[0]);
        assert(path[path.len() - 2] < nodes.len());
        assert(nodes[k].parents@.contains(path[path.len() - 2 + 1]));
        assert(path[path.len() - 1] == x);
        let jj = choose|jj: int| 0 <= jj < nodes[k].parents@.len() && nodes[k].parents@[jj] == x as usize;
        assert(nodes[k].parents@[jj] < k);
        assert(p.last() == k);
        lemma_path_marked(nodes, from, u, hi, marks, p);
        assert(swept(nodes, from, u, hi, marks, hi + 1, x));
    }
}

/// The hashes of the nodes at positions `ps`.
pub open spec fn hashes_at(nodes: Seq<Message>, ps: Seq<usize>) -> Seq<StructHash> {
    Seq::new(ps.len(), |j: int| nodes[ps[j] as int].computed_hash)
}

proof fn lemma_parent_push(nodes: Seq<Message>, m: Message, r: int)
    requires
        0 <= r <= usize::MAX,
    ensures
        is_parent_of_some(nodes.push(m), r) == (is_parent_of_some(nodes, r) || m.parents@.contains(
            r as usize,
        )),
{
    let ns = nodes.push(m);
    if is_parent_of_some(ns, r) {
        let (i, j) = choose|i: int, j: int|
            0 <= i < ns.len() && 0 <= j < ns[i].parents@.len() && #[trigger] ns[i].parents@[j] == r;
        if i < nodes.len() {
            assert(nodes[i].parents@[j] == r);
        } else {
            assert(m.parents@[j] == r);
        }
    }
    if is_parent_of_some(nodes, r) {
        let (i, j) = choose|i: int, j: int|
            0 <= i < nodes.len() && 0 <= j < nodes[i].parents@.len() && #[trigger] nodes[i].parents@[j]
                == r;
        assert(ns[i].parents@[j] == r);
    }
    if m.parents@.contains(r as usize) {
        let j = choose|j: int| 0 <= j < m.parents@.len() && m.parents@[j] == r as usize;
        assert(ns[nodes.len() as int].parents@[j] == r);
    }
}

fn contains_pos(v: &Vec<usize>, x: usize) -> (r: bool)
    ensures
        r == v@.contains(x),
{
    let mut i: usize = 0;
    while i < v.len()
        invariant
            i <= v@.len(),
            forall|j: int| 0 <= j < i ==> v@[j] != x,
        decreases v@.len() - i,
    {
        if v[i] == x {
            return true;
        }
        i += 1;
    }
    false
}

/// The positions of `roots` that are not in `ps`, in their order.
fn without_positions(roots: &Vec<usize>, ps: &Vec<usize>) -> (r: Vec<usize>)
    requires
        roots@.no_duplicates(),
    ensures
        r@.no_duplicates(),
        forall|x: usize| #[trigger] r@.contains(x) <==> (roots@.contains(x) && !ps@.contains(x)),
{
    let mut r: Vec<usize> = Vec::new();
    let mut i: usize = 0;
    while i < roots.len()
        invariant
            i <= roots@.len(),
            roots@.no_duplicates(),
            r@.no_duplicates(),
            forall|x: usize|
                #[trigger] r@.contains(x) <==> (roots@.take(i as int).contains(x) && !ps@.contains(x)),
        decreases roots@.len() - i,
    {
        let x = roots[i];
        let ghost before = r@;
        if !contains_pos(ps, x) {
            r.push(x);
        }
        proof {
            assert(roots@.take(i + 1) =~= roots@.take(i as int).push(x));
            assert forall|y: usize|
                #[trigger] r@.contains(y) <==> (before.contains(y) || (!ps@.contains(x) && y == x)) by {
                if !ps@.contains(x) && y == x {
                    assert(r@[before.len() as int] == y);
                }
                if before.contains(y) {
                    let k = choose|k: int| 0 <= k < before.len() && before[k] == y;
                    assert(r@[k] == y);
                }
            }
            if !ps@.contains(x) {
                assert(!roots@.take(i as int).contains(x)) by {
                    if roots@.take(i as int).contains(x) {
                        let k = choose|k: int| 0 <= k < i && #[trigger] roots@.take(i as int)[k] == x;
                        assert(roots@[k] == roots@[i as int]);
                    }
                }
                assert forall|a: int, b: int| 0 <= a < b < r@.len() implies r@[a] != r@[b] by {
                    if b == before.len() {
                        assert(before.contains(before[a]));
                    }
                }
            }
            assert forall|y: usize|
                #[trigger] r@.contains(y) <==> (roots@.take(i + 1).contains(y) && !ps@.contains(y)) by {
                if roots@.take(i + 1).contains(y) && y != x {
                    let k = choose|k: int| 0 <= k < i + 1 && #[trigger] roots@.take(i + 1)[k] == y;
                    assert(roots@.take(i as int)[k] == y);
                }
                if roots@.take(i as int).contains(y) {
                    let k = choose|k: int| 0 <= k < i && #[trigger] roots@.take(i as int)[k] == y;
                    assert(roots@.take(i + 1)[k] == y);
                }
                if y == x {
                    assert(roots@.take(i + 1)[i as int] == y);
                }
            }
        }
        i += 1;
    }
    assert(roots@.take(roots@.len() as int) =~= roots@);
    r
}

/// The DAG of messages known to a node, with the violations found in them.
///
/// Nodes are kept in order of arrival and refer to their parents by position, so every
/// parent stands before its children.
pub struct DAG<'a, W: WitnessSelector> {
    owner_uid: UID,
    nodes: Vec<Message>,
    /// Position of each known message, by hash.
    messages: HashMap<StructHash, usize>,
    /// Positions of the messages that no message names as a parent.
    roots: Vec<usize>,
    witness_selector: &'a W,
    starting_epoch: u64,
    misbehaviour: MisbehaviourReporter,
    /// Hash of the latest accepted message of each participant.
    participant_head: HashMap<UID, StructHash>,
}

impl<'a, W: WitnessSelector> DAG<'a, W> {
    pub closed spec fn node_seq(&self) -> Seq<Message> {
        self.nodes@
    }

    pub closed spec fn index(&self) -> Map<StructHash, usize> {
        self.messages@
    }

    pub closed spec fn root_seq(&self) -> Seq<usize> {
        self.roots@
    }

    pub closed spec fn head_map(&self) -> Map<UID, StructHash> {
        self.participant_head@
    }

    pub closed spec fn violation_seq(&self) -> Seq<ViolationType> {
        self.misbehaviour@
    }

    pub closed spec fn owner(&self) -> UID {
        self.owner_uid
    }

    pub closed spec fn start_epoch(&self) -> u64 {
        self.starting_epoch
    }

    pub closed spec fn selector(&self) -> &'a W {
        self.witness_selector
    }

    /// The invariants of the DAG: hashes index the nodes one to one, parents precede
    /// their children, roots are exactly the nodes without children, and each head
    /// names a message of its participant.
    pub open spec fn wf(&self) -> bool {
        let nodes = self.node_seq();
        let index = self.index();
        let head = self.head_map();
        &&& forall|h: StructHash| #[trigger]
            index.contains_key(h) ==> index[h] < nodes.len() && nodes[index[h] as int].computed_hash
                == h
        &&& forall|i: int|
            0 <= i < nodes.len() ==> index.contains_key(#[trigger] nodes[i].computed_hash)
                && index[nodes[i].computed_hash] == i
        &&& nodes.len() <= usize::MAX
        &&& parents_precede(nodes)
        &&& self.root_seq().no_duplicates()
        &&& forall|r: usize|
            #[trigger] self.root_seq().contains(r) <==> (r < nodes.len() && !is_parent_of_some(
                nodes,
                r as int,
            ))
        &&& forall|u: UID| #[trigger]
            head.contains_key(u) ==> index.contains_key(head[u]) && nodes[index[head[u]] as int].data.body.owner_uid
                == u
    }

    /// The fork that a new message of `u` with parents at `from` exhibits: the head of
    /// `u`, when the message does not reach it.
    pub open spec fn fork_of(&self, u: UID, from: Seq<usize>) -> Option<StructHash> {
        if self.head_map().contains_key(u) && !acknowledges(
            self.node_seq(),
            from,
            u,
            self.index()[self.head_map()[u]],
        ) {
            Some(self.head_map()[u])
        } else {
            None
        }
    }

    /// An empty DAG for the node `owner_uid`.
    pub fn new(owner_uid: UID, starting_epoch: u64, witness_selector: &'a W) -> (r: Self)
        ensures
            r.wf(),
            r.owner() == owner_uid,
            r.start_epoch() == starting_epoch,
            r.selector() == witness_selector,
            r.node_seq().len() == 0,
            r.index() == Map::<StructHash, usize>::empty(),
            r.root_seq().len() == 0,
            r.head_map() == Map::<UID, StructHash>::empty(),
            r.violation_seq().len() == 0,
    {
        DAG {
            owner_uid,
            nodes: Vec::new(),
            messages: HashMap::new(),
            roots: Vec::new(),
            witness_selector,
            starting_epoch,
            misbehaviour: MisbehaviourReporter::new(),
            participant_head: HashMap::new(),
        }
    }

    /// Fork detection for a new message of `u` whose parents stand at `from`: the head
    /// of `u` is returned when the message does not reach it through messages of
    /// other participants.
    ///
    /// Parents stand below their children, so one sweep down from the newest node to the
    /// head finds every node reachable that way.
    fn find_fork(&self, u: UID, from: &Vec<usize>) -> (r: Option<StructHash>)
        requires
            self.wf(),
            parents_below(from@, self.node_seq().len() as int),
        ensures
            r == self.fork_of(u, from@),
    {
        let head: StructHash = match self.participant_head.get(&u) {
            Some(h) => *h,
            None => {
                return None;
            },
        };
        let hi: usize = match self.messages.get(&head) {
            Some(i) => *i,
            None => {
                return None;
            },
        };
        let ghost nodes = self.nodes@;
        let n: usize = self.nodes.len();
        let mut marks: Vec<bool> = Vec::new();
        let mut t: usize = hi;
        while t < n
            invariant
                hi <= t <= n,
                marks@.len() == t - hi,
                forall|y: int| 0 <= y < marks@.len() ==> !marks@[y],
            decreases n - t,
        {
            marks.push(false);
            t += 1;
        }
        let mut q: usize = 0;
        while q < from.len()
            invariant
                hi < n,
                n == nodes.len(),
                marks@.len() == n - hi,
                q <= from@.len(),
                parents_below(from@, n as int),
                forall|x: int|
                    hi <= x < n ==> (#[trigger] marks@[x - hi] <==> exists|t: int|
                        0 <= t < q && from@[t] == x),
            decreases from@.len() - q,
        {
            let p = from[q];
            if p >= hi {
                marks.set(p - hi, true);
            }
            q += 1;
        }
        assert forall|x: int| hi <= x < n implies (#[trigger] marks@[x - hi] == swept(
            nodes,
            from@,
            u,
            hi as int,
            marks@,
            n as int,
            x,
        )) by {
            if from@.contains(x as usize) {
                let t = choose|t: int| 0 <= t < from@.len() && from@[t] == x as usize;
                assert(from@[t] == x);
            }
        }
        let mut j: usize = n;
        while j > hi + 1
            invariant
                self.wf(),
                nodes == self.nodes@,
                n == nodes.len(),
                hi < n,
                hi + 1 <= j <= n,
                parents_below(from@, n as int),
                marks@.len() == n - hi,
                forall|x: int|
                    hi <= x < n ==> (#[trigger] marks@[x - hi] == swept(
                        nodes,
                        from@,
                        u,
                        hi as int,
                        marks@,
                        j as int,
                        x,
                    )),
            decreases j,
        {
            j -= 1;
            let ghost before = marks@;
            let active = marks[j - hi] && self.nodes[j].data.body.owner_uid != u;
            if active {
                let ps = &self.nodes[j].parents;
                let mut q: usize = 0;
                while q < ps.len()
                    invariant
                        self.wf(),
                        nodes == self.nodes@,
                        n == nodes.len(),
                        hi < j < n,
                        ps@ == nodes[j as int].parents@,
                        q <= ps@.len(),
                        marks@.len() == n - hi,
                        forall|x: int|
                            hi <= x < n ==> (#[trigger] marks@[x - hi] == (before[x - hi] || exists|t: int|
                                0 <= t < q && ps@[t] == x)),
                    decreases ps@.len() - q,
                {
                    let p = ps[q];
                    if p >= hi {
                        marks.set(p - hi, true);
                    }
                    q += 1;
                }
            }
            proof {
                let js = nodes[j as int].parents@;
                assert forall|x: int| hi <= x < n implies (#[trigger] marks@[x - hi] == (before[x
                    - hi] || (active && js.contains(x as usize)))) by {
                    if active && js.contains(x as usize) {
                        let t = choose|t: int| 0 <= t < js.len() && js[t] == x as usize;
                        assert(js[t] == x);
                    }
                    if active && marks@[x - hi] && !before[x - hi] {
                        let t = choose|t: int| 0 <= t < js.len() && js[t] == x;
                        assert(js.contains(js[t]));
                    }
                }
                assert forall|y: int| j <= y < n implies #[trigger] marks@[y - hi] == before[y - hi] by {
                    if active && js.contains(y as usize) {
                        let t = choose|t: int| 0 <= t < js.len() && js[t] == y as usize;
                        assert(js[t] < j);
                    }
                }
                assert forall|x: int| hi <= x < n implies (#[trigger] marks@[x - hi] == swept(
                    nodes,
                    from@,
                    u,
                    hi as int,
                    marks@,
                    j as int,
                    x,
                )) by {
                    assert(before[x - hi] == swept(nodes, from@, u, hi as int, before, j + 1, x));
                    if swept(nodes, from@, u, hi as int, before, j + 1, x) && !from@.contains(x as usize) {
                        let k = choose|k: int|
                            j + 1 <= k < nodes.len() && before[k - hi] && nodes[k].data.body.owner_uid != u
                                && #[trigger] nodes[k].parents@.contains(x as usize);
                        assert(marks@[k - hi] == before[k - hi]);
                    }
                    if swept(nodes, from@, u, hi as int, marks@, j as int, x) && !from@.contains(x as usize) {
                        let k = choose|k: int|
                            j <= k < nodes.len() && marks@[k - hi] && nodes[k].data.body.owner_uid != u
                                && #[trigger] nodes[k].parents@.contains(x as usize);
                        assert(marks@[k - hi] == before[k - hi]);
                    }
                }
            }
        }
        proof {
            assert(sweep_done(nodes, from@, u, hi as int, marks@));
            if marks@[0] {
                lemma_marked_has_path(nodes, from@, u, hi as int, marks@, hi as int);
            }
            if acknowledges(nodes, from@, u, hi) {
                let path = choose|path: Seq<usize>| is_open_path(nodes, from@, u, path) && path.last() == hi;
                lemma_path_marked(nodes, from@, u, hi as int, marks@, path);
            }
        }
        if marks[0] {
            None
        } else {
            Some(head)
        }
    }

    /// Records the violations that `message`, about to be added, shows: a claimed epoch
    /// other than the derived one, and a fork of its owner.
    fn verify_message(&mut self, message: &Message)
        requires
            old(self).wf(),
            parents_below(message.parents@, old(self).node_seq().len() as int),
        ensures
            final(self).violation_seq() == old(self).violation_seq() + reports_for(
                message.computed_hash,
                message.data.body.epoch,
                message.computed_epoch,
                old(self).fork_of(message.data.body.owner_uid, message.parents@),
            ),
            final(self).nodes == old(self).nodes,
            final(self).messages == old(self).messages,
            final(self).roots == old(self).roots,
            final(self).participant_head == old(self).participant_head,
            final(self).owner_uid == old(self).owner_uid,
            final(self).starting_epoch == old(self).starting_epoch,
            final(self).witness_selector == old(self).witness_selector,
    {
        let h = message.computed_hash;
        let fork = self.find_fork(message.data.body.owner_uid, &message.parents);
        if message.computed_epoch != message.data.body.epoch {
            self.misbehaviour.report(ViolationType::BadEpoch { message: h });
        }
        if let Some(f) = fork {
            self.misbehaviour.report(ViolationType::ForkAttempt { message_0: f, message_1: h });
        }
        proof {
            let extra = reports_for(h, message.data.body.epoch, message.computed_epoch, fork);
            assert(self.misbehaviour@ =~= old(self).misbehaviour@ + extra);
        }
    }

    /// Whether `post` is `pre` with the message `d` added: its node comes last, with its
    /// parents resolved and its epoch derived; its owner's head moves to it; and the
    /// violations it shows are appended.
    pub open spec fn accepts(pre: &Self, post: &Self, d: SignedMessageData) -> bool {
        let h = body_hash(d.body@);
        let n = pre.node_seq().len();
        let ps = resolved(pre.index(), d.body.parents@);
        let e = post.node_seq()[n as int].computed_epoch;
        if pre.index().contains_key(h) {
            *post == *pre
        } else {
            &&& post.node_seq().len() == n + 1
            &&& post.node_seq().take(n as int) == pre.node_seq()
            &&& post.node_seq()[n as int].data == d
            &&& post.node_seq()[n as int].parents@ == ps
            &&& post.node_seq()[n as int].computed_hash == h
            &&& exists|w: Set<UID>|
                e == derived_epoch(pre.node_seq(), ps, d.body.owner_uid, pre.start_epoch(), w)
            &&& post.index() == pre.index().insert(h, n as usize)
            &&& post.head_map() == pre.head_map().insert(d.body.owner_uid, h)
            &&& post.violation_seq() == pre.violation_seq() + reports_for(
                h,
                d.body.epoch,
                e,
                pre.fork_of(d.body.owner_uid, ps),
            )
            &&& post.owner() == pre.owner()
            &&& post.start_epoch() == pre.start_epoch()
            &&& post.selector() == pre.selector()
        }
    }

    /// The outcome of offering `d` to `pre`: a known hash changes nothing; a message with
    /// an unknown parent is refused and changes nothing; any other is accepted.
    pub open spec fn ingest_step(pre: &Self, post: &Self, d: SignedMessageData, ok: bool) -> bool {
        if pre.index().contains_key(d.hash) {
            ok && *post == *pre
        } else if !all_known(pre.index(), d.body.parents@) {
            !ok && *post == *pre
        } else {
            ok && Self::accepts(pre, post, d)
        }
    }

    /// Adds a message received from a peer. It is refused when one of its parents is
    /// unknown; violations it shows are recorded, not refused.
    pub fn add_existing_message(&mut self, message_data: SignedMessageData) -> (r: Result<(), &'static str>)
        requires
            old(self).wf(),
            old(self).node_seq().len() < usize::MAX,
        ensures
            final(self).wf(),
            Self::ingest_step(old(self), final(self), message_data, r is Ok),
    {
        if self.messages.contains_key(&message_data.hash) {
            return Ok(());
        }
        let ghost d = message_data;
        let ghost index = self.messages@;
        let ghost nodes = self.nodes@;
        let mut message = Message::new(message_data);
        let mut k: usize = 0;
        while k < message.data.body.parents.len()
            invariant
                *self == *old(self),
                !index.contains_key(d.hash),
                d == message_data,
                self.wf(),
                self.messages@ == index,
                self.nodes@ == nodes,
                message.data == d,
                k <= d.body.parents@.len(),
                message.parents@ == resolved(index, d.body.parents@.take(k as int)),
                all_known(index, d.body.parents@.take(k as int)),
                parents_below(message.parents@, nodes.len() as int),
            decreases d.body.parents@.len() - k,
        {
            let ph = message.data.body.parents[k];
            let i: usize = match self.messages.get(&ph) {
                Some(i) => *i,
                None => {
                    proof {
                        assert(!all_known(index, d.body.parents@));
                    }
                    return Err("Some parents of the message are unknown");
                },
            };
            proof {
                assert(self.index().contains_key(ph));
                assert(self.index()[ph] == i);
                assert(i < nodes.len());
            }
            message.parents.push(i);
            proof {
                assert(resolved(index, d.body.parents@.take(k + 1)) =~= resolved(
                    index,
                    d.body.parents@.take(k as int),
                ).push(index[ph]));
                assert forall|j: int| 0 <= j < k + 1 implies index.contains_key(
                    #[trigger] d.body.parents@.take(k + 1)[j],
                ) by {
                    if j < k {
                        assert(d.body.parents@.take(k + 1)[j] == d.body.parents@.take(k as int)[j]);
                    }
                }
            }
            k += 1;
        }
        proof {
            assert(d.body.parents@.take(k as int) =~= d.body.parents@);
        }
        message.init(&self.nodes, self.starting_epoch, self.witness_selector);
        let ghost w = choose|w: Set<UID>|
            message.computed_epoch == derived_epoch(nodes, message.parents@, d.body.owner_uid, self.starting_epoch, w);
        let h = message.computed_hash;
        if self.messages.contains_key(&h) {
            return Ok(());
        }
        let owner = message.data.body.owner_uid;
        self.verify_message(&message);
        let n = self.nodes.len();
        let ghost roots = self.roots@;
        self.roots = without_positions(&self.roots, &message.parents);
        let ghost filtered = self.roots@;
        self.roots.push(n);
        self.participant_head.insert(owner, h);
        let ghost m = message;
        self.nodes.push(message);
        self.messages.insert(h, n);
        proof {
            let ns = self.nodes@;
            assert(ns =~= nodes.push(m));
            assert(self.roots@.drop_last() =~= filtered);
            assert(nodes.len() <= usize::MAX);
            assert forall|r: usize|
                #[trigger] self.roots@.contains(r) <==> (r < ns.len() && !is_parent_of_some(
                    ns,
                    r as int,
                )) by {
                lemma_parent_push(nodes, m, r as int);
                if r == n {
                    assert(self.roots@[self.roots@.len() - 1] == r);
                    if is_parent_of_some(ns, r as int) {
                        let (i, j) = choose|i: int, j: int|
                            0 <= i < ns.len() && 0 <= j < ns[i].parents@.len() && #[trigger] ns[i].parents@[j] == r;
                        assert(ns[i].parents@[j] < i);
                    }
                } else {
                    if self.roots@.contains(r) {
                        let t = choose|t: int| 0 <= t < self.roots@.len() && self.roots@[t] == r;
                        assert(t < self.roots@.len() - 1);
                        assert(self.roots@.drop_last().contains(r));
                    }
                    if r < ns.len() && !is_parent_of_some(ns, r as int) {
                        assert(self.roots@.drop_last().contains(r));
                        let t = choose|t: int|
                            0 <= t < self.roots@.drop_last().len() && self.roots@.drop_last()[t] == r;
                        assert(self.roots@[t] == r);
                    }
                }
            }
            assert(!self.roots@.drop_last().contains(n)) by {
                if self.roots@.drop_last().contains(n) {
                    assert(roots.contains(n));
                }
            }
            assert forall|a: int, b: int| 0 <= a < b < self.roots@.len() implies self.roots@[a] != self.roots@[b] by {
                if b == self.roots@.len() - 1 {
                    assert(self.roots@.drop_last().contains(self.roots@.drop_last()[a]));
                } else {
                    assert(self.roots@.drop_last()[a] == self.roots@[a]);
                    assert(self.roots@.drop_last()[b] == self.roots@[b]);
                }
            }
            assert(self.nodes@.take(n as int) =~= nodes);
            assert(m.computed_epoch == derived_epoch(
                old(self).node_seq(),
                resolved(old(self).index(), d.body.parents@),
                d.body.owner_uid,
                old(self).start_epoch(),
                w,
            ));
        }
        Ok(())
    }

    /// Whether `post` is `pre` after the local owner made the message `m` over all the
    /// roots of `pre`, with the epoch derived from some witness set: `m` comes last and
    /// becomes the only root. Should a message with the same hash be known already,
    /// nothing changes and `m` is that message.
    pub open spec fn synthesizes(
        pre: &Self,
        post: &Self,
        payload: Seq<u8>,
        endorsements: Seq<Endorsement>,
        m: Message,
    ) -> bool {
        exists|w: Set<UID>|
            Self::synthesizes_with(
                pre,
                post,
                payload,
                endorsements,
                m,
                derived_epoch(pre.node_seq(), pre.root_seq(), pre.owner(), pre.start_epoch(), w),
            )
    }

    /// `synthesizes`, with the epoch `e` of the new message given.
    pub open spec fn synthesizes_with(
        pre: &Self,
        post: &Self,
        payload: Seq<u8>,
        endorsements: Seq<Endorsement>,
        m: Message,
        e: u64,
    ) -> bool {
        let n = pre.node_seq().len();
        let body = BodyView {
            owner_uid: pre.owner(),
            parents: hashes_at(pre.node_seq(), pre.root_seq()),
            epoch: e,
            payload: payload,
            endorsements: endorsements,
        };
        let h = body_hash(body);
        if pre.index().contains_key(h) {
            *post == *pre && m == pre.node_seq()[pre.index()[h] as int]
        } else {
            &&& post.node_seq() == pre.node_seq().push(m)
            &&& m.parents@ == pre.root_seq()
            &&& m.data.body@ == body
            &&& m.data.hash == h
            &&& m.data.owner_sig == 0
            &&& m.computed_hash == h
            &&& m.computed_epoch == e
            &&& post.index() == pre.index().insert(h, n as usize)
            &&& post.root_seq() == seq![n as usize]
            &&& post.head_map() == pre.head_map()
            &&& post.violation_seq() == pre.violation_seq()
            &&& post.owner() == pre.owner()
            &&& post.start_epoch() == pre.start_epoch()
            &&& post.selector() == pre.selector()
        }
    }

    /// Makes a message of the local owner whose parents are all the current roots, and
    /// makes it the only root.
    pub fn create_root_message(&mut self, payload: Vec<u8>, endorsements: Vec<Endorsement>) -> (r: &Message)
        requires
            old(self).wf(),
            old(self).node_seq().len() < usize::MAX,
        ensures
            final(self).wf(),
            Self::synthesizes(old(self), final(self), payload@, endorsements@, *r),
    {
        let ghost nodes = self.nodes@;
        let ghost roots = self.roots@;
        let mut parent_hashes: Vec<StructHash> = Vec::new();
        let mut parents: Vec<usize> = Vec::new();
        let mut j: usize = 0;
        while j < self.roots.len()
            invariant
                self.wf(),
                nodes == self.nodes@,
                roots == self.roots@,
                j <= roots.len(),
                parents@ == roots.take(j as int),
                parent_hashes@ == hashes_at(nodes, roots.take(j as int)),
            decreases roots.len() - j,
        {
            let r = self.roots[j];
            proof {
                assert(roots.contains(r));
            }
            parent_hashes.push(self.nodes[r].computed_hash);
            parents.push(r);
            proof {
                assert(roots.take(j + 1) =~= roots.take(j as int).push(r));
                assert(hashes_at(nodes, roots.take(j + 1)) =~= hashes_at(nodes, roots.take(j as int)).push(
                    nodes[r as int].computed_hash,
                ));
            }
            j += 1;
        }
        proof {
            assert(roots.take(j as int) =~= roots);
            assert forall|k: int| 0 <= k < parents@.len() implies #[trigger] parents@[k] < nodes.len() by {
                assert(roots.contains(roots[k]));
            }
        }
        let mut message = Message::new(
            SignedMessageData {
                owner_sig: 0,
                hash: 0,
                body: MessageDataBody {
                    owner_uid: self.owner_uid,
                    parents: parent_hashes,
                    epoch: 0,
                    payload,
                    endorsements,
                },
            },
        );
        message.parents = parents;
        message.init(&self.nodes, self.starting_epoch, self.witness_selector);
        let ghost w = choose|w: Set<UID>|
            message.computed_epoch == derived_epoch(nodes, roots, self.owner_uid, self.starting_epoch, w);
        message.assume_computed_hash_epoch();
        let h = message.computed_hash;
        let found: Option<usize> = match self.messages.get(&h) {
            Some(i) => Some(*i),
            None => {
                proof {
                    assert(!self.index().contains_key(h));
                }
                None
            },
        };
        if let Some(i) = found {
            proof {
                assert(self.index().contains_key(h));
                assert(message.data.body@ =~= (BodyView {
                    owner_uid: self.owner(),
                    parents: hashes_at(nodes, roots),
                    epoch: message.computed_epoch,
                    payload: payload@,
                    endorsements: endorsements@,
                }));
            }
            proof {
                assert(message.computed_epoch == derived_epoch(
                    old(self).node_seq(),
                    old(self).root_seq(),
                    old(self).owner(),
                    old(self).start_epoch(),
                    w,
                ));
                assert(Self::synthesizes_with(
                    old(self),
                    self,
                    payload@,
                    endorsements@,
                    self.nodes@[i as int],
                    message.computed_epoch,
                ));
            }
            return &self.nodes[i];
        }
        let n = self.nodes.len();
        let ghost m = message;
        self.nodes.push(message);
        self.messages.insert(h, n);
        let mut new_roots: Vec<usize> = Vec::new();
        new_roots.push(n);
        self.roots = new_roots;
        proof {
            let ns = self.nodes@;
            assert(ns =~= nodes.push(m));
            assert(m.data.body@ =~= (BodyView {
                owner_uid: old(self).owner(),
                parents: hashes_at(nodes, roots),
                epoch: m.computed_epoch,
                payload: payload@,
                endorsements: endorsements@,
            }));
            assert(self.roots@ =~= seq![n]);
            assert(parents_below(m.parents@, n as int));
            assert(parents_precede(ns)) by {
                assert forall|i: int, j: int|
                    0 <= i < ns.len() && 0 <= j < ns[i].parents@.len() implies #[trigger] ns[i].parents@[j] < i by {
                    if i < n {
                        assert(ns[i] == nodes[i]);
                    } else {
                        assert(m.parents@[j] < n);
                    }
                }
            }
            assert forall|r: usize|
                #[trigger] self.roots@.contains(r) <==> (r < ns.len() && !is_parent_of_some(
                    ns,
                    r as int,
                )) by {
                lemma_parent_push(nodes, m, r as int);
                if r == n {
                    assert(self.roots@[0] == r);
                    if is_parent_of_some(ns, r as int) {
                        let (i, j) = choose|i: int, j: int|
                            0 <= i < ns.len() && 0 <= j < ns[i].parents@.len() && #[trigger] ns[i].parents@[j] == r;
                        assert(ns[i].parents@[j] < i);
                    }
                } else if r < n && !is_parent_of_some(nodes, r as int) {
                    assert(roots.contains(r));
                }
            }
            let index = self.index();
            assert forall|u: UID| #[trigger] self.head_map().contains_key(u) implies index.contains_key(
                self.head_map()[u],
            ) && ns[index[self.head_map()[u]] as int].data.body.owner_uid == u by {
                let hu = self.head_map()[u];
                assert(old(self).head_map().contains_key(u));
                assert(old(self).index().contains_key(hu));
                assert(hu != h);
                assert(index[hu] == old(self).index()[hu]);
                assert(ns[index[hu] as int] == nodes[old(self).index()[hu] as int]);
            }
            assert(m.computed_epoch == derived_epoch(
                old(self).node_seq(),
                old(self).root_seq(),
                old(self).owner(),
                old(self).start_epoch(),
                w,
            ));
            assert(Self::synthesizes_with(old(self), self, payload@, endorsements@, m, m.computed_epoch));
        }
        &self.nodes[n]
    }

    /// Whether there is exactly one root and the local owner made it.
    pub fn is_current_owner_root(&self) -> (r: bool)
        requires
            self.wf(),
        ensures
            r == (self.root_seq().len() == 1 && self.node_seq()[self.root_seq()[0] as int].data.body.owner_uid
                == self.owner()),
    {
        match self.current_root_data() {
            Some(d) => d.body.owner_uid == self.owner_uid,
            None => false,
        }
    }

    /// Whether there are several roots.
    pub fn has_dangling_roots(&self) -> (r: bool)
        ensures
            r == (self.root_seq().len() > 1),
    {
        self.roots.len() > 1
    }

    /// The data of the root, when there is exactly one.
    pub fn current_root_data(&self) -> (r: Option<&SignedMessageData>)
        requires
            self.wf(),
        ensures
            r is Some == (self.root_seq().len() == 1),
            r is Some ==> *r->0 == self.node_seq()[self.root_seq()[0] as int].data,
    {
        if self.roots.len() == 1 {
            proof {
                assert(self.roots@.contains(self.roots@[0]));
            }
            Some(&self.nodes[self.roots[0]].data)
        } else {
            None
        }
    }

    /// Whether a message with this hash is known.
    pub fn contains_message(&self, hash: &StructHash) -> (r: bool)
        ensures
            r == self.index().contains_key(*hash),
    {
        self.messages.contains_key(hash)
    }

    /// A copy of the data of the message with this hash, if it is known.
    pub fn copy_message_data_by_hash(&self, hash: &StructHash) -> (r: Option<SignedMessageData>)
        requires
            self.wf(),
        ensures
            r is Some == self.index().contains_key(*hash),
            r is Some ==> {
                let d = self.node_seq()[self.index()[*hash] as int].data;
                &&& r->0.owner_sig == d.owner_sig
                &&& r->0.hash == d.hash
                &&& r->0.body@ == d.body@
            },
    {
        match self.messages.get(hash) {
            Some(i) => {
                proof {
                    assert(self.index().contains_key(*hash));
                }
                Some(self.nodes[*i].data.copy())
            },
            None => None,
        }
    }

    /// The message with this hash, if it is known.
    pub fn message_by_hash(&self, hash: &StructHash) -> (r: Option<&Message>)
        requires
            self.wf(),
        ensures
            r is Some == self.index().contains_key(*hash),
            r is Some ==> *r->0 == self.node_seq()[self.index()[*hash] as int],
    {
        match self.messages.get(hash) {
            Some(i) => {
                proof {
                    assert(self.index().contains_key(*hash));
                }
                Some(&self.nodes[*i])
            },
            None => None,
        }
    }

    /// The number of known messages.
    pub fn messages_len(&self) -> (r: usize)
        ensures
            r == self.node_seq().len(),
    {
        self.nodes.len()
    }

    /// The `i`-th message in order of arrival.
    pub fn message_at(&self, i: usize) -> (r: &Message)
        requires
            i < self.node_seq().len(),
        ensures
            *r == self.node_seq()[i as int],
    {
        &self.nodes[i]
    }

    /// The number of roots.
    pub fn roots_len(&self) -> (r: usize)
        ensures
            r == self.root_seq().len(),
    {
        self.roots.len()
    }

    /// The hashes of the roots.
    pub fn root_hashes(&self) -> (r: Vec<StructHash>)
        requires
            self.wf(),
        ensures
            r@ == hashes_at(self.node_seq(), self.root_seq()),
    {
        let mut r: Vec<StructHash> = Vec::new();
        let mut j: usize = 0;
        while j < self.roots.len()
            invariant
                self.wf(),
                j <= self.roots@.len(),
                r@ == hashes_at(self.nodes@, self.roots@.take(j as int)),
            decreases self.roots@.len() - j,
        {
            let x = self.roots[j];
            proof {
                assert(self.roots@.contains(x));
            }
            r.push(self.nodes[x].computed_hash);
            proof {
                assert(hashes_at(self.nodes@, self.roots@.take(j + 1)) =~= hashes_at(
                    self.nodes@,
                    self.roots@.take(j as int),
                ).push(self.nodes@[x as int].computed_hash));
            }
            j += 1;
        }
        assert(self.roots@.take(j as int) =~= self.roots@);
        r
    }

    /// The violations found so far, in order.
    pub fn violations(&self) -> (r: &Vec<ViolationType>)
        ensures
            r@ == self.violation_seq(),
    {
        self.misbehaviour.violations()
    }

    /// The hash of the latest accepted message of `uid`, if any.
    pub fn head_of(&self, uid: UID) -> (r: Option<StructHash>)
        ensures
            r is Some == self.head_map().contains_key(uid),
            r is Some ==> r->0 == self.head_map()[uid],
    {
        match self.participant_head.get(&uid) {
            Some(h) => Some(*h),
            None => None,
        }
    }
}


/// The positions below `n`.
pub open spec fn positions_below(n: int) -> Set<usize> {
    Set::new(|r: usize| r < n)
}

/// The positions of the nodes that some node names as a parent.
pub open spec fn parent_positions(nodes: Seq<Message>) -> Set<usize> {
    Set::new(|r: usize| r < nodes.len() && is_parent_of_some(nodes, r as int))
}

proof fn lemma_positions_below(n: int)
    requires
        0 <= n <= usize::MAX + 1,
    ensures
        positions_below(n).finite(),
        positions_below(n).len() == n,
    decreases n,
{
    if n == 0 {
        assert(positions_below(0) =~= Set::<usize>::empty());
    } else {
        lemma_positions_below(n - 1);
        assert(positions_below(n) =~= positions_below(n - 1).insert((n - 1) as usize));
    }
}

/// The number of roots is the number of messages less the number of messages that some
/// message names as a parent.
pub proof fn lemma_root_count<W: WitnessSelector>(dag: &DAG<W>)
    requires
        dag.wf(),
    ensures
        parent_positions(dag.node_seq()).finite(),
        dag.root_seq().len() == dag.node_seq().len() - parent_positions(dag.node_seq()).len(),
{
    let nodes = dag.node_seq();
    let n = nodes.len() as int;
    let all = positions_below(n);
    let ps = parent_positions(nodes);
    lemma_positions_below(n);
    assert(ps.subset_of(all));
    vstd::set_lib::lemma_len_subset(ps, all);
    assert(dag.root_seq().to_set() =~= all.difference(ps));
    vstd::set_lib::lemma_set_difference_len(all, ps);
    assert(all.intersect(ps) =~= ps);
    dag.root_seq().unique_seq_to_set();
}

/// Offering the same message a second time succeeds or fails as the first offer did,
/// and changes nothing.
pub proof fn lemma_ingest_idempotent<W: WitnessSelector>(
    a: &DAG<W>,
    b: &DAG<W>,
    c: &DAG<W>,
    d: SignedMessageData,
    ok1: bool,
    ok2: bool,
)
    requires
        a.wf(),
        DAG::ingest_step(a, b, d, ok1),
        DAG::ingest_step(b, c, d, ok2),
    ensures
        ok2 == ok1,
        *c == *b,
{
    let h = body_hash(d.body@);
    if !a.index().contains_key(d.hash) && all_known(a.index(), d.body.parents@) && !a.index().contains_key(h) {
        assert(b.index().contains_key(h));
        if !b.index().contains_key(d.hash) {
            assert forall|j: int| 0 <= j < d.body.parents@.len() implies b.index().contains_key(
                #[trigger] d.body.parents@[j],
            ) by {
                assert(a.index().contains_key(d.body.parents@[j]));
            }
        }
    }
}

/// A message whose hash is unknown is refused while one of its parents is unknown, and
/// accepted once all of them are known.
pub proof fn lemma_parents_first<W: WitnessSelector>(
    a: &DAG<W>,
    b: &DAG<W>,
    d: SignedMessageData,
    ok: bool,
)
    requires
        DAG::ingest_step(a, b, d, ok),
    ensures
        !a.index().contains_key(d.hash) && !all_known(a.index(), d.body.parents@) ==> !ok && *b == *a,
        all_known(a.index(), d.body.parents@) ==> ok,
{
}

/// Offering a message never removes or changes a reported violation.
pub proof fn lemma_violations_grow<W: WitnessSelector>(
    a: &DAG<W>,
    b: &DAG<W>,
    d: SignedMessageData,
    ok: bool,
)
    requires
        DAG::ingest_step(a, b, d, ok),
    ensures
        a.violation_seq().is_prefix_of(b.violation_seq()),
{
    if b.violation_seq() != a.violation_seq() {
        let h = body_hash(d.body@);
        let ps = resolved(a.index(), d.body.parents@);
        let e = b.node_seq()[a.node_seq().len() as int].computed_epoch;
        let extra = reports_for(h, d.body.epoch, e, a.fork_of(d.body.owner_uid, ps));
        assert(b.violation_seq() == a.violation_seq() + extra);
        assert(b.violation_seq().subrange(0, a.violation_seq().len() as int) =~= a.violation_seq());
    } else {
        assert(b.violation_seq().subrange(0, a.violation_seq().len() as int) =~= a.violation_seq());
    }
}

} // verus!
