use std::collections::{HashMap, HashSet};
use txflow_core::dag::DAG;
use txflow_core::reporter::ViolationType;
use txflow_core::types::{MessageDataBody, SignedMessageData, StructHash, UID};
use txflow_core::witness::WitnessSelector;

struct FakeWitnessSelector {
    schedule: HashMap<u64, HashSet<UID>>,
}

impl FakeWitnessSelector {
    fn new() -> FakeWitnessSelector {
        let mut schedule = HashMap::new();
        schedule.insert(0, [0, 1, 2, 3].into_iter().collect());
        schedule.insert(1, [1, 2, 3, 4].into_iter().collect());
        schedule.insert(2, [2, 3, 4, 5].into_iter().collect());
        schedule.insert(3, [3, 4, 5, 6].into_iter().collect());
        FakeWitnessSelector { schedule }
    }
}

impl WitnessSelector for FakeWitnessSelector {
    fn epoch_witnesses(&self, epoch: u64) -> &HashSet<u64> {
        self.schedule.get(&epoch).unwrap()
    }
    fn epoch_leader(&self, epoch: u64) -> UID {
        *self.epoch_witnesses(epoch).iter().min().unwrap()
    }
    fn random_witness(&self, epoch: u64) -> u64 {
        *self.epoch_witnesses(epoch).iter().max().unwrap()
    }
}

/// A message of `owner` claiming `epoch`, over the given parents, with its hash filled in.
fn msg(owner: UID, epoch: u64, parents: &[&SignedMessageData]) -> SignedMessageData {
    let body = MessageDataBody {
        owner_uid: owner,
        parents: parents.iter().map(|p| p.hash).collect(),
        epoch,
        payload: vec![],
        endorsements: vec![],
    };
    let hash = body.hash();
    SignedMessageData { owner_sig: 0, hash, body }
}

#[test]
fn check_correct_epoch_simple() {
    let selector = FakeWitnessSelector::new();
    let mut dag = DAG::new(0, 0, &selector);

    // Parent has a greater epoch than its child.
    let a = msg(1, 2, &[]);
    let b = msg(1, 1, &[&a]);

    assert!(dag.add_existing_message(a.clone()).is_ok());
    assert!(dag.add_existing_message(b.clone()).is_ok());

    for i in 0..dag.messages_len() {
        assert_eq!(dag.message_at(i).computed_epoch, 0);
    }

    // Both messages have invalid epoch number so two reports were made
    assert_eq!(dag.violations().len(), 2);

    for violation in dag.violations() {
        if let ViolationType::BadEpoch { message: _ } = violation {
            // expected violation type
        } else {
            assert!(false);
        }
    }
}

#[test]
fn check_correct_epoch_complex() {
    // A message can move to epoch k once it sees enough messages of smaller epochs.
    let selector = FakeWitnessSelector::new();
    let mut dag = DAG::new(0, 0, &selector);

    let x0 = msg(0, 0, &[]);
    let x1 = msg(1, 0, &[]);
    let x2 = msg(2, 0, &[]);
    let a = msg(0, 1, &[&x0, &x1, &x2]);
    let b = msg(3, 1, &[&a]);
    let all_messages = vec![x0, x1, x2, a, b];

    for m in &all_messages {
        assert!(dag.add_existing_message(m.clone()).is_ok());
    }

    for i in 0..dag.messages_len() {
        let message = dag.message_at(i);
        assert_eq!(message.computed_epoch, message.data.body.epoch);
    }

    assert_eq!(dag.violations().len(), 0);
}

#[test]
fn notice_simple_fork() {
    let selector = FakeWitnessSelector::new();
    let mut dag = DAG::new(0, 0, &selector);

    let a = msg(0, 0, &[]);
    let b = msg(1, 0, &[]);
    let m1 = msg(3, 1, &[&a, &b]);
    let c = msg(2, 0, &[]);
    let b2 = msg(1, 0, &[]);
    let m2 = msg(3, 1, &[&c, &b2]);
    let all_messages = vec![a, b, m1, c, b2, m2];

    for m in &all_messages {
        assert!(dag.add_existing_message(m.clone()).is_ok());
    }

    assert_eq!(dag.violations().len(), 1);

    let violation = dag.violations().get(0usize);

    match violation {
        Some(ViolationType::ForkAttempt { message_0: _, message_1: _ }) => {
            assert!(true);
        },
        _ => {
            assert!(false);
        },
    }
}

#[test]
fn feed_complex_topology() {
    let selector = FakeWitnessSelector::new();
    let mut dag = DAG::new(0, 0, &selector);
    let a = msg(0, 0, &[]);
    let x = msg(1, 2, &[]);
    let b = msg(2, 3, &[&a, &x]);
    let y = msg(3, 4, &[]);
    let z = msg(4, 5, &[&a, &y]);
    let w = msg(0, 0, &[]);
    let v = msg(4, 3, &[&a, &b, &w]);
    let all_messages = vec![a, x, b, y, z, w, v];

    // Feed messages in DFS order which ensures that the parents are fed before the children.
    for m in all_messages {
        assert!(dag.add_existing_message(m).is_ok());
    }
}

#[test]
fn check_missing_messages_as_feeding() {
    let selector = FakeWitnessSelector::new();
    let mut dag = DAG::new(0, 0, &selector);
    let a = msg(0, 0, &[]);
    let b = msg(1, 2, &[]);
    let c = msg(2, 3, &[&a, &b]);
    let d = msg(3, 4, &[]);
    let e = msg(4, 5, &[&a, &d]);
    assert!(dag.add_existing_message(a.clone()).is_ok());
    // Check we cannot add message e yet, because it's parent d was not received, yet.
    assert!(dag.add_existing_message(e.clone()).is_err());
    assert!(dag.add_existing_message(d.clone()).is_ok());
    // Check that we have two dangling roots now.
    assert_eq!(dag.roots_len(), 2);
    // Now we can add message e, because we know all its parents!
    assert!(dag.add_existing_message(e.clone()).is_ok());
    // Check that there is only one root now.
    assert_eq!(dag.roots_len(), 1);
    // Still we cannot add message c, because b is missing.
    assert!(dag.add_existing_message(c.clone()).is_err());
    // Now add b and c.
    assert!(dag.add_existing_message(b.clone()).is_ok());
    assert!(dag.add_existing_message(c.clone()).is_ok());
    // Check that we again have to dangling roots -- e and c.
    assert_eq!(dag.roots_len(), 2);
}

#[test]
fn create_roots() {
    let selector = FakeWitnessSelector::new();
    let mut dag = DAG::new(0, 0, &selector);
    let a = msg(0, 0, &[]);
    let b = msg(1, 2, &[]);
    let c = msg(2, 3, &[&a, &b]);

    assert!(dag.add_existing_message(a.clone()).is_ok());
    let d = dag.create_root_message(vec![], vec![]).data.clone();

    let e = msg(4, 5, &[&b, &d]);

    // Check that we cannot message e, because b was not added yet.
    assert!(dag.add_existing_message(e.clone()).is_err());

    assert!(dag.add_existing_message(b.clone()).is_ok());
    assert!(dag.add_existing_message(e.clone()).is_ok());
    assert!(dag.add_existing_message(c.clone()).is_ok());
}

// The DAG can be moved between additions.
#[test]
fn movable() {
    let selector = FakeWitnessSelector::new();
    let mut dag = DAG::new(0, 0, &selector);
    let a = msg(0, 0, &[]);
    let x = msg(1, 2, &[]);
    let b = msg(2, 3, &[&a, &x]);
    {
        let w = msg(0, 0, &[]);
        let v = msg(4, 3, &[&a, &b, &w]);
        for m in vec![a.clone(), x, b.clone(), w, v] {
            assert!(dag.add_existing_message(m).is_ok());
        }
    }
    // Move the DAG.
    let mut moved_dag = dag;
    // And add some more messages.
    {
        let w = msg(0, 0, &[]);
        let v = msg(4, 3, &[&a, &b, &w]);
        for m in vec![w, v] {
            assert!(moved_dag.add_existing_message(m).is_ok());
        }
    }
}

#[test]
fn correct_signature() {
    let selector = FakeWitnessSelector::new();
    let mut dag = DAG::new(0, 0, &selector);
    let a = msg(0, 0, &[]);
    let x = msg(1, 2, &[]);
    let b = msg(2, 3, &[&a, &x]);
    let y = msg(3, 4, &[]);
    let z = msg(4, 5, &[&a, &y]);
    let w = msg(0, 0, &[]);
    let v = msg(4, 3, &[&a, &b, &w]);

    // Feed messages in DFS order which ensures that the parents are fed before the children.
    for m in vec![a, x, b, y, z, w, v] {
        let _ = dag.add_existing_message(m);
    }

    for i in 0..dag.messages_len() {
        let m = dag.message_at(i);
        assert_eq!(m.computed_signature, m.data.owner_sig);
    }
}

#[test]
fn bad_epoch_scenario() {
    let selector = FakeWitnessSelector::new();
    let mut dag = DAG::new(0, 0, &selector);
    let m = msg(0, 1, &[]);
    assert!(dag.add_existing_message(m.clone()).is_ok());
    assert_eq!(dag.message_by_hash(&m.hash).unwrap().computed_epoch, 0);
    assert_eq!(dag.violations(), &vec![ViolationType::BadEpoch { message: m.hash }]);
    assert!(dag.contains_message(&m.hash));
    assert_eq!(dag.root_hashes(), vec![m.hash]);
}

#[test]
fn simple_fork_scenario() {
    let selector = FakeWitnessSelector::new();
    let mut dag = DAG::new(0, 0, &selector);
    let a = msg(0, 0, &[]);
    let b = msg(1, 0, &[]);
    let c = msg(2, 0, &[]);
    let m1 = msg(3, 1, &[&a, &b]);
    let m2 = msg(3, 1, &[&c, &b]);
    for m in [&a, &b, &m1, &c, &m2] {
        assert!(dag.add_existing_message(m.clone()).is_ok());
    }
    assert_eq!(
        dag.violations(),
        &vec![ViolationType::ForkAttempt { message_0: m1.hash, message_1: m2.hash }]
    );
    assert_eq!(dag.head_of(3), Some(m2.hash));
}

#[test]
fn no_fork_when_head_is_reached_through_others() {
    let selector = FakeWitnessSelector::new();
    let mut dag = DAG::new(0, 0, &selector);
    let m1 = msg(3, 0, &[]);
    let a = msg(0, 0, &[&m1]);
    let b = msg(1, 0, &[&a]);
    let m2 = msg(3, 0, &[&b]);
    for m in [&m1, &a, &b, &m2] {
        assert!(dag.add_existing_message(m.clone()).is_ok());
    }
    assert_eq!(dag.violations().len(), 0);
    // A later message of 3 that skips m2 and reaches only m1 is a fork.
    let m3 = msg(3, 0, &[&a]);
    assert!(dag.add_existing_message(m3.clone()).is_ok());
    assert_eq!(
        dag.violations(),
        &vec![ViolationType::ForkAttempt { message_0: m2.hash, message_1: m3.hash }]
    );
}

#[test]
fn fork_when_parents_are_empty() {
    let selector = FakeWitnessSelector::new();
    let mut dag = DAG::new(0, 0, &selector);
    let m1 = msg(2, 0, &[]);
    let m2 = msg(2, 0, &[&m1]);
    let m3 = msg(2, 1, &[]);
    assert!(dag.add_existing_message(m1.clone()).is_ok());
    assert!(dag.add_existing_message(m2.clone()).is_ok());
    assert_eq!(dag.violations().len(), 0);
    assert!(dag.add_existing_message(m3.clone()).is_ok());
    assert_eq!(
        dag.violations(),
        &vec![
            ViolationType::BadEpoch { message: m3.hash },
            ViolationType::ForkAttempt { message_0: m2.hash, message_1: m3.hash },
        ]
    );
}

#[test]
fn out_of_order_delivery() {
    let selector = FakeWitnessSelector::new();
    let mut dag = DAG::new(0, 0, &selector);
    let pa = msg(0, 0, &[]);
    let pb = msg(1, 0, &[]);
    let c = msg(2, 0, &[&pa, &pb]);
    assert_eq!(dag.add_existing_message(c.clone()), Err("Some parents of the message are unknown"));
    assert_eq!(dag.messages_len(), 0);
    assert!(dag.add_existing_message(pa.clone()).is_ok());
    assert!(dag.add_existing_message(c.clone()).is_err());
    assert!(dag.add_existing_message(pb.clone()).is_ok());
    assert!(dag.add_existing_message(c.clone()).is_ok());
    assert_eq!(dag.roots_len(), 1);
    assert_eq!(dag.root_hashes(), vec![c.hash]);
}

#[test]
fn root_collapse_via_create_root_message() {
    let selector = FakeWitnessSelector::new();
    let mut dag = DAG::new(0, 0, &selector);
    let r1 = msg(1, 0, &[]);
    let r2 = msg(2, 0, &[]);
    assert!(dag.add_existing_message(r1.clone()).is_ok());
    assert!(dag.add_existing_message(r2.clone()).is_ok());
    assert!(dag.has_dangling_roots());
    assert!(!dag.is_current_owner_root());
    let before = dag.messages_len();
    let m = dag.create_root_message(vec![7, 8], vec![]);
    let parents: HashSet<StructHash> = m.data.body.parents.iter().cloned().collect();
    let expected: HashSet<StructHash> = [r1.hash, r2.hash].into_iter().collect();
    assert_eq!(parents, expected);
    assert_eq!(m.data.hash, m.data.body.hash());
    assert_eq!(m.data.hash, m.computed_hash);
    let new_hash = m.data.hash;
    assert_eq!(dag.roots_len(), 1);
    assert_eq!(dag.messages_len(), before + 1);
    assert!(dag.is_current_owner_root());
    assert!(!dag.has_dangling_roots());
    assert_eq!(dag.current_root_data().unwrap().hash, new_hash);
    assert_eq!(dag.copy_message_data_by_hash(&new_hash).unwrap().body.payload, vec![7, 8]);
}

#[test]
fn idempotent_re_ingest() {
    let selector = FakeWitnessSelector::new();
    let mut dag = DAG::new(0, 0, &selector);
    let a = msg(0, 1, &[]);
    let b = msg(1, 0, &[&a]);
    assert!(dag.add_existing_message(a.clone()).is_ok());
    assert!(dag.add_existing_message(b.clone()).is_ok());
    let (n, r, v) = (dag.messages_len(), dag.roots_len(), dag.violations().len());
    assert!(dag.add_existing_message(b.clone()).is_ok());
    assert_eq!((dag.messages_len(), dag.roots_len(), dag.violations().len()), (n, r, v));
    // A wrong hash in the data does not let the same body in twice.
    let mut forged = b.clone();
    forged.hash = forged.hash.wrapping_add(1);
    assert!(dag.add_existing_message(forged).is_ok());
    assert_eq!((dag.messages_len(), dag.roots_len(), dag.violations().len()), (n, r, v));
}

#[test]
fn root_count_identity() {
    let selector = FakeWitnessSelector::new();
    let mut dag = DAG::new(0, 0, &selector);
    let a = msg(0, 0, &[]);
    let b = msg(1, 0, &[]);
    let c = msg(2, 0, &[&a]);
    let d = msg(3, 0, &[&a, &c]);
    for m in [&a, &b, &c, &d] {
        assert!(dag.add_existing_message(m.clone()).is_ok());
    }
    // a and c are parents; b and d are roots.
    assert_eq!(dag.roots_len(), dag.messages_len() - 2);
    let roots: HashSet<StructHash> = dag.root_hashes().into_iter().collect();
    assert_eq!(roots, [b.hash, d.hash].into_iter().collect());
}

#[test]
fn body_hash_depends_on_the_body() {
    let a = msg(0, 0, &[]);
    let b = msg(0, 1, &[]);
    let c = msg(1, 0, &[]);
    assert_eq!(a.body.hash(), msg(0, 0, &[]).body.hash());
    assert_ne!(a.body.hash(), b.body.hash());
    assert_ne!(a.body.hash(), c.body.hash());
}
