use seq_crdt::keys::NodeKey;
use seq_crdt::protocol::{apply_local_op, apply_remote_op, LocalOp, RemoteOp};
use seq_crdt::side::Side;
use seq_crdt::store::{Doc, StoreError};

fn from_digits(digits: &[u32]) -> Vec<NodeKey> {
    digits
        .iter()
        .map(|digit| NodeKey {
            digit: *digit,
            peer_id: 0,
            time: 0,
        })
        .collect()
}

fn replica_a() -> Doc {
    let mut a = Doc::new();
    a.insert_id(from_digits(&[10]), b'a').unwrap();
    a.insert_id(from_digits(&[20]), b'b').unwrap();
    // a deletes its first character before syncing
    a.remove_id(from_digits(&[10])).unwrap();
    a
}

fn replica_b() -> Doc {
    let mut b = Doc::new();
    b.insert_id(from_digits(&[20]), b'b').unwrap();
    b.insert_id(from_digits(&[30]), b'c').unwrap();
    b
}

#[test]
fn merge_convergence_test() {
    // merging either way around gives the same document
    let mut ab = replica_a();
    ab.merge_state(replica_b());
    let mut ba = replica_b();
    ba.merge_state(replica_a());
    assert_eq!(ab.collect_string(), ba.collect_string());
    assert_eq!("bc", ab.collect_string());
}

#[test]
fn merge_idempotent_test() {
    let mut ab = replica_a();
    ab.merge_state(replica_b());
    let once = ab.collect_string();
    // folding one of the inputs back in changes nothing
    ab.merge_state(replica_a());
    assert_eq!(once, ab.collect_string());
}

#[test]
fn merge_respects_tombstones_test() {
    // the other side still lists the identifier live, but the tombstone wins
    let mut b = replica_b();
    b.insert_id(from_digits(&[10]), b'a').unwrap();
    assert_eq!("abc", b.collect_string());
    let mut ab = replica_a();
    ab.merge_state(b);
    assert_eq!("bc", ab.collect_string());
}

#[test]
fn merge_with_self_view_test() {
    // merging two identically built replicas is a no-op
    let mut m = replica_a();
    let before = m.collect_string();
    m.merge_state(replica_a());
    assert_eq!(before, m.collect_string());
}

#[test]
fn replication_round_trip_test() -> Result<(), StoreError> {
    let mut side = Side::new(1);
    let mut origin = Doc::new();
    let mut mirror = Doc::new();
    for (i, byte) in b"hello".iter().enumerate() {
        let op = apply_local_op(
            &mut origin,
            &mut side,
            LocalOp::Insert { position: i as u32, value: *byte },
        )?;
        apply_remote_op(&mut mirror, op)?;
    }
    assert_eq!("hello", origin.collect_string());
    assert_eq!("hello", mirror.collect_string());
    let op = apply_local_op(&mut origin, &mut side, LocalOp::Remove { position: 0 })?;
    apply_remote_op(&mut mirror, op)?;
    assert_eq!("ello", origin.collect_string());
    assert_eq!("ello", mirror.collect_string());
    Ok(())
}

#[test]
fn remote_op_duplicate_delivery_test() -> Result<(), StoreError> {
    let mut side = Side::new(2);
    let mut origin = Doc::new();
    let mut mirror = Doc::new();
    let op = apply_local_op(
        &mut origin,
        &mut side,
        LocalOp::Insert { position: 0, value: b'z' },
    )?;
    let (key, value) = match op {
        RemoteOp::RemoteInsert { key, value } => (key, value),
        RemoteOp::RemoteDelete { .. } => panic!("a local insert broadcasts an insert"),
    };
    apply_remote_op(
        &mut mirror,
        RemoteOp::RemoteInsert { key: key.clone(), value },
    )?;
    // the second delivery of the same insert is rejected, harmlessly
    assert_eq!(
        Err(StoreError::DuplicateIdentifier),
        apply_remote_op(&mut mirror, RemoteOp::RemoteInsert { key: key.clone(), value })
    );
    assert_eq!("z", mirror.collect_string());
    // a delete delivered twice succeeds twice
    apply_remote_op(&mut mirror, RemoteOp::RemoteDelete { key: key.clone() })?;
    apply_remote_op(&mut mirror, RemoteOp::RemoteDelete { key })?;
    assert_eq!("", mirror.collect_string());
    Ok(())
}
