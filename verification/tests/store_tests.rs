use seq_crdt::keys::NodeKey;
use seq_crdt::side::Side;
use seq_crdt::store::{Doc, StoreError};

fn from_digits(digits: &[u32]) -> Vec<NodeKey> {
    digits
        .iter()
        .map(|digit| NodeKey {
            digit: *digit,
            peer_id: 0,
            time: 0,
        })
        .collect()
}

#[test]
fn tests_id_test() {
    let mut this_side = Side::new(123);
    let mut doc = Doc::new();
    let id = doc.generate_id(
        &from_digits(&[0, u32::MAX]),
        &from_digits(&[1]),
        &mut this_side,
    ); // digits are close on purpose
    println!("{:?}", id);
}

#[test]
fn tests_insert_delete_collect_test() -> Result<(), StoreError> {
    let test_str = "abcdefghijklmnoprstuwxyz1234567890";
    let mut this_side = Side::new(123);
    let mut doc = Doc::new();
    let mut ids = Vec::new();
    let mut new_id = doc.bos_id();
    let eos = doc.eos_id();
    for ch in test_str.chars() {
        println!("ch: {:?}", ch);
        println!("after: {:?}", new_id);
        new_id = doc.generate_id(&new_id, &eos, &mut this_side);
        println!("new_id: {:?}\n", new_id);
        doc.insert_id(new_id.clone(), ch as u8)?;
        ids.push(new_id.clone());
    }
    let doc_str = doc.collect_string();
    assert_eq!(test_str, doc_str);
    for (id, ch) in ids.into_iter().zip(test_str.chars()) {
        println!("removing: {}", ch);
        doc.remove_id(id)?;
    }
    let doc_str = doc.collect_string();
    assert_eq!("", doc_str);
    Ok(())
}

#[test]
fn insert_absolute_test() -> Result<(), StoreError> {
    let mut this_side = Side::new(123);
    let mut doc = Doc::new();
    doc.insert_absolute(0, b'a', &mut this_side)?;
    doc.insert_absolute(1, b'c', &mut this_side)?;
    doc.insert_absolute(1, b'b', &mut this_side)?;
    let doc_str = doc.collect_string();
    assert_eq!("abc", doc_str);
    Ok(())
}

#[test]
fn tests_remove_absolute_test() -> Result<(), StoreError> {
    let test_str = "aabbccddeeffgg";
    let mut this_side = Side::new(123);
    let mut doc = Doc::new();
    let mut ids = Vec::new();
    let mut new_id = doc.bos_id();
    let eos = doc.eos_id();
    for ch in test_str.chars() {
        println!("ch: {}", ch);
        new_id = doc.generate_id(&new_id, &eos, &mut this_side);
        println!("new_id: {:?}\n", &new_id);
        doc.insert_id(new_id.clone(), ch as u8)?;
        ids.push(new_id.clone());
    }
    // drop every second character, walking from the back
    for i in (0..test_str.len()).rev() {
        if i % 2 == 1 {
            doc.remove_absolute(i)?;
        }
    }
    let doc_str = doc.collect_string();
    assert_eq!("abcdefg", doc_str);
    Ok(())
}

#[test]
fn insert_remove_absolute_test() -> Result<(), StoreError> {
    let mut this_side = Side::new(123);
    let mut doc = Doc::new();
    doc.insert_absolute(0, b'a', &mut this_side)?;
    doc.insert_absolute(1, b'b', &mut this_side)?;
    doc.insert_absolute(2, b'c', &mut this_side)?;
    doc.insert_absolute(3, b'd', &mut this_side)?;
    doc.insert_absolute(4, b'e', &mut this_side)?;
    doc.remove_absolute(0)?; // bcde
    doc.remove_absolute(3)?; // bcd
    doc.remove_absolute(0)?; // cd
    doc.remove_absolute(1)?; // c
    let doc_str = doc.collect_string();
    assert_eq!("c", doc_str);
    Ok(())
}

#[test]
fn concrete_scenario_test() -> Result<(), StoreError> {
    let mut side = Side::new(7);
    let mut doc = Doc::new();
    doc.insert_absolute(0, b'a', &mut side)?;
    doc.insert_absolute(1, b'c', &mut side)?;
    doc.insert_absolute(1, b'b', &mut side)?;
    assert_eq!("abc", doc.collect_string());
    doc.remove_absolute(1)?;
    assert_eq!("ac", doc.collect_string());
    Ok(())
}

#[test]
fn collect_ascii_test() -> Result<(), StoreError> {
    let mut side = Side::new(9);
    let mut doc = Doc::new();
    doc.insert_absolute(0, b'h', &mut side)?;
    doc.insert_absolute(1, b'i', &mut side)?;
    assert_eq!(vec![b'h', b'i'], doc.collect_ascii());
    assert_eq!(2, doc.live_len());
    Ok(())
}

#[test]
fn get_position_test() -> Result<(), StoreError> {
    let mut side = Side::new(9);
    let mut doc = Doc::new();
    let id = doc.insert_absolute(0, b'x', &mut side)?;
    // the begin sentinel sits at rank zero, the single character after it
    assert_eq!(Some(1), doc.get_position(&id));
    assert_eq!(Some(0), doc.get_position(&doc.bos_id()));
    assert_eq!(Some(2), doc.get_position(&doc.eos_id()));
    assert_eq!(None, doc.get_position(&from_digits(&[42])));
    Ok(())
}

#[test]
fn position_out_of_range_test() {
    let mut side = Side::new(3);
    let mut doc = Doc::new();
    assert_eq!(
        Err(StoreError::PositionOutOfRange),
        doc.insert_absolute(1, b'a', &mut side)
    );
    assert_eq!(Err(StoreError::PositionOutOfRange), doc.remove_absolute(0));
    assert_eq!(Err(StoreError::PositionOutOfRange), doc.remove_at(5));
}

#[test]
fn invalid_removal_test() {
    let mut doc = Doc::new();
    // rank zero is the begin sentinel
    assert_eq!(Err(StoreError::InvalidRemoval), doc.remove_at(0));
    // the sentinels themselves may never be deleted remotely
    let bos = doc.bos_id();
    let eos = doc.eos_id();
    assert_eq!(Err(StoreError::InvalidRemoval), doc.remove_id(bos));
    assert_eq!(Err(StoreError::InvalidRemoval), doc.remove_id(eos));
}

#[test]
fn malformed_identifier_test() {
    let mut doc = Doc::new();
    // an empty path and the sentinel paths lie outside the open interval
    assert_eq!(
        Err(StoreError::MalformedIdentifier),
        doc.insert_id(Vec::new(), b'x')
    );
    let bos = doc.bos_id();
    assert_eq!(
        Err(StoreError::MalformedIdentifier),
        doc.insert_id(bos, b'x')
    );
}

#[test]
fn identifier_not_found_test() {
    let mut doc = Doc::new();
    assert_eq!(
        Err(StoreError::IdentifierNotFound),
        doc.remove_id(from_digits(&[77]))
    );
}

#[test]
fn duplicate_identifier_test() -> Result<(), StoreError> {
    let mut doc = Doc::new();
    let id = from_digits(&[1000]);
    doc.insert_id(id.clone(), b'q')?;
    let before = doc.collect_string();
    assert_eq!(
        Err(StoreError::DuplicateIdentifier),
        doc.insert_id(id, b'q')
    );
    assert_eq!(before, doc.collect_string());
    Ok(())
}

#[test]
fn remote_remove_idempotent_test() -> Result<(), StoreError> {
    let mut doc = Doc::new();
    let id = from_digits(&[1000]);
    doc.insert_id(id.clone(), b'q')?;
    doc.remove_id(id.clone())?;
    let once = doc.collect_string();
    // a redelivered remote delete succeeds again and changes nothing
    doc.remove_id(id)?;
    assert_eq!(once, doc.collect_string());
    assert_eq!("", once);
    Ok(())
}

#[test]
fn internal_violation_test() -> Result<(), StoreError> {
    let mut side = Side::new(5);
    let mut doc = Doc::new();
    // two identifiers with the same digit path, told apart only by their
    // authors, leave no free slot at any depth
    let a = vec![NodeKey { digit: 9, peer_id: 1, time: 0 }];
    let b = vec![NodeKey { digit: 9, peer_id: 2, time: 0 }];
    doc.insert_id(a, b'a')?;
    doc.insert_id(b, b'b')?;
    assert_eq!(
        Err(StoreError::InternalViolation),
        doc.insert_absolute(1, b'x', &mut side)
    );
    // the store is untouched and still usable elsewhere
    assert_eq!("ab", doc.collect_string());
    doc.insert_absolute(0, b'z', &mut side)?;
    assert_eq!("zab", doc.collect_string());
    Ok(())
}

#[test]
fn boundary_adjacency_test() -> Result<(), StoreError> {
    let mut side = Side::new(11);
    let mut doc = Doc::new();
    // hammering one offset must never exhaust the allocator
    let mut longest = 0;
    for _ in 0..200 {
        let id = doc.insert_absolute(0, b'x', &mut side)?;
        if id.len() > longest {
            longest = id.len();
        }
    }
    assert_eq!(200, doc.live_len());
    // with a boundary of 16, two hundred inserts cannot need more than a
    // few dozen levels
    assert!(longest <= 202);
    Ok(())
}

#[test]
fn with_boundary_test() -> Result<(), StoreError> {
    let mut side = Side::new(4);
    // a tight boundary still allocates correctly, just in smaller steps
    let mut doc = Doc::with_boundary(2);
    for i in 0..20u8 {
        doc.insert_absolute(i as usize, b'a' + (i % 26), &mut side)?;
    }
    assert_eq!(20, doc.live_len());
    Ok(())
}

#[test]
fn persistence_round_trip_test() -> Result<(), StoreError> {
    let mut side = Side::new(6);
    let mut doc = Doc::new();
    doc.insert_absolute(0, b'o', &mut side)?;
    doc.insert_absolute(1, b'k', &mut side)?;
    doc.insert_absolute(2, b'!', &mut side)?;
    doc.remove_absolute(2)?;
    let (entries, tombs) = doc.export_state();
    let loaded = Doc::load_state(entries, tombs)?;
    assert_eq!("ok", loaded.collect_string());
    // the tombstone survived the round trip: deleting it again is a no-op
    let tombstoned = doc.remove_absolute(5);
    assert_eq!(Err(StoreError::PositionOutOfRange), tombstoned);
    let mut loaded = loaded;
    // and the clone of the whole state behaves like the source
    let copy = doc.clone();
    assert_eq!(doc.collect_string(), copy.collect_string());
    loaded.insert_absolute(2, b'?', &mut side)?;
    assert_eq!("ok?", loaded.collect_string());
    Ok(())
}

#[test]
fn load_state_rejects_garbage_test() {
    // a blob without the sentinel frame is refused as a load failure
    assert_eq!(
        Err(StoreError::MalformedIdentifier),
        Doc::load_state(Vec::new(), Vec::new()).map(|_| ())
    );
    let entries = vec![
        (from_digits(&[5]), b'x'),
        (from_digits(&[4]), b'y'),
    ];
    assert_eq!(
        Err(StoreError::MalformedIdentifier),
        Doc::load_state(entries, Vec::new()).map(|_| ())
    );
}
