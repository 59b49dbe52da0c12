use std::collections::HashSet;

use bip::dht::transaction::{AIDGenerator, TransactionID, ACTION_ID_PREALLOC_LEN, MESSAGE_ID_PREALLOC_LEN};

#[test]
fn positive_tid_from_bytes() {
    let mut aid_generator = AIDGenerator::new();
    let mut mid_generator = aid_generator.generate();

    let tid = mid_generator.generate();
    let tid_from_bytes = TransactionID::from_bytes(tid.as_ref()).unwrap();

    assert_eq!(tid, tid_from_bytes);
}

#[test]
fn positive_unique_aid_blocks() {
    let mut action_ids = HashSet::new();
    let mut aid_generator = AIDGenerator::new();

    for _ in 0..(ACTION_ID_PREALLOC_LEN * 10) {
        let action_id = aid_generator.generate().action_id();

        assert!(!action_ids.contains(&action_id));

        action_ids.insert(action_id);
    }
}

#[test]
fn positive_unique_mid_blocks() {
    let mut message_ids = HashSet::new();
    let mut aid_generator = AIDGenerator::new();
    let mut mid_generator = aid_generator.generate();

    for _ in 0..(MESSAGE_ID_PREALLOC_LEN * 10) {
        let message_id = mid_generator.generate().message_id();

        assert!(!message_ids.contains(&message_id));

        message_ids.insert(message_id);
    }
}

#[test]
fn positive_unique_tid_blocks() {
    let mut transaction_ids = HashSet::new();
    let mut aid_generator = AIDGenerator::new();

    for _ in 0..(ACTION_ID_PREALLOC_LEN) {
        let mut mid_generator = aid_generator.generate();

        for _ in 0..(MESSAGE_ID_PREALLOC_LEN) {
            let transaction_id = mid_generator.generate();

            assert!(!transaction_ids.contains(&transaction_id));

            transaction_ids.insert(transaction_id);
        }
    }
}

#[test]
fn positive_overflow_aid_generate() {
    let mut action_ids = HashSet::new();
    let mut aid_generator = AIDGenerator::new();

    for _ in 0..(ACTION_ID_PREALLOC_LEN) {
        let action_id = aid_generator.generate().action_id();

        assert!(!action_ids.contains(&action_id));

        action_ids.insert(action_id);
    }

    // Use up the id space so that the next ids come from the first block again
    aid_generator.exhaust();

    for _ in 0..(ACTION_ID_PREALLOC_LEN) {
        let action_id = aid_generator.generate().action_id();

        assert!(action_ids.remove(&action_id));
    }

    assert!(action_ids.is_empty());
}

#[test]
fn positive_overflow_mid_generate() {
    let mut message_ids = HashSet::new();
    let mut aid_generator = AIDGenerator::new();
    let mut mid_generator = aid_generator.generate();

    for _ in 0..(MESSAGE_ID_PREALLOC_LEN) {
        let message_id = mid_generator.generate().message_id();

        assert!(!message_ids.contains(&message_id));

        message_ids.insert(message_id);
    }

    mid_generator.exhaust();

    for _ in 0..(MESSAGE_ID_PREALLOC_LEN) {
        let message_id = mid_generator.generate().message_id();

        assert!(message_ids.remove(&message_id));
    }

    assert!(message_ids.is_empty());
}

#[test]
fn positive_overflow_tid_generate() {
    let mut transaction_ids = HashSet::new();
    let mut aid_generator = AIDGenerator::new();

    for _ in 0..(ACTION_ID_PREALLOC_LEN) {
        let mut mid_generator = aid_generator.generate();

        for _ in 0..(MESSAGE_ID_PREALLOC_LEN) {
            let transaction_id = mid_generator.generate();

            assert!(!transaction_ids.contains(&transaction_id));

            transaction_ids.insert(transaction_id);
        }
    }

    aid_generator.exhaust();

    for _ in 0..(ACTION_ID_PREALLOC_LEN) {
        let mut mid_generator = aid_generator.generate();

        for _ in 0..(MESSAGE_ID_PREALLOC_LEN) {
            let transaction_id = mid_generator.generate();

            assert!(transaction_ids.remove(&transaction_id));
        }
    }

    assert!(transaction_ids.is_empty());
}

#[test]
fn transaction_id_bytes_are_big_endian() {
    let tid = TransactionID::from_bytes(&[0, 0, 0, 0, 1, 0, 0, 2]).unwrap();
    assert_eq!(tid.as_ref(), &[0, 0, 0, 0, 1, 0, 0, 2]);
    assert_eq!(tid.action_id(), TransactionID::from_bytes(&[0, 0, 0, 0, 1, 0, 0, 7]).unwrap().action_id());
    assert_ne!(tid.message_id(), TransactionID::from_bytes(&[0, 0, 0, 0, 1, 0, 0, 7]).unwrap().message_id());
}

#[test]
fn transaction_id_wrong_length_is_refused() {
    assert!(TransactionID::from_bytes(&[0, 0, 0, 0, 1, 0, 0]).is_none());
    assert!(TransactionID::from_bytes(&[0, 0, 0, 0, 1, 0, 0, 2, 3]).is_none());
}

#[test]
fn message_ids_of_one_action_share_it() {
    let mut aid_generator = AIDGenerator::new();
    let mut mid_generator = aid_generator.generate();
    let action = mid_generator.action_id();
    for _ in 0..100 {
        assert_eq!(mid_generator.generate().action_id(), action);
    }
}

#[test]
fn id_parts_follow_the_bytes() {
    let a = TransactionID::from_bytes(&[0, 0, 0, 0, 1, 0, 0, 2]).unwrap();
    let b = TransactionID::from_bytes(&[0, 0, 0, 0, 1, 255, 255, 255]).unwrap();
    let c = TransactionID::from_bytes(&[0, 0, 0, 0, 2, 0, 0, 2]).unwrap();
    assert_eq!(a.action_id(), b.action_id());
    assert_ne!(a.action_id(), c.action_id());
    assert_eq!(a.message_id(), c.message_id());
    assert_ne!(a.message_id(), b.message_id());
}
