//! Transaction registry behaviour: snapshot isolation, ownership,
//! conflict detection, teardown.

use xenstored::connection::ConnId;
use xenstored::error::Error;
use xenstored::path::Path;
use xenstored::store::{ChangeSet, Store, Value, DOM0_DOMAIN_ID};
use xenstored::transaction::{TransactionList, TransactionStatus};

#[test]
fn transaction_changeset_can_be_retrieved() {
    let store = Store::new();
    let mut txns = TransactionList::new();

    let tx_id = txns.start(ConnId::new(0, DOM0_DOMAIN_ID), &store);
    assert_ne!(tx_id, 0);

    txns.get(ConnId::new(0, DOM0_DOMAIN_ID), tx_id).unwrap();
}

#[test]
fn transaction_changeset_can_be_stored() {
    let path = Path::try_from(DOM0_DOMAIN_ID, "/basic/path").unwrap();
    let value = Value::from("value");

    let store = Store::new();
    let mut txns = TransactionList::new();

    let tx_id = txns.start(ConnId::new(0, DOM0_DOMAIN_ID), &store);

    let changes = {
        let changes = txns.get(ConnId::new(0, DOM0_DOMAIN_ID), tx_id).unwrap();
        store.write(&changes, DOM0_DOMAIN_ID, path.clone(), value.clone()).unwrap()
    };

    txns.put(ConnId::new(0, DOM0_DOMAIN_ID), tx_id, changes).unwrap();

    let changes = txns.get(ConnId::new(0, DOM0_DOMAIN_ID), tx_id).unwrap();

    let v = store.read(&changes, DOM0_DOMAIN_ID, &path).unwrap();

    assert_eq!(v, value);
}

#[test]
fn transaction_ends_with_success() {
    let path = Path::try_from(DOM0_DOMAIN_ID, "/basic/path").unwrap();
    let value = Value::from("value");

    let mut store = Store::new();
    let mut txns = TransactionList::new();

    let tx_id = txns.start(ConnId::new(0, DOM0_DOMAIN_ID), &store);

    let changes = {
        let changes = txns.get(ConnId::new(0, DOM0_DOMAIN_ID), tx_id).unwrap();
        store.write(&changes, DOM0_DOMAIN_ID, path.clone(), value.clone()).unwrap()
    };

    txns.put(ConnId::new(0, DOM0_DOMAIN_ID), tx_id, changes).unwrap();

    txns.end(&mut store, ConnId::new(0, DOM0_DOMAIN_ID), tx_id, TransactionStatus::Success)
        .unwrap();

    let v = store.read(&ChangeSet::new(&store), DOM0_DOMAIN_ID, &path).unwrap();

    assert_eq!(v, value);
}

#[test]
fn transaction_ends_with_failure() {
    let path = Path::try_from(DOM0_DOMAIN_ID, "/basic/path").unwrap();
    let value = Value::from("value");

    let mut store = Store::new();
    let mut txns = TransactionList::new();

    let tx_id = txns.start(ConnId::new(0, DOM0_DOMAIN_ID), &store);

    let changes = {
        let changes = txns.get(ConnId::new(0, DOM0_DOMAIN_ID), tx_id).unwrap();
        store.write(&changes, DOM0_DOMAIN_ID, path.clone(), value.clone()).unwrap()
    };

    txns.put(ConnId::new(0, DOM0_DOMAIN_ID), tx_id, changes).unwrap();

    txns.end(&mut store, ConnId::new(0, DOM0_DOMAIN_ID), tx_id, TransactionStatus::Failure)
        .unwrap();

    match store.read(&ChangeSet::new(&store), DOM0_DOMAIN_ID, &path) {
        Err(Error::ENOENT(_)) => assert!(true, "the value was not in the store"),
        Ok(_) => assert!(false, "found the value in the store"),
        _ => assert!(false, "some other error was returned"),
    }
}

#[test]
fn transaction_ends_with_success_colliding() {
    let path = Path::try_from(DOM0_DOMAIN_ID, "/basic/path").unwrap();
    let value_external = Value::from("value external");
    let value = Value::from("value");

    let mut store = Store::new();
    let mut txns = TransactionList::new();

    let tx_id = txns.start(ConnId::new(0, DOM0_DOMAIN_ID), &store);

    // a racing root-transaction write bumps the generation
    let changes = store
        .write(&ChangeSet::new(&store), DOM0_DOMAIN_ID, path.clone(), value_external.clone())
        .unwrap();
    store.apply(changes).unwrap();

    let v = store.read(&ChangeSet::new(&store), DOM0_DOMAIN_ID, &path).unwrap();
    assert_eq!(v, value_external);

    let changes = {
        let changes = txns.get(ConnId::new(0, DOM0_DOMAIN_ID), tx_id).unwrap();
        store.write(&changes, DOM0_DOMAIN_ID, path.clone(), value.clone()).unwrap()
    };

    let v = store.read(&changes, DOM0_DOMAIN_ID, &path).unwrap();
    assert_eq!(v, value);

    txns.put(ConnId::new(0, DOM0_DOMAIN_ID), tx_id, changes).unwrap();

    // the snapshot is stale: the commit is refused with EAGAIN
    match txns.end(&mut store, ConnId::new(0, DOM0_DOMAIN_ID), tx_id, TransactionStatus::Success)
    {
        Err(Error::EAGAIN(_)) => {}
        other => panic!("a stale commit must fail with EAGAIN, got {:?}", other.is_ok()),
    }

    // and the store keeps the racing value
    let v = store.read(&ChangeSet::new(&store), DOM0_DOMAIN_ID, &path).unwrap();
    assert_eq!(v, value_external);
}

#[test]
fn transaction_must_match_dom_id() {
    let path = Path::try_from(DOM0_DOMAIN_ID, "/basic/path").unwrap();
    let value = Value::from("value");

    let mut store = Store::new();
    let mut txns = TransactionList::new();

    let tx_id = txns.start(ConnId::new(0, DOM0_DOMAIN_ID), &store);

    let changes = {
        match txns.get(ConnId::new(1, 1), tx_id) {
            Ok(_) => assert!(false),
            Err(_) => assert!(true),
        };

        let changes = txns.get(ConnId::new(0, DOM0_DOMAIN_ID), tx_id).unwrap();
        store.write(&changes, DOM0_DOMAIN_ID, path.clone(), value.clone()).unwrap()
    };

    match txns.put(ConnId::new(1, 1), tx_id, changes.clone()) {
        Ok(_) => assert!(false),
        Err(_) => assert!(true),
    };

    txns.put(ConnId::new(0, DOM0_DOMAIN_ID), tx_id, changes).unwrap();

    match txns.end(&mut store, ConnId::new(1, 1), tx_id, TransactionStatus::Success) {
        Ok(_) => assert!(false),
        Err(_) => assert!(true),
    };

    txns.end(&mut store, ConnId::new(0, DOM0_DOMAIN_ID), tx_id, TransactionStatus::Success)
        .unwrap();

    let v = store.read(&ChangeSet::new(&store), DOM0_DOMAIN_ID, &path).unwrap();

    assert_eq!(v, value);
}

#[test]
fn transaction_reset_transactions() {
    let store = Store::new();
    let mut txns = TransactionList::new();

    let tx_id_dom0_1 = txns.start(ConnId::new(0, DOM0_DOMAIN_ID), &store);
    let tx_id_dom0_2 = txns.start(ConnId::new(0, DOM0_DOMAIN_ID), &store);
    let tx_id_dom1_1 = txns.start(ConnId::new(1, 1), &store);
    let tx_id_dom1_2 = txns.start(ConnId::new(1, 1), &store);

    txns.reset(ConnId::new(0, DOM0_DOMAIN_ID));

    match txns.get(ConnId::new(0, DOM0_DOMAIN_ID), tx_id_dom0_1) {
        Ok(_) => assert!(false),
        Err(_) => assert!(true),
    }
    match txns.get(ConnId::new(0, DOM0_DOMAIN_ID), tx_id_dom0_2) {
        Ok(_) => assert!(false),
        Err(_) => assert!(true),
    }

    txns.get(ConnId::new(1, 1), tx_id_dom1_1).unwrap();
    txns.get(ConnId::new(1, 1), tx_id_dom1_2).unwrap();
}

#[test]
fn start_never_allocates_the_root_id() {
    let store = Store::new();
    let mut txns = TransactionList::new();
    for _ in 0..64 {
        let tx_id = txns.start(ConnId::new(0, DOM0_DOMAIN_ID), &store);
        assert_ne!(tx_id, 0);
    }
}

#[test]
fn transaction_sees_its_snapshot() {
    // within the transaction view, a write is visible before commit
    let store = Store::new();
    let mut txns = TransactionList::new();
    let conn = ConnId::new(0, DOM0_DOMAIN_ID);
    let path = Path::try_from(DOM0_DOMAIN_ID, "/t/x").unwrap();

    let tx_id = txns.start(conn, &store);
    let cs = txns.get(conn, tx_id).unwrap();
    let cs2 = store.write(cs, DOM0_DOMAIN_ID, path.clone(), Value::from("v")).unwrap();
    assert_eq!(store.read(&cs2, DOM0_DOMAIN_ID, &path).unwrap(), "v");
    txns.put(conn, tx_id, cs2).unwrap();

    // the store itself does not see it yet
    match store.read(&ChangeSet::new(&store), DOM0_DOMAIN_ID, &path) {
        Err(Error::ENOENT(_)) => {}
        _ => panic!("an uncommitted write must stay private"),
    }
}
