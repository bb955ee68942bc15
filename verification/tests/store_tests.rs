//! Store behaviour: writes, reads, directories, removal, permissions.

use xenstored::error::Error;
use xenstored::path::Path;
use xenstored::store::{
    Basename, ChangeSet, Permission, Store, Value, DOM0_DOMAIN_ID, PERM_NONE, PERM_READ,
};

#[test]
fn basic_read() {
    let store = Store::new();
    let path = Path::try_from(DOM0_DOMAIN_ID, "/basic").unwrap();
    let value = Value::from("value");

    let changes = store
        .write(&ChangeSet::new(&store), DOM0_DOMAIN_ID, path.clone(), value.clone())
        .unwrap();

    let read = store.read(&changes, DOM0_DOMAIN_ID, &path).unwrap();

    assert_eq!(read, value);
}

#[test]
fn basic_applied_write_and_read() {
    let mut store = Store::new();
    let path = Path::try_from(DOM0_DOMAIN_ID, "/basic").unwrap();
    let value = Value::from("value");

    let changes = store
        .write(&ChangeSet::new(&store), DOM0_DOMAIN_ID, path.clone(), value.clone())
        .unwrap();

    store.apply(changes).unwrap();
    assert_eq!(store.generation(), 1);

    let read = store.read(&ChangeSet::new(&store), DOM0_DOMAIN_ID, &path).unwrap();

    assert_eq!(read, value);
}

#[test]
fn recursive_write() {
    let store = Store::new();
    let path = Path::try_from(DOM0_DOMAIN_ID, "/basic/path").unwrap();
    let parent = path.parent().unwrap();
    let value = Value::from("value");

    let changes = store
        .write(&ChangeSet::new(&store), DOM0_DOMAIN_ID, path.clone(), value.clone())
        .unwrap();

    let read = store.read(&changes, DOM0_DOMAIN_ID, &path).unwrap();

    assert_eq!(read, value);

    let read_parent = store.read(&changes, DOM0_DOMAIN_ID, &parent).unwrap();

    assert_eq!(read_parent, "");
}

#[test]
fn basic_mkdir() {
    let store = Store::new();
    let path = Path::try_from(DOM0_DOMAIN_ID, "/basic").unwrap();

    let changes = store.mkdir(&ChangeSet::new(&store), DOM0_DOMAIN_ID, path.clone()).unwrap();

    // verify the path was created
    let read = store.read(&changes, DOM0_DOMAIN_ID, &path).unwrap();
    assert_eq!(read, "");
}

#[test]
fn recursive_mkdir() {
    let store = Store::new();
    let path = Path::try_from(DOM0_DOMAIN_ID, "/basic/path").unwrap();
    let parent = path.parent().unwrap();

    let changes = store.mkdir(&ChangeSet::new(&store), DOM0_DOMAIN_ID, path.clone()).unwrap();

    // verify the parent directory was created
    let read = store.read(&changes, DOM0_DOMAIN_ID, &parent).unwrap();
    assert_eq!(read, "");

    // verify the path was created
    let read = store.read(&changes, DOM0_DOMAIN_ID, &path).unwrap();
    assert_eq!(read, "");
}

#[test]
fn basic_directory() {
    let store = Store::new();
    let path1 = Path::try_from(DOM0_DOMAIN_ID, "/basic/path1").unwrap();
    let path2 = Path::try_from(DOM0_DOMAIN_ID, "/basic/path2").unwrap();
    let parent = path1.parent().unwrap();

    let mut changes = store.mkdir(&ChangeSet::new(&store), DOM0_DOMAIN_ID, path1.clone()).unwrap();
    changes = store.mkdir(&changes, DOM0_DOMAIN_ID, path2.clone()).unwrap();

    // grab a list of all subdirectories
    let subdirs = store.directory(&changes, DOM0_DOMAIN_ID, &parent).unwrap();
    assert_eq!(subdirs, vec![Basename::from("path1"), Basename::from("path2")]);
}

#[test]
fn store_rm_deletes_all_directories() {
    let store = Store::new();

    let path1 = Path::try_from(DOM0_DOMAIN_ID, "/basic/path1").unwrap();
    let path2 = Path::try_from(DOM0_DOMAIN_ID, "/basic/path2").unwrap();
    let basic = path1.parent().unwrap();
    let mut changes = store.mkdir(&ChangeSet::new(&store), DOM0_DOMAIN_ID, path1.clone()).unwrap();
    changes = store.mkdir(&changes, DOM0_DOMAIN_ID, path2.clone()).unwrap();

    changes = store.rm(&changes, DOM0_DOMAIN_ID, &basic).unwrap();

    // verify the parent directory was removed
    match store.read(&changes, DOM0_DOMAIN_ID, &basic) {
        Err(Error::ENOENT(_)) => assert!(true),
        Err(ref e) => assert!(false, "unexpected error returned {:?}", e),
        Ok(_) => assert!(false, "failed to remove {:?}", basic),
    }

    // verify the path1 directory was removed
    match store.read(&changes, DOM0_DOMAIN_ID, &path1) {
        Err(Error::ENOENT(_)) => assert!(true),
        Err(ref e) => assert!(false, "unexpected error returned {:?}", e),
        Ok(_) => assert!(false, "failed to remove {:?}", basic),
    }

    // verify the path2 directory was removed
    match store.read(&changes, DOM0_DOMAIN_ID, &path2) {
        Err(Error::ENOENT(_)) => assert!(true),
        Err(ref e) => assert!(false, "unexpected error returned {:?}", e),
        Ok(_) => assert!(false, "failed to remove {:?}", basic),
    }

    // verify the root still exists
    let read = store
        .read(&changes, DOM0_DOMAIN_ID, &Path::try_from(DOM0_DOMAIN_ID, "/").unwrap())
        .unwrap();
    assert_eq!(read, "");
}

#[test]
fn store_rm_cannot_delete_root() {
    let store = Store::new();

    let path1 = Path::try_from(DOM0_DOMAIN_ID, "/basic/path1").unwrap();

    let changes = store.mkdir(&ChangeSet::new(&store), DOM0_DOMAIN_ID, path1.clone()).unwrap();

    let rslt = store.rm(&changes, DOM0_DOMAIN_ID, &Path::try_from(DOM0_DOMAIN_ID, "/").unwrap());

    match rslt {
        Ok(_) => assert!(false, "removed the root directory"),
        Err(Error::EINVAL(_)) => assert!(true, "it is invalid to try and remove /"),
        Err(_) => assert!(false, "unknown error"),
    }
}

#[test]
fn store_rm_removes_from_parent() {
    let store = Store::new();

    let path1 = Path::try_from(DOM0_DOMAIN_ID, "/basic/path1").unwrap();
    let path2 = Path::try_from(DOM0_DOMAIN_ID, "/basic/path2").unwrap();
    let basic = path1.parent().unwrap();

    let mut changes = store.mkdir(&ChangeSet::new(&store), DOM0_DOMAIN_ID, path1.clone()).unwrap();
    changes = store.mkdir(&changes, DOM0_DOMAIN_ID, path2.clone()).unwrap();

    changes = store.rm(&changes, DOM0_DOMAIN_ID, &path1).unwrap();

    // verify the path1 directory was removed
    match store.read(&changes, DOM0_DOMAIN_ID, &path1) {
        Err(Error::ENOENT(_)) => assert!(true),
        Err(ref e) => assert!(false, "unexpected error returned {:?}", e),
        Ok(_) => assert!(false, "failed to remove {:?}", basic),
    }

    let subdirs = store.directory(&changes, DOM0_DOMAIN_ID, &basic).unwrap();
    assert_eq!(subdirs, vec![String::from("path2")]);
}

#[test]
fn store_get_root_permissions() {
    let store = Store::new();
    let permissions = store
        .get_perms(
            &ChangeSet::new(&store),
            DOM0_DOMAIN_ID,
            &Path::try_from(DOM0_DOMAIN_ID, "/").unwrap(),
        )
        .unwrap();

    assert_eq!(permissions, vec![Permission { id: DOM0_DOMAIN_ID, perm: PERM_NONE }]);
}

#[test]
fn store_get_local_permissions() {
    let store = Store::new();

    let mut changes = store
        .mkdir(
            &ChangeSet::new(&store),
            DOM0_DOMAIN_ID,
            Path::try_from(DOM0_DOMAIN_ID, "/local/domain/1").unwrap(),
        )
        .unwrap();

    changes = store
        .set_perms(
            &changes,
            DOM0_DOMAIN_ID,
            &Path::try_from(DOM0_DOMAIN_ID, "/local/domain/1").unwrap(),
            vec![Permission { id: 1, perm: PERM_NONE }],
        )
        .unwrap();

    let path = Path::try_from(1, "foo").unwrap();
    let value = Value::from("value");
    store.write(&changes, 1, path.clone(), value.clone()).unwrap();
}

#[test]
fn store_permissions_idempotent() {
    let store = Store::new();
    let path = Path::try_from(DOM0_DOMAIN_ID, "/local/domain/1").unwrap();

    let mut changes = store.mkdir(&ChangeSet::new(&store), DOM0_DOMAIN_ID, path.clone()).unwrap();

    let perms = vec![
        Permission { id: 1, perm: PERM_NONE },
        Permission { id: 2, perm: PERM_READ },
    ];

    changes = store.set_perms(&changes, DOM0_DOMAIN_ID, &path, perms.clone()).unwrap();

    let read = store.get_perms(&changes, DOM0_DOMAIN_ID, &path).unwrap();

    assert_eq!(perms, read);
}

#[test]
fn store_permissions_inherit() {
    let store = Store::new();
    let path = Path::try_from(DOM0_DOMAIN_ID, "/local/domain/1").unwrap();

    let mut changes = store.mkdir(&ChangeSet::new(&store), DOM0_DOMAIN_ID, path.clone()).unwrap();

    let perms = vec![
        Permission { id: 1, perm: PERM_NONE },
        Permission { id: 2, perm: PERM_READ },
    ];

    changes = store.set_perms(&changes, DOM0_DOMAIN_ID, &path, perms.clone()).unwrap();

    let path = path.push("foo");
    changes = store.write(&changes, 1, path.clone(), Value::from("bar")).unwrap();

    let read = store.get_perms(&changes, 1, &path).unwrap();

    assert_eq!(perms, read);
}

#[test]
fn store_permissions_inherit_no_overwrite_owner() {
    let store = Store::new();
    let path = Path::try_from(DOM0_DOMAIN_ID, "/local/domain/1").unwrap();

    let mut changes = store.mkdir(&ChangeSet::new(&store), DOM0_DOMAIN_ID, path.clone()).unwrap();

    let perms = vec![
        Permission { id: 1, perm: PERM_NONE },
        Permission { id: 2, perm: PERM_READ },
    ];

    changes = store.set_perms(&changes, DOM0_DOMAIN_ID, &path, perms.clone()).unwrap();

    let path = path.push("foo");
    changes = store.write(&changes, DOM0_DOMAIN_ID, path.clone(), Value::from("bar")).unwrap();

    let read = store.get_perms(&changes, 1, &path).unwrap();

    assert_eq!(perms, read);
}

#[test]
fn store_block_cross_domain_reads() {
    let store = Store::new();

    let mut changes = store
        .mkdir(
            &ChangeSet::new(&store),
            DOM0_DOMAIN_ID,
            Path::try_from(DOM0_DOMAIN_ID, "/local/domain/1").unwrap(),
        )
        .unwrap();

    changes = store
        .set_perms(
            &changes,
            DOM0_DOMAIN_ID,
            &Path::try_from(DOM0_DOMAIN_ID, "/local/domain/1").unwrap(),
            vec![Permission { id: 1, perm: PERM_NONE }],
        )
        .unwrap();

    let path = Path::try_from(1, "foo").unwrap();
    let value = Value::from("value");
    changes = store.write(&changes, 1, path.clone(), value.clone()).unwrap();

    // Check the domain 2 is blocked
    let v = store.read(&changes, 2, &path);
    match v {
        Ok(_) => assert!(false, "allowed cross-domain read"),
        Err(Error::EACCES(..)) => assert!(true, "blocked cross-domain read"),
        Err(_) => assert!(false, "unknown error"),
    }

    // Check the Dom0 is still allowed
    let read = store.read(&changes, DOM0_DOMAIN_ID, &path).unwrap();
    assert_eq!(read, value);
}

#[test]
fn store_block_cross_domain_writes() {
    let store = Store::new();

    let mut changes = store
        .mkdir(
            &ChangeSet::new(&store),
            DOM0_DOMAIN_ID,
            Path::try_from(DOM0_DOMAIN_ID, "/local/domain/1").unwrap(),
        )
        .unwrap();

    changes = store
        .set_perms(
            &changes,
            DOM0_DOMAIN_ID,
            &Path::try_from(DOM0_DOMAIN_ID, "/local/domain/1").unwrap(),
            vec![Permission { id: 1, perm: PERM_NONE }],
        )
        .unwrap();

    let path = Path::try_from(1, "foo").unwrap();
    let value = Value::from("value");
    changes = store.write(&changes, 1, path.clone(), value.clone()).unwrap();

    // Check the domain 2 is blocked
    let v = store.write(&changes, 2, path.clone(), Value::from("new value"));
    match v {
        Ok(_) => assert!(false, "allowed cross-domain write"),
        Err(Error::EACCES(..)) => assert!(true, "blocked cross-domain write"),
        Err(_) => assert!(false, "unknown error"),
    }

    // Check the Dom0 is still allowed
    changes = store
        .write(&changes, DOM0_DOMAIN_ID, path.clone(), Value::from("new value"))
        .unwrap();

    let read = store.read(&changes, 1, &path).unwrap();
    assert_eq!(read, Value::from("new value"));
}

#[test]
fn store_block_cross_domain_rm() {
    let store = Store::new();

    let mut changes = store
        .mkdir(
            &ChangeSet::new(&store),
            DOM0_DOMAIN_ID,
            Path::try_from(DOM0_DOMAIN_ID, "/local/domain/1").unwrap(),
        )
        .unwrap();

    changes = store
        .set_perms(
            &changes,
            DOM0_DOMAIN_ID,
            &Path::try_from(DOM0_DOMAIN_ID, "/local/domain/1").unwrap(),
            vec![Permission { id: 1, perm: PERM_NONE }],
        )
        .unwrap();

    let path = Path::try_from(1, "foo").unwrap();
    let value = Value::from("value");
    changes = store.write(&changes, 1, path.clone(), value.clone()).unwrap();

    // Check the domain 2 is blocked
    let v = store.rm(&changes, 2, &path);
    match v {
        Ok(_) => assert!(false, "allowed cross-domain rm"),
        Err(Error::EACCES(..)) => assert!(true, "blocked cross-domain rm"),
        Err(_) => assert!(false, "unknown error"),
    }

    // Check the Dom0 is still allowed
    store.rm(&changes, DOM0_DOMAIN_ID, &path).unwrap();
}

#[test]
fn block_cross_domain_directory() {
    let store = Store::new();
    let domain = Path::try_from(DOM0_DOMAIN_ID, "/local/domain/1").unwrap();

    let mut changes = store.mkdir(&ChangeSet::new(&store), DOM0_DOMAIN_ID, domain.clone()).unwrap();

    changes = store
        .set_perms(
            &changes,
            DOM0_DOMAIN_ID,
            &domain,
            vec![Permission { id: 1, perm: PERM_NONE }],
        )
        .unwrap();

    let path = Path::try_from(1, "foo").unwrap();
    let value = Value::from("value");
    changes = store.write(&changes, 1, path.clone(), value.clone()).unwrap();

    // Check the domain 2 is blocked
    let v = store.directory(&changes, 2, &domain);
    match v {
        Ok(_) => assert!(false, "allowed cross-domain subdir"),
        Err(Error::EACCES(..)) => assert!(true, "blocked cross-domain subdir"),
        Err(_) => assert!(false, "unknown error"),
    }

    // Check the Dom0 is still allowed
    store.directory(&changes, DOM0_DOMAIN_ID, &domain).unwrap();
}

#[test]
fn apply_conflict_is_refused() {
    // a change set parented at an older generation cannot apply
    let mut store = Store::new();
    let stale = ChangeSet::new(&store);
    let path = Path::try_from(DOM0_DOMAIN_ID, "/a").unwrap();

    let racing = store
        .write(&ChangeSet::new(&store), DOM0_DOMAIN_ID, path.clone(), Value::from("v"))
        .unwrap();
    assert!(store.apply(racing).is_some());
    assert_eq!(store.generation(), 1);

    let stale_write = store
        .write(&stale, DOM0_DOMAIN_ID, path.clone(), Value::from("w"))
        .unwrap();
    assert!(store.apply(stale_write).is_none());
    assert_eq!(store.generation(), 1);
}

#[test]
fn generation_strictly_increases() {
    let mut store = Store::new();
    let path = Path::try_from(DOM0_DOMAIN_ID, "/g").unwrap();
    for i in 0..5u64 {
        assert_eq!(store.generation(), i);
        let cs = store
            .write(&ChangeSet::new(&store), DOM0_DOMAIN_ID, path.clone(), format!("v{}", i))
            .unwrap();
        assert!(store.apply(cs).is_some());
        assert_eq!(store.generation(), i + 1);
    }
}

#[test]
fn mkdir_twice_changes_nothing() {
    let store = Store::new();
    let path = Path::try_from(DOM0_DOMAIN_ID, "/twice").unwrap();

    let once = store.mkdir(&ChangeSet::new(&store), DOM0_DOMAIN_ID, path.clone()).unwrap();
    let twice = store.mkdir(&once, DOM0_DOMAIN_ID, path.clone()).unwrap();

    assert_eq!(store.read(&once, DOM0_DOMAIN_ID, &path).unwrap(), "");
    assert_eq!(store.read(&twice, DOM0_DOMAIN_ID, &path).unwrap(), "");
    let root = Path::try_from(DOM0_DOMAIN_ID, "/").unwrap();
    assert_eq!(
        store.directory(&once, DOM0_DOMAIN_ID, &root).unwrap(),
        store.directory(&twice, DOM0_DOMAIN_ID, &root).unwrap()
    );
}
