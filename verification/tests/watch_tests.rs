//! Watch registration, matching, firing, and teardown.

use xenstored::connection::ConnId;
use xenstored::path::Path;
use xenstored::store::{AppliedChange, ChangeSet, Permission, Store, Value, DOM0_DOMAIN_ID,
    PERM_NONE};
use xenstored::watch::{WPath, Watch, WatchList};

#[test]
fn basic_watch() {
    let mut watch_list = WatchList::new();
    let mut store = Store::new();
    let path = Path::try_from(DOM0_DOMAIN_ID, "/root/file/path").unwrap();
    let value = Value::from("value");

    watch_list
        .watch(
            ConnId::new(DOM0_DOMAIN_ID as usize, DOM0_DOMAIN_ID),
            WPath::Normal(path.clone()),
            String::from("token"),
        )
        .unwrap();

    let changes = store
        .write(&ChangeSet::new(&store), DOM0_DOMAIN_ID, path.clone(), value.clone())
        .unwrap();

    let applied = store.apply(changes);
    let watches = watch_list.fire(applied);

    assert_eq!(watches.len(), 1);
    assert_eq!(
        watches.contains(&Watch {
            conn: ConnId::new(DOM0_DOMAIN_ID as usize, DOM0_DOMAIN_ID),
            node: WPath::Normal(path.clone()),
            token: String::from("token"),
        }),
        true
    );
}

#[test]
fn basic_watch_no_permission() {
    let mut watch_list = WatchList::new();
    let mut store = Store::new();
    let path = Path::try_from(DOM0_DOMAIN_ID, "/root/file/path").unwrap();
    let value = Value::from("value");

    watch_list
        .watch(
            ConnId::new(DOM0_DOMAIN_ID as usize, DOM0_DOMAIN_ID),
            WPath::Normal(path.clone()),
            String::from("token"),
        )
        .unwrap();
    watch_list
        .watch(ConnId::new(1, 1), WPath::Normal(path.clone()), String::from("token"))
        .unwrap();

    let changes = store
        .write(&ChangeSet::new(&store), DOM0_DOMAIN_ID, path.clone(), value.clone())
        .unwrap();

    let applied = store.apply(changes);
    let watches = watch_list.fire(applied);

    assert_eq!(watches.len(), 1);
    assert_eq!(
        watches.contains(&Watch {
            conn: ConnId::new(DOM0_DOMAIN_ID as usize, DOM0_DOMAIN_ID),
            node: WPath::Normal(path.clone()),
            token: String::from("token"),
        }),
        true
    );
}

#[test]
fn basic_watch_with_permission() {
    let mut watch_list = WatchList::new();
    let mut store = Store::new();
    let path = Path::try_from(DOM0_DOMAIN_ID, "/root/file/path").unwrap();
    let value = Value::from("value");

    watch_list
        .watch(
            ConnId::new(DOM0_DOMAIN_ID as usize, DOM0_DOMAIN_ID),
            WPath::Normal(path.clone()),
            String::from("token"),
        )
        .unwrap();
    watch_list
        .watch(ConnId::new(1, 1), WPath::Normal(path.clone()), String::from("token"))
        .unwrap();

    let changes = store
        .write(&ChangeSet::new(&store), DOM0_DOMAIN_ID, path.clone(), value.clone())
        .unwrap();

    let changes = store
        .set_perms(
            &changes,
            DOM0_DOMAIN_ID,
            &path,
            vec![Permission { id: 1, perm: PERM_NONE }],
        )
        .unwrap();

    let applied = store.apply(changes);
    let watches = watch_list.fire(applied);

    assert_eq!(watches.len(), 2);
    assert_eq!(
        watches.contains(&Watch::new(
            ConnId::new(DOM0_DOMAIN_ID as usize, DOM0_DOMAIN_ID),
            WPath::Normal(path.clone()),
            String::from("token"),
        )),
        true
    );
    assert_eq!(
        watches.contains(&Watch::new(
            ConnId::new(1, 1),
            WPath::Normal(path.clone()),
            String::from("token"),
        )),
        true
    );
}

#[test]
fn basic_watch_parent() {
    let mut watch_list = WatchList::new();
    let mut store = Store::new();
    let path = Path::try_from(DOM0_DOMAIN_ID, "/root/file/path").unwrap();
    let value = Value::from("value");

    watch_list
        .watch(
            ConnId::new(DOM0_DOMAIN_ID as usize, DOM0_DOMAIN_ID),
            WPath::Normal(path.parent().unwrap()),
            String::from("token"),
        )
        .unwrap();

    let changes = store
        .write(&ChangeSet::new(&store), DOM0_DOMAIN_ID, path.clone(), value.clone())
        .unwrap();

    let applied = store.apply(changes);
    let watches = watch_list.fire(applied);

    // the parents were created alongside the leaf, so the parent
    // watch fires for the creation
    assert_eq!(watches.len(), 1);
    assert_eq!(
        watches.contains(&Watch {
            conn: ConnId::new(DOM0_DOMAIN_ID as usize, DOM0_DOMAIN_ID),
            node: WPath::Normal(path.parent().unwrap()),
            token: String::from("token"),
        }),
        true
    );

    let changes = store
        .write(&ChangeSet::new(&store), DOM0_DOMAIN_ID, path.clone(), Value::from("value 2"))
        .unwrap();

    let applied = store.apply(changes);
    let watches = watch_list.fire(applied);

    // overwriting the existing leaf touches nothing else
    assert_eq!(watches.len(), 0);
}

#[test]
fn basic_watch_remove() {
    let mut watch_list = WatchList::new();
    let mut store = Store::new();
    let path = Path::try_from(DOM0_DOMAIN_ID, "/root/file/path").unwrap();
    let value = Value::from("value");

    watch_list
        .watch(
            ConnId::new(DOM0_DOMAIN_ID as usize, DOM0_DOMAIN_ID),
            WPath::Normal(path.parent().unwrap()),
            String::from("token"),
        )
        .unwrap();
    watch_list
        .watch(
            ConnId::new(DOM0_DOMAIN_ID as usize, DOM0_DOMAIN_ID),
            WPath::Normal(path.clone()),
            String::from("token"),
        )
        .unwrap();

    let changes = store
        .write(&ChangeSet::new(&store), DOM0_DOMAIN_ID, path.clone(), value.clone())
        .unwrap();

    let applied = store.apply(changes);
    let watches = watch_list.fire(applied);

    assert_eq!(watches.len(), 2);
    assert_eq!(
        watches.contains(&Watch {
            conn: ConnId::new(DOM0_DOMAIN_ID as usize, DOM0_DOMAIN_ID),
            node: WPath::Normal(path.parent().unwrap()),
            token: String::from("token"),
        }),
        true
    );
    assert_eq!(
        watches.contains(&Watch {
            conn: ConnId::new(DOM0_DOMAIN_ID as usize, DOM0_DOMAIN_ID),
            node: WPath::Normal(path.clone()),
            token: String::from("token"),
        }),
        true
    );

    let changes = store.rm(&ChangeSet::new(&store), DOM0_DOMAIN_ID, &path).unwrap();

    let applied = store.apply(changes);
    let watches = watch_list.fire(applied);

    // the parent node is rewritten without the child, the child is
    // removed: only the parent watch fires
    assert_eq!(watches.len(), 1);
    assert_eq!(
        watches.contains(&Watch {
            conn: ConnId::new(DOM0_DOMAIN_ID as usize, DOM0_DOMAIN_ID),
            node: WPath::Normal(path.parent().unwrap()),
            token: String::from("token"),
        }),
        true
    );
}

#[test]
fn basic_watch_introduce_domain() {
    let mut watch_list = WatchList::new();

    watch_list
        .watch(
            ConnId::new(DOM0_DOMAIN_ID as usize, DOM0_DOMAIN_ID),
            WPath::IntroduceDomain,
            String::from("intro"),
        )
        .unwrap();
    watch_list
        .watch(
            ConnId::new(DOM0_DOMAIN_ID as usize, DOM0_DOMAIN_ID),
            WPath::ReleaseDomain,
            String::from("release"),
        )
        .unwrap();

    let watches = watch_list.fire_single(&AppliedChange::IntroduceDomain);

    assert_eq!(watches.len(), 1);
    assert_eq!(
        watches.contains(&Watch {
            conn: ConnId::new(DOM0_DOMAIN_ID as usize, DOM0_DOMAIN_ID),
            node: WPath::IntroduceDomain,
            token: String::from("intro"),
        }),
        true
    );
}

#[test]
fn basic_watch_release_domain() {
    let mut watch_list = WatchList::new();

    watch_list
        .watch(
            ConnId::new(DOM0_DOMAIN_ID as usize, DOM0_DOMAIN_ID),
            WPath::IntroduceDomain,
            String::from("intro"),
        )
        .unwrap();
    watch_list
        .watch(
            ConnId::new(DOM0_DOMAIN_ID as usize, DOM0_DOMAIN_ID),
            WPath::ReleaseDomain,
            String::from("release"),
        )
        .unwrap();

    let watches = watch_list.fire_single(&AppliedChange::ReleaseDomain);

    assert_eq!(watches.len(), 1);
    assert_eq!(
        watches.contains(&Watch {
            conn: ConnId::new(DOM0_DOMAIN_ID as usize, DOM0_DOMAIN_ID),
            node: WPath::ReleaseDomain,
            token: String::from("release"),
        }),
        true
    );
}

#[test]
fn basic_watch_reset() {
    let mut watch_list = WatchList::new();

    watch_list
        .watch(
            ConnId::new(DOM0_DOMAIN_ID as usize, DOM0_DOMAIN_ID),
            WPath::IntroduceDomain,
            String::from("intro"),
        )
        .unwrap();
    watch_list
        .watch(
            ConnId::new(DOM0_DOMAIN_ID as usize, DOM0_DOMAIN_ID),
            WPath::ReleaseDomain,
            String::from("release"),
        )
        .unwrap();
    watch_list
        .watch(ConnId::new(1, 1), WPath::ReleaseDomain, String::from("release"))
        .unwrap();

    watch_list.reset(ConnId::new(DOM0_DOMAIN_ID as usize, DOM0_DOMAIN_ID)).unwrap();

    assert_eq!(watch_list.watches.len(), 1);
    assert_eq!(
        watch_list.watches.contains(&Watch {
            conn: ConnId::new(1, 1),
            node: WPath::ReleaseDomain,
            token: String::from("release"),
        }),
        true
    );
}

#[test]
fn duplicate_watch_is_refused() {
    let mut watch_list = WatchList::new();
    let conn = ConnId::new(0, 0);
    let path = Path::try_from(0, "/a").unwrap();
    watch_list.watch(conn, WPath::Normal(path.clone()), String::from("t")).unwrap();
    match watch_list.watch(conn, WPath::Normal(path.clone()), String::from("t")) {
        Err(xenstored::error::Error::EEXIST(_)) => {}
        _ => panic!("a duplicate watch must be refused"),
    }
    // a different token is a different subscription
    watch_list.watch(conn, WPath::Normal(path.clone()), String::from("u")).unwrap();
}

#[test]
fn unwatch_unknown_is_refused() {
    let mut watch_list = WatchList::new();
    let conn = ConnId::new(0, 0);
    let path = Path::try_from(0, "/a").unwrap();
    match watch_list.unwatch(conn, WPath::Normal(path.clone()), String::from("t")) {
        Err(xenstored::error::Error::ENOENT(_)) => {}
        _ => panic!("removing an unknown watch must be refused"),
    }
    watch_list.watch(conn, WPath::Normal(path.clone()), String::from("t")).unwrap();
    watch_list.unwatch(conn, WPath::Normal(path), String::from("t")).unwrap();
}

#[test]
fn fire_never_repeats_a_triple() {
    // two records match the same watch in one batch: it fires once
    let mut watch_list = WatchList::new();
    let conn = ConnId::new(0, 0);
    let path = Path::try_from(0, "/a").unwrap();
    watch_list.watch(conn, WPath::Normal(path.clone()), String::from("t")).unwrap();

    let perms = vec![Permission { id: 0, perm: PERM_NONE }];
    let batch = vec![
        AppliedChange::Write(path.duplicate(), perms.clone()),
        AppliedChange::Write(path.duplicate(), perms),
    ];
    let fired = watch_list.fire(Some(batch));
    assert_eq!(fired.len(), 1);
}
