//! The owning aggregate of the three shared collections. Dispatch
//! takes one exclusive borrow of it per request: reads resolve the
//! overlay of the addressed transaction, mutations either apply at
//! once (root transaction) and fire watches, or are stashed back
//! under their transaction id.

use vstd::prelude::*;
use vstd::string::StringExecFns;
use crate::connection::ConnId;
use crate::error::Error;
use crate::path::Path;
use crate::path::PathView;
use crate::store::{
    applied_of, eff_lookup, find_node, rm_ok, rm_updated, spec_perms_ok, write_ok, write_updated,
    AppliedChange, Basename, ChangeSet, ChangeView, Permission, Store, Value, PERM_READ,
    PERM_WRITE,
};
use crate::transaction::{find_tx, Transaction, TransactionList, TransactionStatus,
    ROOT_TRANSACTION};
use crate::watch::{spec_any_match, spec_watch_matches, WPath, Watch, WatchList, WatchView};
use crate::wire::{DomainId, TxId};

verus! {

/// The store, the watch set, and the transaction registry, owned
/// together so one borrow covers a whole request.
pub struct System {
    pub store: Store,
    pub watches: WatchList,
    pub txns: TransactionList,
}

impl System {
    /// All three collections are well-formed.
    pub open spec fn inv(&self) -> bool {
        &&& self.store.inv()
        &&& self.watches.inv()
        &&& self.txns.inv()
        &&& self.txns.txs().len() + 1 < u32::MAX
    }

    /// Assembles the aggregate.
    pub fn new(store: Store, watches: WatchList, txns: TransactionList) -> (r: System)
        requires
            store.inv(),
            watches.inv(),
            txns.inv(),
            txns.txs().len() + 1 < u32::MAX,
        ensures
            r.inv(),
            r.store == store,
            r.watches == watches,
            r.txns == txns,
    {
        System { store, watches, txns }
    }

    /// The recorded mutations a request under `tx_id` sees: none for
    /// the root transaction, the stashed ones for an open transaction
    /// the connection owns, nothing otherwise.
    pub open spec fn view_changes(&self, conn: ConnId, tx_id: TxId) -> Option<Seq<ChangeView>> {
        if tx_id == ROOT_TRANSACTION {
            Some(Seq::<ChangeView>::empty())
        } else {
            match find_tx(self.txns.txs(), tx_id) {
                Some(t) => if t.conn == conn {
                    Some(t.changes.changes())
                } else {
                    None
                },
                None => None,
            }
        }
    }

    /// What a committed root-transaction mutation did: the store now
    /// shows the overlay `c2`, the generation moved up by one, and
    /// the events are exactly the subscriptions matching the applied
    /// records, each at most once.
    pub open spec fn committed(
        pre: System,
        post: System,
        evs: Seq<WatchView>,
        c2: Seq<ChangeView>,
    ) -> bool {
        &&& (forall|q: PathView|
            #[trigger] find_node(post.store.nodes(), q) == eff_lookup(pre.store.nodes(), c2, q))
        &&& post.store.gen() == pre.store.gen() + 1
        &&& post.watches == pre.watches
        &&& post.txns == pre.txns
        &&& (forall|w: WatchView|
            #[trigger] evs.contains(w) <==> (pre.watches.view_list().contains(w)
                && spec_any_match(w, c2.map_values(|c: ChangeView| applied_of(c)))))
    }

    /// What a mutation under a named transaction did: nothing at all
    /// to the store and the watch set, except that the new overlay
    /// now sits under the transaction's id.
    pub open spec fn stashed(
        pre: System,
        post: System,
        conn: ConnId,
        tx_id: TxId,
        c2: Seq<ChangeView>,
    ) -> bool {
        &&& post.store == pre.store
        &&& post.watches == pre.watches
        &&& post.view_changes(conn, tx_id) == Some(c2)
        &&& (forall|id: TxId|
            id != tx_id ==> #[trigger] find_tx(post.txns.txs(), id) == find_tx(
                pre.txns.txs(),
                id,
            ))
    }

    /// Where a successful mutation's overlay went: applied at once on
    /// the root transaction — except at the generation counter's
    /// ceiling, where nothing applies and nothing fires — or stashed
    /// under its transaction id, deferred until the transaction ends.
    pub open spec fn settled(
        pre: System,
        post: System,
        conn: ConnId,
        tx_id: TxId,
        evs: Seq<WatchView>,
        c2: Seq<ChangeView>,
    ) -> bool {
        if tx_id == ROOT_TRANSACTION {
            if pre.store.gen() < u64::MAX {
                System::committed(pre, post, evs, c2)
            } else {
                &&& post.store.nodes() == pre.store.nodes()
                &&& post.store.gen() == pre.store.gen()
                &&& post.watches == pre.watches
                &&& post.txns == pre.txns
                &&& evs.len() == 0
            }
        } else {
            System::stashed(pre, post, conn, tx_id, c2) && evs.len() == 0
        }
    }

    /// The overlay a read under `tx_id` sees: fresh for the root
    /// transaction, the stashed one for an open transaction the
    /// connection owns, `ENOENT` otherwise.
    fn resolve(&self, conn: ConnId, tx_id: TxId) -> (r: Result<ChangeSet, Error>)
        requires
            self.inv(),
        ensures
            r is Ok <==> self.view_changes(conn, tx_id) is Some,
            r matches Ok(cs) ==> (cs.inv() && cs.changes() == self.view_changes(
                conn,
                tx_id,
            )->Some_0),
            tx_id == ROOT_TRANSACTION ==> (r matches Ok(cs) ==> cs.parent_gen()
                == self.store.gen()),
            r matches Err(e) ==> e is ENOENT,
    {
        if tx_id == ROOT_TRANSACTION {
            Ok(ChangeSet::new(&self.store))
        } else {
            match self.txns.get(conn, tx_id) {
                Ok(cs) => {
                    proof {
                        crate::transaction::lemma_find_tx_present(self.txns.txs(), tx_id);
                        let t = crate::transaction::find_tx(self.txns.txs(), tx_id)->Some_0;
                        let i = choose|i: int|
                            0 <= i < self.txns.txs().len() && #[trigger] self.txns.txs()[i] == t;
                        assert(self.txns.txs()[i].changes.inv());
                    }
                    Ok(cs.duplicate())
                }
                Err(e) => Err(e),
            }
        }
    }

    /// Stashes a mutated overlay, or applies it at once for the root
    /// transaction and reports which watches fire.
    fn settle(&mut self, conn: ConnId, tx_id: TxId, changes: ChangeSet) -> (r: Result<
        Vec<Watch>,
        Error,
    >)
        requires
            old(self).inv(),
            changes.inv(),
            tx_id == ROOT_TRANSACTION ==> changes.parent_gen() == old(self).store.gen(),
        ensures
            final(self).inv(),
            r is Ok <==> (tx_id == ROOT_TRANSACTION || (find_tx(old(self).txns.txs(), tx_id)
                matches Some(t) && t.conn == conn)),
            r matches Ok(evs) ==> System::settled(
                *old(self),
                *final(self),
                conn,
                tx_id,
                evs.deep_view(),
                changes.changes(),
            ),
            r matches Err(e) ==> (e is ENOENT && final(self).store == old(self).store && final(
                self).watches == old(self).watches && final(self).txns.txs() == old(
                self).txns.txs()),
    {
        let ghost c2 = changes.changes();
        if tx_id == ROOT_TRANSACTION {
            let applied = self.store.apply(changes);
            proof {
                if applied is Some {
                    assert(applied->Some_0.deep_view() =~= c2.map_values(
                        |c: ChangeView| applied_of(c),
                    ));
                }
            }
            let fired = self.watches.fire(applied);
            proof {
                if applied is None {
                    assert(fired.deep_view().len() == 0) by {
                        if fired.deep_view().len() > 0 {
                            assert(fired.deep_view().contains(fired.deep_view()[0]));
                        }
                    }
                }
            }
            Ok(fired)
        } else {
            match self.txns.put(conn, tx_id, changes) {
                Ok(()) => {
                    let evs: Vec<Watch> = Vec::new();
                    proof {
                        assert(evs.deep_view().len() == 0);
                        assert(find_tx(self.txns.txs(), tx_id)->Some_0.changes.changes() == c2);
                        assert(self.view_changes(conn, tx_id) == Some(c2));
                    }
                    Ok(evs)
                }
                Err(e) => Err(e),
            }
        }
    }

    /// Reads the value at `path` under `tx_id`: the value the
    /// addressed overlay shows, when it shows a node there that the
    /// connection's domain may read.
    pub fn read(&self, conn: ConnId, tx_id: TxId, path: &Path) -> (r: Result<Value, Error>)
        requires
            self.inv(),
        ensures
            (match self.view_changes(conn, tx_id) {
                None => r matches Err(e) && e is ENOENT,
                Some(cv) => {
                    &&& (r is Ok <==> (eff_lookup(self.store.nodes(), cv, path@) matches Some(n)
                        && spec_perms_ok(conn.dom_id, n.permissions, PERM_READ)))
                    &&& (r matches Ok(v) ==> v@ == eff_lookup(
                        self.store.nodes(),
                        cv,
                        path@,
                    )->Some_0.value)
                    &&& (r matches Err(e) ==> (match eff_lookup(self.store.nodes(), cv, path@) {
                        Some(n) => e is EACCES && !spec_perms_ok(
                            conn.dom_id,
                            n.permissions,
                            PERM_READ,
                        ),
                        None => e is ENOENT,
                    }))
                },
            }),
    {
        let cs = match self.resolve(conn, tx_id) {
            Ok(cs) => cs,
            Err(e) => {
                return Err(e);
            }
        };
        self.store.read(&cs, conn.dom_id, path)
    }

    /// Lists the children of `path` under `tx_id`, in their stored
    /// lexicographic order.
    pub fn directory(&self, conn: ConnId, tx_id: TxId, path: &Path) -> (r: Result<
        Vec<Basename>,
        Error,
    >)
        requires
            self.inv(),
        ensures
            (match self.view_changes(conn, tx_id) {
                None => r matches Err(e) && e is ENOENT,
                Some(cv) => {
                    &&& (r is Ok <==> (eff_lookup(self.store.nodes(), cv, path@) matches Some(n)
                        && spec_perms_ok(conn.dom_id, n.permissions, PERM_READ)))
                    &&& (r matches Ok(v) ==> v.deep_view() == eff_lookup(
                        self.store.nodes(),
                        cv,
                        path@,
                    )->Some_0.children)
                    &&& (r matches Err(e) ==> (match eff_lookup(self.store.nodes(), cv, path@) {
                        Some(n) => e is EACCES && !spec_perms_ok(
                            conn.dom_id,
                            n.permissions,
                            PERM_READ,
                        ),
                        None => e is ENOENT,
                    }))
                },
            }),
    {
        let cs = match self.resolve(conn, tx_id) {
            Ok(cs) => cs,
            Err(e) => {
                return Err(e);
            }
        };
        self.store.directory(&cs, conn.dom_id, path)
    }

    /// The permission list of `path` under `tx_id`.
    pub fn get_perms(&self, conn: ConnId, tx_id: TxId, path: &Path) -> (r: Result<
        Vec<Permission>,
        Error,
    >)
        requires
            self.inv(),
        ensures
            (match self.view_changes(conn, tx_id) {
                None => r matches Err(e) && e is ENOENT,
                Some(cv) => {
                    &&& (r is Ok <==> (eff_lookup(self.store.nodes(), cv, path@) matches Some(n)
                        && spec_perms_ok(conn.dom_id, n.permissions, PERM_READ)))
                    &&& (r matches Ok(v) ==> v@ == eff_lookup(
                        self.store.nodes(),
                        cv,
                        path@,
                    )->Some_0.permissions)
                    &&& (r matches Err(e) ==> (match eff_lookup(self.store.nodes(), cv, path@) {
                        Some(n) => e is EACCES && !spec_perms_ok(
                            conn.dom_id,
                            n.permissions,
                            PERM_READ,
                        ),
                        None => e is ENOENT,
                    }))
                },
            }),
    {
        let cs = match self.resolve(conn, tx_id) {
            Ok(cs) => cs,
            Err(e) => {
                return Err(e);
            }
        };
        self.store.get_perms(&cs, conn.dom_id, path)
    }

    /// Writes `value` at `path` under `tx_id`; on the root
    /// transaction the change applies at once and the fired watches
    /// come back.
    pub fn write(&mut self, conn: ConnId, tx_id: TxId, path: Path, value: Value) -> (r: Result<
        Vec<Watch>,
        Error,
    >)
        requires
            old(self).inv(),
            crate::path::path_wf(path@),
        ensures
            final(self).inv(),
            r is Ok <==> (old(self).view_changes(conn, tx_id) matches Some(cv) && write_ok(
                old(self).store.nodes(),
                cv,
                conn.dom_id,
                path@,
            )),
            r matches Err(e) ==> (*final(self) == *old(self) && (match old(self).view_changes(
                conn,
                tx_id,
            ) {
                None => e is ENOENT,
                Some(_) => e is EACCES,
            })),
            r matches Ok(evs) ==> exists|c2: Seq<ChangeView>|
                {
                    &&& #[trigger] write_updated(
                        old(self).store.nodes(),
                        old(self).view_changes(conn, tx_id)->Some_0,
                        c2,
                        conn.dom_id,
                        path@,
                        value@,
                    )
                    &&& System::settled(*old(self), *final(self), conn, tx_id, evs.deep_view(), c2)
                },
    {
        let cs = match self.resolve(conn, tx_id) {
            Ok(cs) => cs,
            Err(e) => {
                return Err(e);
            }
        };
        let cs2 = match self.store.write(&cs, conn.dom_id, path, value) {
            Ok(cs2) => cs2,
            Err(e) => {
                return Err(e);
            }
        };
        let ghost c2 = cs2.changes();
        let out = self.settle(conn, tx_id, cs2);
        proof {
            if out is Ok {
                assert(write_updated(
                    old(self).store.nodes(),
                    old(self).view_changes(conn, tx_id)->Some_0,
                    c2,
                    conn.dom_id,
                    path@,
                    value@,
                ) && System::settled(
                    *old(self),
                    *self,
                    conn,
                    tx_id,
                    out->Ok_0.deep_view(),
                    c2,
                ));
            }
        }
        out
    }

    /// Creates the directory at `path` under `tx_id`.
    pub fn mkdir(&mut self, conn: ConnId, tx_id: TxId, path: Path) -> (r: Result<Vec<Watch>, Error>)
        requires
            old(self).inv(),
            crate::path::path_wf(path@),
        ensures
            final(self).inv(),
            r is Ok <==> (old(self).view_changes(conn, tx_id) matches Some(cv) && write_ok(
                old(self).store.nodes(),
                cv,
                conn.dom_id,
                path@,
            )),
            r matches Err(e) ==> (*final(self) == *old(self) && (match old(self).view_changes(
                conn,
                tx_id,
            ) {
                None => e is ENOENT,
                Some(_) => e is EACCES,
            })),
            r matches Ok(evs) ==> exists|c2: Seq<ChangeView>|
                {
                    &&& #[trigger] System::settled(
                        *old(self),
                        *final(self),
                        conn,
                        tx_id,
                        evs.deep_view(),
                        c2,
                    )
                    &&& (match eff_lookup(
                        old(self).store.nodes(),
                        old(self).view_changes(conn, tx_id)->Some_0,
                        path@,
                    ) {
                        Some(_) => c2 == old(self).view_changes(conn, tx_id)->Some_0,
                        None => write_updated(
                            old(self).store.nodes(),
                            old(self).view_changes(conn, tx_id)->Some_0,
                            c2,
                            conn.dom_id,
                            path@,
                            Seq::<char>::empty(),
                        ),
                    })
                },
    {
        let cs = match self.resolve(conn, tx_id) {
            Ok(cs) => cs,
            Err(e) => {
                return Err(e);
            }
        };
        let cs2 = match self.store.mkdir(&cs, conn.dom_id, path) {
            Ok(cs2) => cs2,
            Err(e) => {
                return Err(e);
            }
        };
        let ghost c2 = cs2.changes();
        let out = self.settle(conn, tx_id, cs2);
        proof {
            if out is Ok {
                assert(System::settled(*old(self), *self, conn, tx_id, out->Ok_0.deep_view(), c2));
            }
        }
        out
    }

    /// Removes the subtree at `path` under `tx_id`.
    pub fn rm(&mut self, conn: ConnId, tx_id: TxId, path: &Path) -> (r: Result<Vec<Watch>, Error>)
        requires
            old(self).inv(),
            crate::path::path_wf(path@),
        ensures
            final(self).inv(),
            r is Ok <==> (old(self).view_changes(conn, tx_id) matches Some(cv) && rm_ok(
                old(self).store.nodes(),
                cv,
                conn.dom_id,
                path@,
            )),
            r matches Err(e) ==> (*final(self) == *old(self) && (match old(self).view_changes(
                conn,
                tx_id,
            ) {
                None => e is ENOENT,
                Some(cv) => (if path@.len() == 0 {
                    e is EINVAL
                } else {
                    match eff_lookup(old(self).store.nodes(), cv, path@.drop_last()) {
                        None => e is ENOENT,
                        Some(par) => {
                            if !spec_perms_ok(conn.dom_id, par.permissions, PERM_WRITE) {
                                e is EACCES
                            } else {
                                match eff_lookup(old(self).store.nodes(), cv, path@) {
                                    None => e is ENOENT,
                                    Some(_) => e is EACCES,
                                }
                            }
                        },
                    }
                }),
            })),
            r matches Ok(evs) ==> exists|c2: Seq<ChangeView>|
                {
                    &&& #[trigger] rm_updated(
                        old(self).store.nodes(),
                        old(self).view_changes(conn, tx_id)->Some_0,
                        c2,
                        path@,
                    )
                    &&& System::settled(*old(self), *final(self), conn, tx_id, evs.deep_view(), c2)
                },
    {
        let cs = match self.resolve(conn, tx_id) {
            Ok(cs) => cs,
            Err(e) => {
                return Err(e);
            }
        };
        let cs2 = match self.store.rm(&cs, conn.dom_id, path) {
            Ok(cs2) => cs2,
            Err(e) => {
                return Err(e);
            }
        };
        let ghost c2 = cs2.changes();
        let out = self.settle(conn, tx_id, cs2);
        proof {
            if out is Ok {
                assert(rm_updated(
                    old(self).store.nodes(),
                    old(self).view_changes(conn, tx_id)->Some_0,
                    c2,
                    path@,
                ) && System::settled(*old(self), *self, conn, tx_id, out->Ok_0.deep_view(), c2));
            }
        }
        out
    }

    /// Replaces the permission list at `path` under `tx_id`.
    pub fn set_perms(
        &mut self,
        conn: ConnId,
        tx_id: TxId,
        path: &Path,
        permissions: Vec<Permission>,
    ) -> (r: Result<Vec<Watch>, Error>)
        requires
            old(self).inv(),
            crate::path::path_wf(path@),
            permissions@.len() > 0,
        ensures
            final(self).inv(),
            r is Ok <==> (old(self).view_changes(conn, tx_id) matches Some(cv) && (eff_lookup(
                old(self).store.nodes(),
                cv,
                path@,
            ) matches Some(n) && spec_perms_ok(conn.dom_id, n.permissions, PERM_WRITE))),
            r matches Err(e) ==> (*final(self) == *old(self) && (match old(self).view_changes(
                conn,
                tx_id,
            ) {
                None => e is ENOENT,
                Some(cv) => (match eff_lookup(old(self).store.nodes(), cv, path@) {
                    None => e is ENOENT,
                    Some(n) => e is EACCES && !spec_perms_ok(
                        conn.dom_id,
                        n.permissions,
                        PERM_WRITE,
                    ),
                }),
            })),
            r matches Ok(evs) ==> exists|c2: Seq<ChangeView>|
                {
                    &&& (forall|q: PathView|
                        q != path@ ==> #[trigger] eff_lookup(old(self).store.nodes(), c2, q)
                            == eff_lookup(
                            old(self).store.nodes(),
                            old(self).view_changes(conn, tx_id)->Some_0,
                            q,
                        ))
                    &&& eff_lookup(old(self).store.nodes(), c2, path@) == Some(
                        crate::store::NodeView {
                            permissions: permissions@,
                            ..eff_lookup(
                                old(self).store.nodes(),
                                old(self).view_changes(conn, tx_id)->Some_0,
                                path@,
                            )->Some_0
                        },
                    )
                    &&& System::settled(*old(self), *final(self), conn, tx_id, evs.deep_view(), c2)
                },
    {
        let cs = match self.resolve(conn, tx_id) {
            Ok(cs) => cs,
            Err(e) => {
                return Err(e);
            }
        };
        let cs2 = match self.store.set_perms(&cs, conn.dom_id, path, permissions) {
            Ok(cs2) => cs2,
            Err(e) => {
                return Err(e);
            }
        };
        let ghost c2 = cs2.changes();
        let out = self.settle(conn, tx_id, cs2);
        proof {
            if out is Ok {
                assert((forall|q: PathView|
                    q != path@ ==> #[trigger] eff_lookup(old(self).store.nodes(), c2, q)
                        == eff_lookup(
                        old(self).store.nodes(),
                        old(self).view_changes(conn, tx_id)->Some_0,
                        q,
                    )) && System::settled(
                    *old(self),
                    *self,
                    conn,
                    tx_id,
                    out->Ok_0.deep_view(),
                    c2,
                ));
            }
        }
        out
    }

    /// Registers a watch for `conn`; an identical triple may be
    /// registered only once, a second try fails with `EEXIST`.
    pub fn watch(&mut self, conn: ConnId, node: WPath, token: String) -> (r: Result<(), Error>)
        requires
            old(self).inv(),
        ensures
            final(self).inv(),
            final(self).store == old(self).store,
            final(self).txns == old(self).txns,
            r is Ok <==> !old(self).watches.view_list().contains(
                WatchView { conn, node: node@, token: token@ },
            ),
            r is Ok ==> final(self).watches.view_list() == old(self).watches.view_list().push(
                WatchView { conn, node: node@, token: token@ },
            ),
            r matches Err(e) ==> (e is EEXIST && final(self).watches.view_list() == old(self).watches.view_list()),
    {
        self.watches.watch(conn, node, token)
    }

    /// Drops a watch of `conn`; `ENOENT` when the exact triple was
    /// never registered.
    pub fn unwatch(&mut self, conn: ConnId, node: WPath, token: String) -> (r: Result<(), Error>)
        requires
            old(self).inv(),
        ensures
            final(self).inv(),
            final(self).store == old(self).store,
            final(self).txns == old(self).txns,
            r is Ok <==> old(self).watches.view_list().contains(
                WatchView { conn, node: node@, token: token@ },
            ),
            r is Ok ==> (forall|w: WatchView|
                #![trigger final(self).watches.view_list().contains(w)]
                final(self).watches.view_list().contains(w) <==> (old(self).watches.view_list().contains(w) && w != (WatchView {
                    conn,
                    node: node@,
                    token: token@,
                }))),
            r matches Err(e) ==> (e is ENOENT && final(self).watches.view_list() == old(self).watches.view_list()),
    {
        self.watches.unwatch(conn, node, token)
    }

    /// Opens a transaction for `conn` over the current generation;
    /// the returned id is never zero. `ENOSPC` above the registry cap.
    pub fn transaction_start(&mut self, conn: ConnId) -> (r: Result<TxId, Error>)
        requires
            old(self).inv(),
        ensures
            final(self).inv(),
            r is Ok <==> old(self).txns.txs().len() < 0x1000_0000,
            r matches Err(e) ==> (e is ENOSPC && *final(self) == *old(self)),
            r matches Ok(id) ==> {
                &&& id != ROOT_TRANSACTION
                &&& find_tx(old(self).txns.txs(), id) is None
                &&& final(self).store == old(self).store
                &&& final(self).watches == old(self).watches
                &&& final(self).txns.txs().len() == old(self).txns.txs().len() + 1
                &&& (find_tx(final(self).txns.txs(), id) matches Some(t) && t.conn == conn
                    && t.changes.parent_gen() == old(self).store.gen() && t.changes.changes()
                    == Seq::<ChangeView>::empty())
                &&& final(self).view_changes(conn, id) == Some(Seq::<ChangeView>::empty())
                &&& (forall|other: TxId|
                    other != id ==> #[trigger] find_tx(final(self).txns.txs(), other) == find_tx(
                        old(self).txns.txs(),
                        other,
                    ))
            },
    {
        if self.txns.count() >= 0x1000_0000 {
            return Err(Error::ENOSPC(String::from_str("too many open transactions")));
        }
        Ok(self.txns.start(conn, &self.store))
    }

    /// Ends a transaction: a commit applies its change set — or
    /// fails with `EAGAIN` after a racing commit — and an abort
    /// drops it. The fired watches come back on a commit.
    pub fn transaction_end(&mut self, conn: ConnId, tx_id: TxId, success: bool) -> (r: Result<
        Vec<Watch>,
        Error,
    >)
        requires
            old(self).inv(),
        ensures
            final(self).inv(),
            final(self).watches == old(self).watches,
            (r matches Err(e) && e is ENOENT) <==> !(tx_id != ROOT_TRANSACTION && (find_tx(
                old(self).txns.txs(),
                tx_id,
            ) matches Some(t) && t.conn == conn)),
            r matches Err(e) ==> (e is ENOENT || e is EAGAIN),
            r matches Err(e) ==> (final(self).store.nodes() == old(self).store.nodes() && final(self).store.gen() == old(self).store.gen()),
            (r matches Err(e) && e is ENOENT) ==> final(self).txns.txs() == old(self).txns.txs(),
            (r is Ok || (r matches Err(e) && e is EAGAIN)) ==> (forall|id: TxId|
                #![trigger find_tx(final(self).txns.txs(), id)]
                find_tx(final(self).txns.txs(), id) == (if id == tx_id {
                    None::<Transaction>
                } else {
                    find_tx(old(self).txns.txs(), id)
                })),
            r matches Ok(evs) ==> {
                let t = find_tx(old(self).txns.txs(), tx_id)->Some_0;
                if success {
                    &&& t.changes.parent_gen() == old(self).store.gen()
                    &&& old(self).store.gen() < u64::MAX
                    &&& final(self).store.gen() == old(self).store.gen() + 1
                    &&& (forall|q: PathView|
                        #[trigger] find_node(final(self).store.nodes(), q) == eff_lookup(
                            old(self).store.nodes(),
                            t.changes.changes(),
                            q,
                        ))
                    &&& (forall|w: WatchView|
                        #[trigger] evs.deep_view().contains(w) <==> (old(self).watches.view_list().contains(w) && spec_any_match(
                            w,
                            t.changes.changes().map_values(|c: ChangeView| applied_of(c)),
                        )))
                } else {
                    &&& final(self).store.nodes() == old(self).store.nodes()
                    &&& final(self).store.gen() == old(self).store.gen()
                    &&& evs.deep_view().len() == 0
                }
            },
            (r matches Err(e) && e is EAGAIN) ==> (success && !(find_tx(
                old(self).txns.txs(),
                tx_id,
            )->Some_0.changes.parent_gen() == old(self).store.gen() && old(self).store.gen()
                < u64::MAX)),
    {
        if tx_id == ROOT_TRANSACTION {
            return Err(Error::ENOENT(String::from_str("the root transaction never ends")));
        }
        let status = if success {
            TransactionStatus::Success
        } else {
            TransactionStatus::Failure
        };
        match self.txns.end(&mut self.store, conn, tx_id, status) {
            Ok(applied) => {
                proof {
                    if applied is Some {
                        let t = find_tx(old(self).txns.txs(), tx_id)->Some_0;
                        assert(applied->Some_0.deep_view() =~= t.changes.changes().map_values(
                            |c: ChangeView| applied_of(c),
                        ));
                    }
                }
                let fired = self.watches.fire(applied);
                proof {
                    if applied is None {
                        assert(fired.deep_view().len() == 0) by {
                            if fired.deep_view().len() > 0 {
                                assert(fired.deep_view().contains(fired.deep_view()[0]));
                            }
                        }
                    }
                }
                Ok(fired)
            }
            Err(e) => Err(e),
        }
    }

    /// Fires the sentinel watches for a domain pseudo-event: exactly
    /// the matching subscriptions, each at most once.
    pub fn fire_single(&self, change: &AppliedChange) -> (r: Vec<Watch>)
        requires
            self.inv(),
        ensures
            forall|i: int, j: int|
                0 <= i < j < r.deep_view().len() ==> (#[trigger] r.deep_view()[i]) != (
                #[trigger] r.deep_view()[j]),
            forall|w: WatchView|
                #![trigger r.deep_view().contains(w)]
                r.deep_view().contains(w) <==> (self.watches.view_list().contains(w)
                    && spec_watch_matches(w, change@)),
    {
        self.watches.fire_single(change)
    }

    /// Tears a connection down: exactly its watches and its
    /// transactions are removed; the store is untouched.
    pub fn connection_closed(&mut self, conn: ConnId)
        requires
            old(self).inv(),
        ensures
            final(self).inv(),
            final(self).store == old(self).store,
            forall|w: WatchView|
                #![trigger final(self).watches.view_list().contains(w)]
                final(self).watches.view_list().contains(w) <==> (old(self).watches.view_list().contains(w) && w.conn != conn),
            forall|id: TxId|
                #![trigger find_tx(final(self).txns.txs(), id)]
                find_tx(final(self).txns.txs(), id) == (match find_tx(old(self).txns.txs(), id) {
                    Some(t) => if t.conn == conn {
                        None::<Transaction>
                    } else {
                        Some(t)
                    },
                    None => None::<Transaction>,
                }),
    {
        let _ = self.watches.reset(conn);
        self.txns.reset(conn);
    }
}

} // verus!
