//! The transaction registry: each open transaction pairs the
//! connection that owns it with its private change set. Ids are drawn
//! at random, never zero (zero names the implicit root transaction),
//! and never reused while live; a commit applies the change set and
//! fails with `EAGAIN` when the store moved on since it was taken.

use vstd::prelude::*;
use vstd::set_lib::{lemma_len_subset, lemma_int_range, set_int_range};
use vstd::string::StringExecFns;
use crate::connection::ConnId;
use crate::error::Error;
use crate::store::{AppliedChange, ChangeSet, Store};
use crate::wire::TxId;

verus! {

/// The reserved id of the implicit root transaction.
pub const ROOT_TRANSACTION: TxId = 0;

/// One open transaction: its id, its owning connection, and the
/// change set it accumulates.
pub struct Transaction {
    pub tx_id: TxId,
    pub conn: ConnId,
    pub changes: ChangeSet,
}

/// Whether a transaction completes by committing or by aborting.
#[derive(Debug)]
pub enum TransactionStatus {
    /// Commit the transaction's changes.
    Success,
    /// Discard the transaction's changes.
    Failure,
}

/// Keeping exactly the transactions another connection owns.
pub open spec fn keeps(conn: ConnId) -> spec_fn(Transaction) -> bool {
    |t: Transaction| t.conn != conn
}

/// The first transaction with id `tx_id`, if any.
pub open spec fn find_tx(txs: Seq<Transaction>, tx_id: TxId) -> Option<Transaction>
    decreases txs.len(),
{
    if txs.len() == 0 {
        None
    } else if txs[0].tx_id == tx_id {
        Some(txs[0])
    } else {
        find_tx(txs.drop_first(), tx_id)
    }
}

/// A found transaction is in the registry under the sought id.
pub proof fn lemma_find_tx_present(txs: Seq<Transaction>, tx_id: TxId)
    ensures
        find_tx(txs, tx_id) is Some <==> exists|i: int|
            0 <= i < txs.len() && (#[trigger] txs[i]).tx_id == tx_id,
        find_tx(txs, tx_id) matches Some(t) ==> t.tx_id == tx_id && exists|i: int|
            0 <= i < txs.len() && #[trigger] txs[i] == t,
    decreases txs.len(),
{
    if txs.len() > 0 {
        if txs[0].tx_id == tx_id {
        } else {
            lemma_find_tx_present(txs.drop_first(), tx_id);
            if find_tx(txs.drop_first(), tx_id) is Some {
                let i = choose|i: int|
                    0 <= i < txs.drop_first().len() && (#[trigger] txs.drop_first()[i]).tx_id
                        == tx_id;
                assert(txs[i + 1].tx_id == tx_id);
                let t = find_tx(txs.drop_first(), tx_id)->Some_0;
                let j = choose|j: int|
                    0 <= j < txs.drop_first().len() && #[trigger] txs.drop_first()[j] == t;
                assert(txs[j + 1] == t);
            }
            if exists|i: int| 0 <= i < txs.len() && (#[trigger] txs[i]).tx_id == tx_id {
                let i = choose|i: int| 0 <= i < txs.len() && (#[trigger] txs[i]).tx_id == tx_id;
                assert(txs.drop_first()[i - 1].tx_id == tx_id);
            }
        }
    }
}

/// Relies on `rand::random`: a uniformly drawn 32-bit value.
/// Nothing is promised of the result.
#[verifier::external_body]
fn random_u32() -> u32 {
    rand::random::<u32>()
}

/// The registry of open transactions.
pub struct TransactionList {
    list: Vec<Transaction>,
}

impl TransactionList {
    /// The open transactions, in the order they were started.
    pub closed spec fn txs(&self) -> Seq<Transaction> {
        self.list@
    }

    /// Ids are distinct and never zero, and each change set is
    /// structurally well-formed.
    pub open spec fn inv(&self) -> bool {
        &&& forall|i: int, j: int|
            0 <= i < j < self.txs().len() ==> (#[trigger] self.txs()[i]).tx_id != (
            #[trigger] self.txs()[j]).tx_id
        &&& forall|i: int|
            0 <= i < self.txs().len() ==> ((#[trigger] self.txs()[i]).tx_id != ROOT_TRANSACTION
                && self.txs()[i].changes.inv())
    }

    /// How many transactions are open.
    pub fn count(&self) -> (r: usize)
        ensures
            r == self.txs().len(),
    {
        self.list.len()
    }

    /// An empty registry.
    pub fn new() -> (r: TransactionList)
        ensures
            r.inv(),
            r.txs() == Seq::<Transaction>::empty(),
    {
        let r = TransactionList { list: Vec::new() };
        proof {
            assert(r.txs() =~= Seq::<Transaction>::empty());
        }
        r
    }

    /// The index of the transaction with `tx_id`, if any.
    fn position(&self, tx_id: TxId) -> (r: Option<usize>)
        ensures
            r matches Some(i) ==> (i < self.txs().len() && self.txs()[i as int].tx_id == tx_id
                && find_tx(self.txs(), tx_id) == Some(self.txs()[i as int])),
            r is None ==> find_tx(self.txs(), tx_id) is None,
    {
        let ghost txs = self.txs();
        let mut i: usize = 0;
        let n = self.list.len();
        proof {
            assert(txs.skip(0) =~= txs);
        }
        while i < n
            invariant
                i <= n,
                n == txs.len(),
                txs == self.txs(),
                find_tx(txs, tx_id) == find_tx(txs.skip(i as int), tx_id),
            decreases n - i,
        {
            proof {
                assert(txs.skip(i as int).drop_first() =~= txs.skip(i + 1));
                assert(txs.skip(i as int)[0] == txs[i as int]);
            }
            if self.list[i].tx_id == tx_id {
                return Some(i);
            }
            i = i + 1;
        }
        None
    }

    /// Draws a fresh non-zero transaction id: random draws are
    /// retried on collision, and a bounded linear probe stands in
    /// when randomness keeps colliding.
    fn generate_txid(&self) -> (r: TxId)
        requires
            self.txs().len() + 1 < u32::MAX,
            self.inv(),
        ensures
            r != ROOT_TRANSACTION,
            find_tx(self.txs(), r) is None,
    {
        let ghost txs = self.txs();
        let mut tries: usize = 0;
        while tries < 32
            invariant
                txs == self.txs(),
            decreases 32 - tries,
        {
            let id = random_u32();
            if id != ROOT_TRANSACTION {
                if self.position(id).is_none() {
                    return id;
                }
            }
            tries = tries + 1;
        }
        // the random draws kept colliding: probe candidates in order;
        // more candidates than open transactions guarantees a free one
        let n = self.list.len();
        let mut c: u32 = 1;
        let ghost mut matched: Set<int> = Set::empty();
        proof {
            assert(matched.len() == 0) by {
                assert(matched =~= Set::<int>::empty());
            }
        }
        while c <= (n as u32) + 1
            invariant
                txs == self.txs(),
                self.inv(),
                n == txs.len(),
                n as int + 1 < u32::MAX,
                1 <= c <= n + 2,
                matched.finite(),
                matched.len() == c - 1,
                forall|i: int|
                    #[trigger] matched.contains(i) ==> (0 <= i < n && 1 <= txs[i].tx_id < c),
            decreases n + 2 - c,
        {
            match self.position(c) {
                None => {
                    return c;
                }
                Some(idx) => {
                    proof {
                        lemma_find_tx_present(txs, c);
                        assert(!matched.contains(idx as int));
                        matched = matched.insert(idx as int);
                        if c == (n as u32) + 1 {
                            let range = set_int_range(0, n as int);
                            lemma_int_range(0, n as int);
                            assert(matched.subset_of(range));
                            lemma_len_subset(matched, range);
                            assert(false);
                        }
                    }
                    c = c + 1;
                }
            }
        }
        proof {
            let range = set_int_range(0, n as int);
            lemma_int_range(0, n as int);
            assert(matched.subset_of(range));
            lemma_len_subset(matched, range);
            assert(false);
        }
        1
    }

    /// Opens a transaction for `conn` over the store's current
    /// generation and returns its id, which is never zero.
    pub fn start(&mut self, conn: ConnId, store: &Store) -> (r: TxId)
        requires
            old(self).inv(),
            old(self).txs().len() + 1 < u32::MAX,
        ensures
            final(self).inv(),
            r != ROOT_TRANSACTION,
            find_tx(old(self).txs(), r) is None,
            final(self).txs() == old(self).txs().push(
                Transaction { tx_id: r, conn, changes: final(self).txs().last().changes },
            ),
            final(self).txs().last().changes.parent_gen() == store.gen(),
            final(self).txs().last().changes.changes() == Seq::<crate::store::ChangeView>::empty(),
            forall|id: TxId|
                #![trigger find_tx(final(self).txs(), id)]
                find_tx(final(self).txs(), id) == (if id == r {
                    Some(final(self).txs().last())
                } else {
                    find_tx(old(self).txs(), id)
                }),
    {
        let next_id = self.generate_txid();
        let changes = ChangeSet::new(store);
        let ghost before = self.txs();
        proof {
            lemma_find_tx_present(before, next_id);
        }
        let tx = Transaction { tx_id: next_id, conn, changes };
        self.list.push(tx);
        proof {
            let t = self.txs().last();
            assert(self.txs() =~= before.push(t));
            assert forall|id: TxId|
                #![trigger find_tx(self.txs(), id)]
                find_tx(self.txs(), id) == (if id == next_id {
                Some(t)
            } else {
                find_tx(before, id)
            }) by {
                lemma_find_tx_push(before, t, id);
            }
            assert forall|i: int, j: int| 0 <= i < j < self.txs().len() implies (
            #[trigger] self.txs()[i]).tx_id != (#[trigger] self.txs()[j]).tx_id by {
                if j < before.len() {
                    assert(before[i].tx_id != before[j].tx_id);
                } else {
                    lemma_find_tx_present(before, before[i].tx_id);
                }
            }
        }
        next_id
    }

    /// A borrow of the change set of `tx_id`, for its owner alone;
    /// an unknown id and a foreign one fail the same way, `ENOENT`.
    pub fn get(&self, conn: ConnId, tx_id: TxId) -> (r: Result<&ChangeSet, Error>)
        ensures
            r is Ok <==> (find_tx(self.txs(), tx_id) matches Some(t) && t.conn == conn),
            r matches Ok(cs) ==> *cs == find_tx(self.txs(), tx_id)->Some_0.changes,
            r matches Err(e) ==> e is ENOENT,
    {
        match self.position(tx_id) {
            Some(i) => {
                if self.list[i].conn.token == conn.token && self.list[i].conn.dom_id
                    == conn.dom_id {
                    proof {
                        assert(self.list@[i as int].conn == conn);
                    }
                    Ok(&self.list[i].changes)
                } else {
                    Err(Error::ENOENT(String::from_str("no such transaction for this connection")))
                }
            }
            None => Err(Error::ENOENT(String::from_str("no such transaction"))),
        }
    }

    /// Stores `changes` back into the transaction, for its owner
    /// alone; the same `ENOENT` hides unknown and foreign ids.
    pub fn put(&mut self, conn: ConnId, tx_id: TxId, changes: ChangeSet) -> (r: Result<(), Error>)
        requires
            old(self).inv(),
            changes.inv(),
        ensures
            final(self).inv(),
            r is Ok <==> (find_tx(old(self).txs(), tx_id) matches Some(t) && t.conn == conn),
            r matches Err(e) ==> (e is ENOENT && final(self).txs() == old(self).txs()),
            r is Ok ==> (final(self).txs().len() == old(self).txs().len() && (forall|id: TxId|
                #![trigger find_tx(final(self).txs(), id)]
                find_tx(final(self).txs(), id) == (if id == tx_id {
                    Some(
                        Transaction {
                            tx_id,
                            conn,
                            changes: find_tx(final(self).txs(), tx_id)->Some_0.changes,
                        },
                    )
                } else {
                    find_tx(old(self).txs(), id)
                })) && find_tx(final(self).txs(), tx_id)->Some_0.changes == changes),
    {
        let ghost before = self.txs();
        match self.position(tx_id) {
            Some(i) => {
                if self.list[i].conn.token == conn.token && self.list[i].conn.dom_id
                    == conn.dom_id {
                    proof {
                        assert(self.list@[i as int].conn == conn);
                    }
                    let tx = Transaction { tx_id, conn, changes };
                    self.list.set(i, tx);
                    proof {
                        let t = self.txs()[i as int];
                        assert(self.txs() =~= before.update(i as int, t));
                        assert forall|id: TxId|
                            #![trigger find_tx(self.txs(), id)]
                            find_tx(self.txs(), id) == (if id == tx_id {
                            Some(t)
                        } else {
                            find_tx(before, id)
                        }) by {
                            lemma_find_tx_update(before, i as int, t, id);
                        }
                        assert forall|a: int, b: int| 0 <= a < b < self.txs().len() implies (
                        #[trigger] self.txs()[a]).tx_id != (#[trigger] self.txs()[b]).tx_id by {
                            assert(before[a].tx_id != before[b].tx_id);
                        }
                    }
                    Ok(())
                } else {
                    Err(Error::ENOENT(String::from_str("no such transaction for this connection")))
                }
            }
            None => Err(Error::ENOENT(String::from_str("no such transaction"))),
        }
    }

    /// Ends a transaction, for its owner alone: on `Success` the
    /// change set is applied to the store — `EAGAIN` when a racing
    /// commit moved the generation — and on `Failure` it is simply
    /// dropped. The entry leaves the registry either way.
    pub fn end(
        &mut self,
        store: &mut Store,
        conn: ConnId,
        tx_id: TxId,
        success: TransactionStatus,
    ) -> (r: Result<Option<Vec<AppliedChange>>, Error>)
        requires
            old(self).inv(),
            old(store).inv(),
        ensures
            final(self).inv(),
            final(store).inv(),
            final(self).txs().len() <= old(self).txs().len(),
            r matches Err(e) ==> ((e is ENOENT && final(self).txs() == old(self).txs() && final(
                store).nodes() == old(store).nodes() && final(store).gen() == old(store).gen()) || (e
                is EAGAIN && final(store).nodes() == old(store).nodes() && final(store).gen()
                == old(store).gen())),
            r matches Err(e) ==> (e is ENOENT <==> !(find_tx(old(self).txs(), tx_id) matches Some(
                t,
            ) && t.conn == conn)),
            r is Ok ==> (find_tx(old(self).txs(), tx_id) matches Some(t) && t.conn == conn),
            r is Ok || (r matches Err(e) && e is EAGAIN) ==> (forall|id: TxId|
                #![trigger find_tx(final(self).txs(), id)]
                find_tx(final(self).txs(), id) == (if id == tx_id {
                    None::<Transaction>
                } else {
                    find_tx(old(self).txs(), id)
                })),
            r matches Ok(a) ==> (match success {
                TransactionStatus::Failure => (a is None && final(store).nodes() == old(
                    store).nodes() && final(store).gen() == old(store).gen()),
                TransactionStatus::Success => (a matches Some(applied) && {
                    let t = find_tx(old(self).txs(), tx_id)->Some_0;
                    &&& t.changes.parent_gen() == old(store).gen()
                    &&& old(store).gen() < u64::MAX
                    &&& final(store).gen() == old(store).gen() + 1
                    &&& (forall|q: crate::path::PathView|
                        #![trigger crate::store::find_node(final(store).nodes(), q)]
                        crate::store::find_node(final(store).nodes(), q)
                            == crate::store::eff_lookup(old(store).nodes(), t.changes.changes(), q))
                    &&& applied.deep_view().len() == t.changes.changes().len()
                    &&& (forall|i: int|
                        0 <= i < t.changes.changes().len() ==> applied.deep_view()[i]
                            == crate::store::applied_of(#[trigger] t.changes.changes()[i]))
                }),
            }),
            r matches Err(e) && e is EAGAIN ==> (match success {
                TransactionStatus::Success => {
                    let t = find_tx(old(self).txs(), tx_id)->Some_0;
                    !(t.changes.parent_gen() == old(store).gen() && old(store).gen() < u64::MAX)
                },
                TransactionStatus::Failure => false,
            }),
    {
        let ghost before = self.txs();
        let i = match self.position(tx_id) {
            Some(i) => i,
            None => {
                return Err(Error::ENOENT(String::from_str("no such transaction")));
            }
        };
        if !(self.list[i].conn.token == conn.token && self.list[i].conn.dom_id == conn.dom_id) {
            proof {
                assert(self.list@[i as int].conn != conn);
            }
            return Err(Error::ENOENT(String::from_str("no such transaction for this connection")));
        }
        proof {
            assert(self.list@[i as int].conn == conn);
        }
        let tx = self.list.remove(i);
        proof {
            assert(self.txs() =~= before.remove(i as int));
            assert forall|id: TxId|
                #![trigger find_tx(self.txs(), id)]
                find_tx(self.txs(), id) == (if id == tx_id {
                None::<Transaction>
            } else {
                find_tx(before, id)
            }) by {
                lemma_find_tx_remove(before, i as int, id);
            }
            assert forall|a: int, b: int| 0 <= a < b < self.txs().len() implies (
            #[trigger] self.txs()[a]).tx_id != (#[trigger] self.txs()[b]).tx_id by {
                let ra = if a < i {
                    a
                } else {
                    a + 1
                };
                let rb = if b < i {
                    b
                } else {
                    b + 1
                };
                assert(self.txs()[a] == before[ra] && self.txs()[b] == before[rb]);
            }
            assert forall|a: int| 0 <= a < self.txs().len() implies ((
            #[trigger] self.txs()[a]).tx_id != ROOT_TRANSACTION && self.txs()[a].changes.inv()) by {
                let ra = if a < i {
                    a
                } else {
                    a + 1
                };
                assert(self.txs()[a] == before[ra]);
            }
        }
        match success {
            TransactionStatus::Success => {
                match store.apply(tx.changes) {
                    Some(applied) => Ok(Some(applied)),
                    None => Err(
                        Error::EAGAIN(String::from_str("the store moved on since the snapshot")),
                    ),
                }
            }
            TransactionStatus::Failure => Ok(None),
        }
    }

    /// Drops every transaction owned by `conn`; run on teardown.
    pub fn reset(&mut self, conn: ConnId)
        requires
            old(self).inv(),
        ensures
            final(self).inv(),
            final(self).txs().len() <= old(self).txs().len(),
            forall|id: TxId|
                #![trigger find_tx(final(self).txs(), id)]
                find_tx(final(self).txs(), id) == (match find_tx(old(self).txs(), id) {
                    Some(t) => if t.conn == conn {
                        None::<Transaction>
                    } else {
                        Some(t)
                    },
                    None => None::<Transaction>,
                }),
    {
        let ghost before = self.txs();
        let mut i: usize = 0;
        let ghost mut j: int = 0;
        proof {
            assert(before.take(0).filter(keeps(conn)) =~= Seq::<Transaction>::empty());
            assert(before.skip(0) =~= before);
            assert(self.txs() =~= before.take(0).filter(keeps(conn)) + before.skip(0));
        }
        while i < self.list.len()
            invariant
                0 <= j <= before.len(),
                old(self).inv(),
                before == old(self).txs(),
                self.txs() == before.take(j).filter(keeps(conn)) + before.skip(j),
                i as int == before.take(j).filter(keeps(conn)).len(),
            decreases before.len() - j,
        {
            proof {
                before.take(j).lemma_filter_len(keeps(conn));
                assert(self.txs()[i as int] == before.skip(j)[0]);
                assert(before.skip(j)[0] == before[j]);
                reveal(Seq::filter);
                assert(before.take(j + 1).drop_last() =~= before.take(j));
                assert(before.take(j + 1).last() == before[j]);
            }
            let owned = self.list[i].conn.token == conn.token && self.list[i].conn.dom_id
                == conn.dom_id;
            proof {
                assert(owned == (before[j].conn == conn));
                assert(keeps(conn)(before[j]) == !owned);
            }
            if owned {
                let ghost lst = self.txs();
                self.list.remove(i);
                proof {
                    assert(self.txs() =~= before.take(j).filter(keeps(conn)) + before.skip(j + 1)) by {
                        assert(self.txs() =~= lst.remove(i as int));
                        assert(before.skip(j).drop_first() =~= before.skip(j + 1));
                        assert(lst.remove(i as int) =~= before.take(j).filter(keeps(conn)) + before.skip(
                            j,
                        ).drop_first());
                    }
                    assert(before.take(j + 1).filter(keeps(conn)) == before.take(j).filter(keeps(conn)));
                }
            } else {
                proof {
                    assert(before.take(j + 1).filter(keeps(conn)) == before.take(j).filter(
                        keeps(conn),
                    ).push(before[j]));
                    assert(before.take(j).filter(keeps(conn)).push(before[j]) + before.skip(j + 1)
                        =~= before.take(j).filter(keeps(conn)) + before.skip(j));
                }
                i = i + 1;
            }
            proof {
                j = j + 1;
            }
        }
        proof {
            assert(j == before.len()) by {
                before.take(j).lemma_filter_len(keeps(conn));
                assert(before.skip(j).len() == 0);
            }
            assert(before.take(j) =~= before);
            assert(self.txs() =~= before.filter(keeps(conn)));
        }
        proof {
            let now = self.txs();
            let pred = |t: Transaction| t.conn != conn;
            before.lemma_filter_len(pred);
            assert forall|id: TxId|
                #![trigger find_tx(now, id)]
                find_tx(now, id) == (match find_tx(before, id) {
                Some(t) => if t.conn == conn {
                    None::<Transaction>
                } else {
                    Some(t)
                },
                None => None::<Transaction>,
            }) by {
                lemma_find_tx_filter(before, conn, id);
            }
            lemma_filter_unique(before, keeps(conn));
            assert forall|a: int| 0 <= a < now.len() implies ((#[trigger] now[a]).tx_id
                != ROOT_TRANSACTION && now[a].changes.inv()) by {
                lemma_filter_members(before, keeps(conn), a);
            }
        }
    }
}

proof fn lemma_find_tx_push(txs: Seq<Transaction>, t: Transaction, id: TxId)
    requires
        forall|a: int| 0 <= a < txs.len() ==> (#[trigger] txs[a]).tx_id != t.tx_id,
    ensures
        find_tx(txs.push(t), id) == (if id == t.tx_id {
            Some(t)
        } else {
            find_tx(txs, id)
        }),
    decreases txs.len(),
{
    if txs.len() == 0 {
        assert(txs.push(t)[0] == t);
        assert(txs.push(t).drop_first() =~= Seq::<Transaction>::empty());
    } else {
        assert(txs.push(t)[0] == txs[0]);
        assert(txs.push(t).drop_first() =~= txs.drop_first().push(t));
        assert forall|a: int| 0 <= a < txs.drop_first().len() implies (
        #[trigger] txs.drop_first()[a]).tx_id != t.tx_id by {
            assert(txs[a + 1].tx_id != t.tx_id);
        }
        lemma_find_tx_push(txs.drop_first(), t, id);
    }
}

proof fn lemma_find_tx_update(txs: Seq<Transaction>, i: int, t: Transaction, id: TxId)
    requires
        0 <= i < txs.len(),
        txs[i].tx_id == t.tx_id,
        forall|a: int, b: int|
            0 <= a < b < txs.len() ==> (#[trigger] txs[a]).tx_id != (#[trigger] txs[b]).tx_id,
    ensures
        find_tx(txs.update(i, t), id) == (if id == t.tx_id {
            Some(t)
        } else {
            find_tx(txs, id)
        }),
    decreases txs.len(),
{
    if i == 0 {
        assert(txs.update(0, t)[0] == t);
        assert(txs.update(0, t).drop_first() =~= txs.drop_first());
        if id == t.tx_id && txs[0].tx_id != id {
            assert(false);
        }
        if id != t.tx_id {
            lemma_find_tx_present(txs.drop_first(), id);
        }
    } else {
        assert(txs.update(i, t)[0] == txs[0]);
        assert(txs.update(i, t).drop_first() =~= txs.drop_first().update(i - 1, t));
        assert forall|a: int, b: int| 0 <= a < b < txs.drop_first().len() implies (
        #[trigger] txs.drop_first()[a]).tx_id != (#[trigger] txs.drop_first()[b]).tx_id by {
            assert(txs[a + 1].tx_id != txs[b + 1].tx_id);
        }
        lemma_find_tx_update(txs.drop_first(), i - 1, t, id);
        if txs[0].tx_id == id {
            assert(txs[0].tx_id != txs[i].tx_id);
        }
    }
}

proof fn lemma_find_tx_remove(txs: Seq<Transaction>, i: int, id: TxId)
    requires
        0 <= i < txs.len(),
        forall|a: int, b: int|
            0 <= a < b < txs.len() ==> (#[trigger] txs[a]).tx_id != (#[trigger] txs[b]).tx_id,
    ensures
        find_tx(txs.remove(i), id) == (if id == txs[i].tx_id {
            None::<Transaction>
        } else {
            find_tx(txs, id)
        }),
    decreases txs.len(),
{
    if i == 0 {
        assert(txs.remove(0) =~= txs.drop_first());
        if id == txs[0].tx_id {
            lemma_find_tx_present(txs.drop_first(), id);
            if find_tx(txs.drop_first(), id) is Some {
                let j = choose|j: int|
                    0 <= j < txs.drop_first().len() && (#[trigger] txs.drop_first()[j]).tx_id == id;
                assert(txs[j + 1].tx_id == id);
                assert(false);
            }
        }
    } else {
        assert(txs.remove(i)[0] == txs[0]);
        assert(txs.remove(i).drop_first() =~= txs.drop_first().remove(i - 1));
        assert forall|a: int, b: int| 0 <= a < b < txs.drop_first().len() implies (
        #[trigger] txs.drop_first()[a]).tx_id != (#[trigger] txs.drop_first()[b]).tx_id by {
            assert(txs[a + 1].tx_id != txs[b + 1].tx_id);
        }
        lemma_find_tx_remove(txs.drop_first(), i - 1, id);
        if txs[0].tx_id == id {
            assert(txs[0].tx_id != txs[i].tx_id);
        }
    }
}

/// Every member of a filtered registry is a member of the unfiltered one.
proof fn lemma_filter_members(txs: Seq<Transaction>, pred: spec_fn(Transaction) -> bool, a: int)
    requires
        0 <= a < txs.filter(pred).len(),
    ensures
        exists|i: int| 0 <= i < txs.len() && #[trigger] txs[i] == txs.filter(pred)[a],
    decreases txs.len(),
{
    reveal(Seq::filter);
    if txs.len() > 0 {
        let dl = txs.drop_last();
        if pred(txs.last()) && a == txs.filter(pred).len() - 1 {
            assert(txs[txs.len() - 1] == txs.filter(pred)[a]);
        } else {
            lemma_filter_members(dl, pred, a);
            let i = choose|i: int| 0 <= i < dl.len() && #[trigger] dl[i] == dl.filter(pred)[a];
            assert(txs[i] == txs.filter(pred)[a]);
        }
    }
}

/// Filtering a registry with distinct ids keeps its ids distinct.
proof fn lemma_filter_unique(txs: Seq<Transaction>, pred: spec_fn(Transaction) -> bool)
    requires
        forall|a: int, b: int|
            0 <= a < b < txs.len() ==> (#[trigger] txs[a]).tx_id != (#[trigger] txs[b]).tx_id,
    ensures
        forall|a: int, b: int|
            0 <= a < b < txs.filter(pred).len() ==> (#[trigger] txs.filter(pred)[a]).tx_id != (
            #[trigger] txs.filter(pred)[b]).tx_id,
    decreases txs.len(),
{
    reveal(Seq::filter);
    if txs.len() > 0 {
        let dl = txs.drop_last();
        let last = txs.last();
        assert forall|a: int, b: int| 0 <= a < b < dl.len() implies (#[trigger] dl[a]).tx_id != (
        #[trigger] dl[b]).tx_id by {
            assert(txs[a].tx_id != txs[b].tx_id);
        }
        lemma_filter_unique(dl, pred);
        assert forall|a: int, b: int| 0 <= a < b < txs.filter(pred).len() implies (
        #[trigger] txs.filter(pred)[a]).tx_id != (#[trigger] txs.filter(pred)[b]).tx_id by {
            if pred(last) && b == txs.filter(pred).len() - 1 {
                assert(txs.filter(pred) == dl.filter(pred).push(last));
                assert(txs.filter(pred)[b] == last);
                assert(txs.filter(pred)[a] == dl.filter(pred)[a]);
                lemma_filter_members(dl, pred, a);
                let i = choose|i: int|
                    0 <= i < dl.len() && #[trigger] dl[i] == dl.filter(pred)[a];
                assert(txs[i].tx_id != txs[txs.len() - 1].tx_id);
            } else {
                if pred(last) {
                    assert(txs.filter(pred) == dl.filter(pred).push(last));
                    assert(txs.filter(pred)[a] == dl.filter(pred)[a]);
                    assert(txs.filter(pred)[b] == dl.filter(pred)[b]);
                } else {
                    assert(txs.filter(pred) == dl.filter(pred));
                }
                assert(dl.filter(pred)[a].tx_id != dl.filter(pred)[b].tx_id);
            }
        }
    }
}

/// Filtering a connection out removes exactly its transactions.
proof fn lemma_find_tx_filter(txs: Seq<Transaction>, conn: ConnId, id: TxId)
    requires
        forall|a: int, b: int|
            0 <= a < b < txs.len() ==> (#[trigger] txs[a]).tx_id != (#[trigger] txs[b]).tx_id,
    ensures
        find_tx(txs.filter(keeps(conn)), id) == (match find_tx(txs, id) {
            Some(t) => if t.conn == conn {
                None::<Transaction>
            } else {
                Some(t)
            },
            None => None::<Transaction>,
        }),
    decreases txs.len(),
{
    reveal(Seq::filter);
    let pred = keeps(conn);
    if txs.len() > 0 {
        let dl = txs.drop_last();
        let last = txs.last();
        assert forall|a: int, b: int| 0 <= a < b < dl.len() implies (#[trigger] dl[a]).tx_id != (
        #[trigger] dl[b]).tx_id by {
            assert(txs[a].tx_id != txs[b].tx_id);
        }
        lemma_find_tx_filter(dl, conn, id);
        lemma_find_tx_snoc(dl.filter(pred), last, id);
        lemma_find_tx_snoc(dl, last, id);
        if last.tx_id == id && find_tx(dl, id) is Some {
            lemma_find_tx_present(dl, id);
            let i = choose|i: int| 0 <= i < dl.len() && (#[trigger] dl[i]).tx_id == id;
            assert(txs[i].tx_id == id);
            assert(txs[txs.len() - 1].tx_id == id);
            assert(false);
        }
        if pred(last) {
            assert(txs.filter(pred) == dl.filter(pred).push(last));
        } else {
            assert(txs.filter(pred) == dl.filter(pred));
        }
        assert(txs =~= dl.push(last));
    } else {
        assert(txs.filter(pred) =~= txs);
    }
}

/// Finding in a registry with one more entry at the back: the front
/// wins, the new entry answers only ids the front does not hold.
proof fn lemma_find_tx_snoc(txs: Seq<Transaction>, t: Transaction, id: TxId)
    ensures
        find_tx(txs.push(t), id) == (if find_tx(txs, id) is Some {
            find_tx(txs, id)
        } else if t.tx_id == id {
            Some(t)
        } else {
            None::<Transaction>
        }),
    decreases txs.len(),
{
    if txs.len() == 0 {
        assert(txs.push(t)[0] == t);
        assert(txs.push(t).drop_first() =~= Seq::<Transaction>::empty());
    } else {
        assert(txs.push(t)[0] == txs[0]);
        assert(txs.push(t).drop_first() =~= txs.drop_first().push(t));
        lemma_find_tx_snoc(txs.drop_first(), t, id);
    }
}

} // verus!
